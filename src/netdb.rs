//! The line-oriented network databases: `/etc/hosts`, `/etc/protocols`
//! and `/etc/services`. Each line is parsed into an owned entry; a cursor
//! walks a database file, with opening, reading and closing left to the
//! caller.

use vstd::prelude::*;

use crate::bytes::views;
use crate::name::{split_bytes, split_on};
use crate::rawfile::RawFile;
use crate::resolver::{dotted_quad, parse_dotted_quad};
use crate::rlb::{line_at, Line, LineBufferView, Next, RawLineBuffer, READ_CHUNK};
use crate::text::{decimal_in_range, digits_value, parse_decimal, split_words, words};
use crate::types::{c_int, in_addr};

verus! {

pub const HASH: u8 = 0x23;

pub const SLASH: u8 = 0x2f;

/// The largest protocol number.
pub const MAX_PROTO: u32 = 0x7fff_ffff;

/// The largest port number.
pub const MAX_PORT: u32 = 0xffff;

/// A line that holds no entry: blank, or a comment.
pub open spec fn skipped_line(l: Seq<u8>) -> bool {
    words(l).len() == 0 || (l.len() > 0 && l[0] == HASH)
}

/// A line of `/etc/hosts`: `address name [alias...]`.
pub struct HostEntry {
    pub addr: in_addr,
    pub name: Vec<u8>,
    pub aliases: Vec<Vec<u8>>,
}

/// A line of `/etc/protocols`: `name number [alias...]`.
pub struct ProtoEntry {
    pub name: Vec<u8>,
    pub number: c_int,
    pub aliases: Vec<Vec<u8>>,
}

/// A line of `/etc/services`: `name port/protocol [alias...]`.
pub struct ServEntry {
    pub name: Vec<u8>,
    pub port: c_int,
    pub proto: Vec<u8>,
    pub aliases: Vec<Vec<u8>>,
}

pub struct HostView {
    pub addr: Seq<u8>,
    pub name: Seq<u8>,
    pub aliases: Seq<Seq<u8>>,
}

pub struct ProtoView {
    pub name: Seq<u8>,
    pub number: int,
    pub aliases: Seq<Seq<u8>>,
}

pub struct ServView {
    pub name: Seq<u8>,
    pub port: int,
    pub proto: Seq<u8>,
    pub aliases: Seq<Seq<u8>>,
}

impl View for HostEntry {
    type V = HostView;

    open spec fn view(&self) -> HostView {
        HostView { addr: self.addr.s_addr@, name: self.name@, aliases: views(self.aliases@) }
    }
}

impl View for ProtoEntry {
    type V = ProtoView;

    open spec fn view(&self) -> ProtoView {
        ProtoView { name: self.name@, number: self.number as int, aliases: views(self.aliases@) }
    }
}

impl View for ServEntry {
    type V = ServView;

    open spec fn view(&self) -> ServView {
        ServView {
            name: self.name@,
            port: self.port as int,
            proto: self.proto@,
            aliases: views(self.aliases@),
        }
    }
}

/// The entry a hosts line holds: at least two words, the first a dotted-quad
/// address; the second is the name and the rest are aliases.
pub open spec fn host_line(l: Seq<u8>) -> Option<HostView> {
    let w = words(l);
    if skipped_line(l) || w.len() < 2 {
        None
    } else {
        match dotted_quad(w[0]) {
            Some(a) => Some(HostView { addr: a, name: w[1], aliases: w.subrange(2, w.len() as int) }),
            None => None,
        }
    }
}

/// The entry a protocols line holds: at least two words, the second a
/// decimal protocol number.
pub open spec fn proto_line(l: Seq<u8>) -> Option<ProtoView> {
    let w = words(l);
    if skipped_line(l) || w.len() < 2 || !decimal_in_range(w[1], MAX_PROTO as nat) {
        None
    } else {
        Some(ProtoView { name: w[0], number: digits_value(w[1]) as int, aliases: w.subrange(2, w.len() as int) })
    }
}

/// The entry a services line holds: at least two words, the second a
/// decimal port and a protocol name separated by a slash (anything after a
/// second slash is ignored).
pub open spec fn serv_line(l: Seq<u8>) -> Option<ServView> {
    let w = words(l);
    if skipped_line(l) || w.len() < 2 {
        None
    } else {
        let pp = split_on(w[1], SLASH);
        if pp.len() < 2 || !decimal_in_range(pp[0], MAX_PORT as nat) {
            None
        } else {
            Some(ServView {
                name: w[0],
                port: digits_value(pp[0]) as int,
                proto: pp[1],
                aliases: w.subrange(2, w.len() as int),
            })
        }
    }
}

/// Whether a line holds no entry.
pub fn is_skipped_line(l: &[u8]) -> (r: bool)
    ensures
        r == skipped_line(l@),
{
    let w = split_words(l);
    w.len() == 0 || (l.len() > 0 && l[0] == HASH)
}

/// Moves the words from index 2 on out of `w`.
fn aliases_of(w: &mut Vec<Vec<u8>>) -> (r: Vec<Vec<u8>>)
    requires
        old(w)@.len() >= 2,
    ensures
        views(r@) == views(old(w)@).subrange(2, old(w)@.len() as int),
        final(w)@.len() == 2,
        forall|k: int| 0 <= k < 2 ==> final(w)@[k]@ == old(w)@[k]@,
{
    let tail = w.split_off(2);
    assert(views(tail@) =~= views(old(w)@).subrange(2, old(w)@.len() as int));
    tail
}

/// Takes word `i` out of `w`, leaving an empty word in its place.
fn take_word(w: &mut Vec<Vec<u8>>, i: usize) -> (r: Vec<u8>)
    requires
        i < old(w)@.len(),
    ensures
        r@ == old(w)@[i as int]@,
        final(w)@.len() == old(w)@.len(),
        forall|k: int| 0 <= k < old(w)@.len() && k != i ==> final(w)@[k]@ == old(w)@[k]@,
{
    let mut empty: Vec<u8> = Vec::new();
    std::mem::swap(&mut w[i], &mut empty);
    empty
}

/// Parses a hosts line.
pub fn parse_host_line(l: &[u8]) -> (r: Option<HostEntry>)
    ensures
        match host_line(l@) {
            Some(h) => r matches Some(e) && e@ == h,
            None => r is None,
        },
{
    if is_skipped_line(l) {
        return None;
    }
    let mut w = split_words(l);
    let ghost ws = words(l@);
    if w.len() < 2 {
        return None;
    }
    assert(w@[0]@ == ws[0]);
    assert(w@[1]@ == ws[1]);
    let addr = match parse_dotted_quad(w[0].as_slice()) {
        None => {
            return None;
        },
        Some(a) => a,
    };
    let aliases = aliases_of(&mut w);
    let name = take_word(&mut w, 1);
    let r = HostEntry { addr, name, aliases };
    assert(r@ == host_line(l@)->0);
    Some(r)
}

/// Parses a protocols line.
pub fn parse_proto_line(l: &[u8]) -> (r: Option<ProtoEntry>)
    ensures
        match proto_line(l@) {
            Some(p) => r matches Some(e) && e@ == p,
            None => r is None,
        },
{
    if is_skipped_line(l) {
        return None;
    }
    let mut w = split_words(l);
    let ghost ws = words(l@);
    if w.len() < 2 {
        return None;
    }
    assert(w@[0]@ == ws[0]);
    assert(w@[1]@ == ws[1]);
    let number = match parse_decimal(w[1].as_slice(), MAX_PROTO) {
        None => {
            return None;
        },
        Some(n) => n as c_int,
    };
    let aliases = aliases_of(&mut w);
    let name = take_word(&mut w, 0);
    let r = ProtoEntry { name, number, aliases };
    assert(r@ == proto_line(l@)->0);
    Some(r)
}

/// Parses a services line.
pub fn parse_serv_line(l: &[u8]) -> (r: Option<ServEntry>)
    ensures
        match serv_line(l@) {
            Some(s) => r matches Some(e) && e@ == s,
            None => r is None,
        },
{
    if is_skipped_line(l) {
        return None;
    }
    let mut w = split_words(l);
    let ghost ws = words(l@);
    if w.len() < 2 {
        return None;
    }
    assert(w@[0]@ == ws[0]);
    assert(w@[1]@ == ws[1]);
    let mut pp = split_bytes(w[1].as_slice(), SLASH);
    let ghost pps = split_on(ws[1], SLASH);
    if pp.len() < 2 {
        return None;
    }
    assert(pp@[0]@ == pps[0]);
    assert(pp@[1]@ == pps[1]);
    let port = match parse_decimal(pp[0].as_slice(), MAX_PORT) {
        None => {
            return None;
        },
        Some(n) => n as c_int,
    };
    let proto = take_word(&mut pp, 1);
    let aliases = aliases_of(&mut w);
    let name = take_word(&mut w, 0);
    let r = ServEntry { name, port, proto, aliases };
    assert(r@ == serv_line(l@)->0);
    Some(r)
}

/// The alias table handed to C callers: each alias with a terminating NUL,
/// then an empty slot that ends the table.
pub fn c_alias_table(aliases: &Vec<Vec<u8>>) -> (r: Vec<Option<Vec<u8>>>)
    ensures
        r@.len() == aliases@.len() + 1,
        forall|i: int| 0 <= i < aliases@.len() ==> (#[trigger] r@[i] matches Some(s) && s@ == aliases@[i]@.push(0u8)),
        r@[aliases@.len() as int] is None,
{
    let mut out: Vec<Option<Vec<u8>>> = Vec::new();
    let mut i: usize = 0;
    while i < aliases.len()
        invariant
            i <= aliases@.len(),
            out@.len() == i,
            forall|k: int| 0 <= k < i ==> (#[trigger] out@[k] matches Some(s) && s@ == aliases@[k]@.push(0u8)),
        decreases aliases@.len() - i,
    {
        let mut s = crate::bytes::copy_range(aliases[i].as_slice(), 0, aliases[i].len());
        assert(aliases@[i as int]@.subrange(0, aliases@[i as int]@.len() as int) =~= aliases@[i as int]@);
        s.push(0u8);
        out.push(Some(s));
        i = i + 1;
    }
    out.push(None);
    out
}

/// Which database a cursor walks.
#[derive(PartialEq, Eq, Structural, Clone, Copy, Debug)]
pub enum DbKind {
    Hosts,
    Protocols,
    Services,
}

/// One parsed entry.
pub enum Entry {
    Host(HostEntry),
    Proto(ProtoEntry),
    Serv(ServEntry),
}

/// The entry a line of a database holds.
pub open spec fn entry_matches(kind: DbKind, l: Seq<u8>, e: Entry) -> bool {
    match kind {
        DbKind::Hosts => host_line(l) matches Some(h) && e matches Entry::Host(x) && x@ == h,
        DbKind::Protocols => proto_line(l) matches Some(p) && e matches Entry::Proto(x) && x@ == p,
        DbKind::Services => serv_line(l) matches Some(v) && e matches Entry::Serv(x) && x@ == v,
    }
}

/// Whether a line of a database holds an entry.
pub open spec fn holds_entry(kind: DbKind, l: Seq<u8>) -> bool {
    match kind {
        DbKind::Hosts => host_line(l) is Some,
        DbKind::Protocols => proto_line(l) is Some,
        DbKind::Services => serv_line(l) is Some,
    }
}

/// Parses a line of a database.
pub fn parse_entry(kind: DbKind, l: &[u8]) -> (r: Option<Entry>)
    ensures
        holds_entry(kind, l@) ==> (r matches Some(e) && entry_matches(kind, l@, e)),
        !holds_entry(kind, l@) ==> r is None,
{
    match kind {
        DbKind::Hosts => match parse_host_line(l) {
            Some(h) => Some(Entry::Host(h)),
            None => None,
        },
        DbKind::Protocols => match parse_proto_line(l) {
            Some(p) => Some(Entry::Proto(p)),
            None => None,
        },
        DbKind::Services => match parse_serv_line(l) {
            Some(v) => Some(Entry::Serv(v)),
            None => None,
        },
    }
}

/// What a cursor asks of its caller.
pub enum DbStep {
    /// The next entry.
    Found(Entry),
    /// The line just consumed holds no entry; ask again.
    Skip,
    /// The database is closed: open its file and hand the descriptor to
    /// `opened`.
    Open,
    /// Read up to this many bytes from the descriptor and hand the outcome
    /// to `fill`.
    Read(c_int, usize),
    /// No entries are left. The file, when given, was closed by the cursor
    /// and is the caller's to close.
    End(Option<RawFile>),
}

/// A cursor over one database file: closed, or open on a descriptor with a
/// line reader positioned in it, and whether to stay open at the end.
pub struct Database {
    kind: DbKind,
    file: Option<RawFile>,
    stay_open: bool,
    lines: RawLineBuffer,
}

pub struct DatabaseView {
    pub kind: DbKind,
    /// The open descriptor, if any.
    pub fd: Option<c_int>,
    pub stay_open: bool,
    pub lines: LineBufferView,
}

impl View for Database {
    type V = DatabaseView;

    closed spec fn view(&self) -> DatabaseView {
        DatabaseView {
            kind: self.kind,
            fd: match self.file {
                Some(f) => Some(f@),
                None => None,
            },
            stay_open: self.stay_open,
            lines: self.lines@,
        }
    }
}

impl Database {
    pub closed spec fn wf(&self) -> bool {
        &&& self.lines.wf()
        &&& (self.file matches Some(f) ==> self.lines@.fd == f@)
    }

    /// A closed cursor over the database `kind`.
    pub fn new(kind: DbKind) -> (r: Self)
        ensures
            r.wf(),
            r@.kind == kind,
            r@.fd is None,
            !r@.stay_open,
    {
        Database { kind, file: None, stay_open: false, lines: RawLineBuffer::new(0) }
    }

    pub fn is_open(&self) -> (r: bool)
        ensures
            r == self@.fd is Some,
    {
        self.file.is_some()
    }

    /// Takes the result of opening the file: `-1` leaves the cursor closed
    /// and returns `false`; any other descriptor opens it at the start.
    pub fn opened(&mut self, fd: c_int) -> (r: bool)
        requires
            old(self).wf(),
        ensures
            final(self).wf(),
            final(self)@.kind == old(self)@.kind,
            final(self)@.stay_open == old(self)@.stay_open,
            fd == -1 ==> !r && final(self)@ == old(self)@,
            fd != -1 ==> r && final(self)@.fd == Some(fd) && final(self)@.lines.input.len() == 0
                && final(self)@.lines.start == 0 && final(self)@.lines.consumed == 0
                && !final(self)@.lines.eof,
    {
        match RawFile::open(fd) {
            Err(()) => false,
            Ok(f) => {
                self.lines = RawLineBuffer::new(fd);
                self.file = Some(f);
                true
            },
        }
    }

    /// Starts the walk again, and records whether to stay open at the end.
    /// When open, returns the descriptor to rewind to the start of the file;
    /// when closed, the next step asks for the file to be opened.
    pub fn set(&mut self, stay_open: bool) -> (r: Option<c_int>)
        requires
            old(self).wf(),
        ensures
            final(self).wf(),
            final(self)@.kind == old(self)@.kind,
            final(self)@.stay_open == stay_open,
            final(self)@.fd == old(self)@.fd,
            r == old(self)@.fd,
            old(self)@.fd is Some ==> final(self)@.lines.input.len() == 0 && final(self)@.lines.start
                == 0 && final(self)@.lines.consumed == 0 && !final(self)@.lines.eof,
    {
        self.stay_open = stay_open;
        match &self.file {
            Some(f) => {
                let fd = f.as_raw_fd();
                self.lines = RawLineBuffer::new(fd);
                Some(fd)
            },
            None => None,
        }
    }

    /// Closes the cursor, handing back the file to close. On a closed
    /// cursor this does nothing and hands back nothing.
    pub fn end(&mut self) -> (r: Option<RawFile>)
        requires
            old(self).wf(),
        ensures
            final(self).wf(),
            final(self)@.fd is None,
            final(self)@.kind == old(self)@.kind,
            final(self)@.stay_open == old(self)@.stay_open,
            old(self)@.fd is None ==> r is None && final(self)@ == old(self)@,
            old(self)@.fd is Some ==> (r matches Some(f) && f@ == old(self)@.fd->0),
    {
        self.file.take()
    }

    /// Takes the outcome of one read call, as `RawLineBuffer::fill` does.
    pub fn fill(&mut self, count: isize, data: &[u8]) -> (r: Option<Line>)
        requires
            old(self).wf(),
            count <= data@.len(),
            old(self)@.lines.input.len() + data@.len() <= usize::MAX,
        ensures
            final(self).wf(),
            final(self)@.kind == old(self)@.kind,
            final(self)@.fd == old(self)@.fd,
            final(self)@.stay_open == old(self)@.stay_open,
            final(self)@.lines.fd == old(self)@.lines.fd,
            final(self)@.lines.start == old(self)@.lines.start,
            final(self)@.lines.consumed == old(self)@.lines.consumed,
            count < 0 ==> (r matches Some(Line::Error) && final(self)@ == old(self)@),
            count == 0 ==> r is None && final(self)@.lines.input == old(self)@.lines.input
                && final(self)@.lines.eof,
            count > 0 ==> r is None && final(self)@.lines.eof == old(self)@.lines.eof
                && final(self)@.lines.input == old(self)@.lines.input + data@.subrange(0, count as int),
    {
        self.lines.fill(count, data)
    }

    /// One step of the walk. Closed: asks for the file. Open with a line
    /// ready: consumes it and returns its entry, or `Skip` when it holds
    /// none. At the end of the file: closes, unless asked to stay open.
    /// Otherwise asks for a read. An open cursor's reader moves on exactly as
    /// `RawLineBuffer::next` says.
    pub fn step(&mut self) -> (r: DbStep)
        requires
            old(self).wf(),
        ensures
            final(self).wf(),
            final(self)@.kind == old(self)@.kind,
            final(self)@.stay_open == old(self)@.stay_open,
            old(self)@.fd is None ==> (r is Open && final(self)@ == old(self)@),
            old(self)@.fd is Some ==> ({
                let lv = old(self)@.lines;
                &&& final(self)@.lines.fd == lv.fd
                &&& final(self)@.lines.input == lv.input
                &&& final(self)@.lines.eof == lv.eof
                &&& final(self)@.lines.start == lv.start + lv.consumed
                &&& final(self)@.lines.consumed == if lv.has_line() { lv.line_len() } else { 0 }
            }),
            old(self)@.fd is Some && old(self)@.lines.has_line() ==> ({
                let l = line_at(old(self)@.lines.rest());
                &&& final(self)@.fd == old(self)@.fd
                &&& holds_entry(old(self)@.kind, l) ==> (r matches DbStep::Found(e) && entry_matches(
                    old(self)@.kind,
                    l,
                    e,
                ))
                &&& !holds_entry(old(self)@.kind, l) ==> r is Skip
            }),
            old(self)@.fd is Some && !old(self)@.lines.has_line() && old(self)@.lines.eof
                ==> (if old(self)@.stay_open {
                r matches DbStep::End(None) && final(self)@.fd == old(self)@.fd
            } else {
                r matches DbStep::End(Some(f)) && f@ == old(self)@.fd->0 && final(self)@.fd is None
            }),
            old(self)@.fd is Some && !old(self)@.lines.has_line() && !old(self)@.lines.eof
                ==> (r == DbStep::Read(old(self)@.fd->0, READ_CHUNK) && final(self)@.fd == old(self)@.fd),
    {
        let fd = match &self.file {
            None => {
                return DbStep::Open;
            },
            Some(f) => f.as_raw_fd(),
        };
        match self.lines.next() {
            Next::Read(n) => DbStep::Read(fd, n),
            Next::Text(l) => match parse_entry(self.kind, l.as_slice()) {
                Some(e) => DbStep::Found(e),
                None => DbStep::Skip,
            },
            Next::EOF => {
                if self.stay_open {
                    DbStep::End(None)
                } else {
                    DbStep::End(self.file.take())
                }
            },
        }
    }
}

/// Whether two byte strings are equal.
pub fn bytes_eq(a: &[u8], b: &[u8]) -> (r: bool)
    ensures
        r == (a@ == b@),
{
    if a.len() != b.len() {
        return false;
    }
    let mut i: usize = 0;
    while i < a.len()
        invariant
            a@.len() == b@.len(),
            i <= a@.len(),
            forall|k: int| 0 <= k < i ==> a@[k] == b@[k],
        decreases a@.len() - i,
    {
        if a[i] != b[i] {
            return false;
        }
        i = i + 1;
    }
    assert(a@ =~= b@);
    true
}

/// A service entry answers to `name` over `proto` when its protocol is
/// `proto` and `name` is its name or one of its aliases.
pub open spec fn serv_named(e: ServView, name: Seq<u8>, proto: Seq<u8>) -> bool {
    e.proto == proto && (e.name == name || e.aliases.contains(name))
}

pub fn serv_matches_name(e: &ServEntry, name: &[u8], proto: &[u8]) -> (r: bool)
    ensures
        r == serv_named(e@, name@, proto@),
{
    if !bytes_eq(e.proto.as_slice(), proto) {
        return false;
    }
    if bytes_eq(e.name.as_slice(), name) {
        return true;
    }
    let mut i: usize = 0;
    while i < e.aliases.len()
        invariant
            e.proto@ == proto@,
            e.name@ != name@,
            i <= e.aliases@.len(),
            forall|k: int| 0 <= k < i ==> e.aliases@[k]@ != name@,
        decreases e.aliases@.len() - i,
    {
        if bytes_eq(e.aliases[i].as_slice(), name) {
            assert(e@.aliases[i as int] == name@);
            assert(e@.aliases.contains(name@));
            return true;
        }
        i = i + 1;
    }
    assert(!e@.aliases.contains(name@)) by {
        if e@.aliases.contains(name@) {
            let k = choose|k: int| 0 <= k < e@.aliases.len() && e@.aliases[k] == name@;
            assert(e.aliases@[k]@ == name@);
        }
    }
    false
}

/// A service entry answers to `port` over `proto` when both match.
pub open spec fn serv_on_port(e: ServView, port: int, proto: Seq<u8>) -> bool {
    e.port == port && e.proto == proto
}

pub fn serv_matches_port(e: &ServEntry, port: c_int, proto: &[u8]) -> (r: bool)
    ensures
        r == serv_on_port(e@, port as int, proto@),
{
    e.port == port && bytes_eq(e.proto.as_slice(), proto)
}

/// The address a host name spells when it is a dotted quad; such a name
/// needs no lookup.
pub fn literal_address(name: &[u8]) -> (r: Option<in_addr>)
    ensures
        match dotted_quad(name@) {
            Some(a) => r matches Some(x) && x.s_addr@ == a,
            None => r is None,
        },
{
    parse_dotted_quad(name)
}

} // verus!
