//! The stub resolver's decisions: which server to ask, what to send, and
//! what to make of the reply. Sending and receiving are the caller's.

use vstd::prelude::*;

use crate::bytes::{append_range, copy_range, views};
use crate::dns::{
    lemma_parse_encode, parse_packet, AnswerView, Dns, DnsAnswer, DnsQuery, DnsView, QueryView,
    encode_packet, wf_packet, CLASS_IN, FLAGS_QUERY, TYPE_A, TYPE_PTR,
};
use crate::name::{
    dotted, free_of, is_valid_name, joined, lemma_split_joined, lemma_wire_labels_push, len_byte,
    split_bytes, split_on, valid_label, valid_labels, valid_name, wire_labels, DOT,
};
use crate::text::{
    all_digits, decimal, decimal_in_range, digits_value, has_prefix, lemma_decimal_octet,
    parse_decimal, push_decimal, starts_with, trim, trim_bounds,
};
use crate::rlb::NEWLINE;
use crate::types::{in_addr, timespec};

verus! {

/// The port a name server listens on.
pub const DNS_PORT: u16 = 53;

/// Why a lookup failed.
#[derive(PartialEq, Eq, Structural, Clone, Copy, Debug)]
pub enum LookupError {
    /// No name-server address could be read from the configuration.
    NoNameserver,
    /// The name cannot be put in a query.
    InvalidName,
    /// The query could not be sent.
    Send,
    /// No reply could be received.
    Receive,
    /// The reply is not a well-formed message.
    Malformed,
}

/// The keyword that starts a name-server line.
pub open spec fn nameserver_keyword() -> Seq<u8> {
    seq![0x6e, 0x61, 0x6d, 0x65, 0x73, 0x65, 0x72, 0x76, 0x65, 0x72]
}

/// What follows the keyword on the first line that starts with it; empty
/// when no line does.
pub open spec fn first_nameserver(lines: Seq<Seq<u8>>) -> Seq<u8>
    decreases lines.len(),
{
    if lines.len() == 0 {
        Seq::empty()
    } else if has_prefix(lines[0], nameserver_keyword()) {
        lines[0].subrange(nameserver_keyword().len() as int, lines[0].len() as int)
    } else {
        first_nameserver(lines.drop_first())
    }
}

/// The name-server setting of a resolver configuration file: what follows
/// `nameserver` on its first line that starts with that word.
pub fn nameserver_from_conf(conf: &[u8]) -> (r: Vec<u8>)
    ensures
        r@ == first_nameserver(split_on(conf@, NEWLINE)),
{
    let keyword: Vec<u8> = vec![0x6e, 0x61, 0x6d, 0x65, 0x73, 0x65, 0x72, 0x76, 0x65, 0x72];
    assert(keyword@ =~= nameserver_keyword());
    let lines = split_bytes(conf, NEWLINE);
    let ghost ls = split_on(conf@, NEWLINE);
    let mut i: usize = 0;
    assert(ls.subrange(0, ls.len() as int) =~= ls);
    while i < lines.len()
        invariant
            ls == split_on(conf@, NEWLINE),
            views(lines@) == ls,
            keyword@ == nameserver_keyword(),
            i <= lines@.len(),
            first_nameserver(ls) == first_nameserver(ls.subrange(i as int, ls.len() as int)),
        decreases lines@.len() - i,
    {
        let line = &lines[i];
        let ghost rest = ls.subrange(i as int, ls.len() as int);
        assert(rest[0] == line@);
        assert(rest.drop_first() =~= ls.subrange(i + 1, ls.len() as int));
        if starts_with(line.as_slice(), keyword.as_slice()) {
            assert(first_nameserver(rest) == line@.subrange(10, line@.len() as int));
            assert(keyword@.len() == 10);
            let value = copy_range(line.as_slice(), keyword.len(), line.len());
            assert(value@ == first_nameserver(ls));
            return value;
        }
        i = i + 1;
    }
    Vec::new()
}

/// The four octets that a dotted-quad IPv4 address spells: the text,
/// without surrounding whitespace, is four dot-separated decimal numbers of
/// at most 255. Name-server settings, hosts-file addresses and numeric host
/// names are all read this way.
pub open spec fn dotted_quad(config: Seq<u8>) -> Option<Seq<u8>> {
    let parts = split_on(trim(config), DOT);
    if parts.len() == 4 && forall|i: int| 0 <= i < 4 ==> decimal_in_range(#[trigger] parts[i], 255) {
        Some(Seq::new(4, |i: int| digits_value(parts[i]) as u8))
    } else {
        None
    }
}

/// Reads a dotted-quad IPv4 address, such as a name-server setting.
pub fn parse_dotted_quad(config: &[u8]) -> (r: Option<in_addr>)
    ensures
        match dotted_quad(config@) {
            Some(a) => r matches Some(x) && x.s_addr@ == a,
            None => r is None,
        },
{
    let (start, end) = trim_bounds(config);
    let trimmed = copy_range(config, start, end);
    let parts = split_bytes(trimmed.as_slice(), DOT);
    let ghost ps = split_on(trim(config@), DOT);
    assert(views(parts@) == ps);
    if parts.len() != 4 {
        return None;
    }
    let mut octets: [u8; 4] = [0u8; 4];
    let mut i: usize = 0;
    while i < 4
        invariant
            ps == split_on(trim(config@), DOT),
            views(parts@) == ps,
            ps.len() == 4,
            i <= 4,
            forall|k: int| 0 <= k < i ==> decimal_in_range(#[trigger] ps[k], 255),
            forall|k: int| 0 <= k < i ==> octets@[k] == digits_value(#[trigger] ps[k]) as u8,
        decreases 4 - i,
    {
        assert(parts@[i as int]@ == ps[i as int]);
        match parse_decimal(parts[i].as_slice(), 255) {
            None => {
                assert(!decimal_in_range(ps[i as int], 255));
                return None;
            },
            Some(v) => {
                octets[i] = v as u8;
            },
        }
        i = i + 1;
    }
    let r = in_addr { s_addr: octets };
    assert(r.s_addr@ =~= Seq::new(4, |i: int| digits_value(ps[i]) as u8));
    Some(r)
}

/// The spelling `IN-ADDR`.
pub open spec fn in_addr_label() -> Seq<u8> {
    seq![0x49, 0x4e, 0x2d, 0x41, 0x44, 0x44, 0x52]
}

/// The spelling `ARPA`.
pub open spec fn arpa_label() -> Seq<u8> {
    seq![0x41, 0x52, 0x50, 0x41]
}

/// The labels of the reverse-lookup name of an address: its octets in
/// reverse order, then `IN-ADDR` and `ARPA`.
pub open spec fn reverse_labels(a: Seq<u8>) -> Seq<Seq<u8>> {
    seq![
        decimal(a[3] as nat),
        decimal(a[2] as nat),
        decimal(a[1] as nat),
        decimal(a[0] as nat),
        in_addr_label(),
        arpa_label(),
    ]
}

/// The reverse-lookup name of an address, `d.c.b.a.IN-ADDR.ARPA`.
pub open spec fn reverse_name(a: Seq<u8>) -> Seq<u8> {
    dotted(reverse_labels(a))
}

pub proof fn lemma_joined_push(ls: Seq<Seq<u8>>, l: Seq<u8>, sep: u8)
    requires
        ls.len() >= 1,
    ensures
        joined(ls.push(l), sep) == joined(ls, sep) + seq![sep] + l,
{
    assert(ls.push(l).drop_last() =~= ls);
}

/// A reverse-lookup name can always be sent in a query.
pub proof fn lemma_reverse_name_valid(a: Seq<u8>)
    requires
        a.len() == 4,
    ensures
        valid_name(reverse_name(a)),
{
    let ls = reverse_labels(a);
    assert forall|i: int| 0 <= i < ls.len() implies free_of(#[trigger] ls[i], DOT) && valid_label(ls[i]) by {
        if i < 4 {
            lemma_decimal_octet(a[3 - i] as nat);
            assert(ls[i] == decimal(a[3 - i] as nat));
            assert(all_digits(ls[i]));
        } else if i == 4 {
            assert(ls[i] == in_addr_label());
        } else {
            assert(ls[i] == arpa_label());
        }
    }
    lemma_split_joined(ls, DOT);
}

/// Builds the reverse-lookup name of an address.
pub fn reverse_lookup_name(addr: &in_addr) -> (r: Vec<u8>)
    ensures
        r@ == reverse_name(addr.s_addr@),
{
    let a = addr.s_addr;
    let ghost ls = reverse_labels(a@);
    let mut out: Vec<u8> = Vec::new();
    push_decimal(&mut out, a[3]);
    assert(out@ =~= joined(ls.take(1), DOT));
    push_dot(&mut out);
    push_decimal(&mut out, a[2]);
    proof {
        assert(ls.take(2) =~= ls.take(1).push(ls[1]));
        lemma_joined_push(ls.take(1), ls[1], DOT);
    }
    assert(out@ =~= joined(ls.take(2), DOT));
    push_dot(&mut out);
    push_decimal(&mut out, a[1]);
    proof {
        assert(ls.take(3) =~= ls.take(2).push(ls[2]));
        lemma_joined_push(ls.take(2), ls[2], DOT);
    }
    assert(out@ =~= joined(ls.take(3), DOT));
    push_dot(&mut out);
    push_decimal(&mut out, a[0]);
    proof {
        assert(ls.take(4) =~= ls.take(3).push(ls[3]));
        lemma_joined_push(ls.take(3), ls[3], DOT);
    }
    assert(out@ =~= joined(ls.take(4), DOT));
    let suffix: Vec<u8> = vec![0x2e, 0x49, 0x4e, 0x2d, 0x41, 0x44, 0x44, 0x52, 0x2e, 0x41, 0x52, 0x50, 0x41];
    append_range(&mut out, suffix.as_slice(), 0, suffix.len());
    proof {
        assert(ls.take(5) =~= ls.take(4).push(ls[4]));
        lemma_joined_push(ls.take(4), ls[4], DOT);
        assert(ls =~= ls.take(5).push(ls[5]));
        lemma_joined_push(ls.take(5), ls[5], DOT);
        assert(suffix@.subrange(0, 13) =~= seq![DOT] + in_addr_label() + seq![DOT] + arpa_label());
    }
    assert(out@ =~= reverse_name(a@));
    out
}

fn push_dot(out: &mut Vec<u8>)
    ensures
        final(out)@ == old(out)@ + seq![DOT],
{
    out.push(DOT);
    assert(out@ =~= old(out)@ + seq![DOT]);
}

/// The transaction id drawn from a clock reading: bits 16 to 31 of its
/// nanoseconds.
pub open spec fn transaction_id_of(now: timespec) -> u16 {
    ((now.tv_nsec >> 16) & 0xffff) as u16
}

pub fn transaction_id(now: &timespec) -> (r: u16)
    ensures
        r == transaction_id_of(*now),
{
    ((now.tv_nsec >> 16) & 0xffff) as u16
}

/// The message that asks for the records of one type of `name`.
pub open spec fn query_packet(id: u16, name: Seq<u8>, q_type: u16) -> DnsView {
    DnsView {
        transaction_id: id,
        flags: FLAGS_QUERY,
        queries: seq![QueryView { name, q_type, q_class: CLASS_IN }],
        answers: Seq::empty(),
    }
}

/// The bytes of the query for the records of type `q_type` of `name`, if
/// the name can be sent.
pub fn build_query(id: u16, name: &[u8], q_type: u16) -> (r: Option<Vec<u8>>)
    ensures
        valid_name(name@) ==> (r matches Some(b) && b@ == encode_packet(
            query_packet(id, name@, q_type),
        )),
        !valid_name(name@) ==> r is None,
{
    if !is_valid_name(name) {
        return None;
    }
    let q = DnsQuery { name: copy_range(name, 0, name.len()), q_type, q_class: CLASS_IN };
    let mut queries: Vec<DnsQuery> = Vec::new();
    queries.push(q);
    let packet = Dns { transaction_id: id, flags: FLAGS_QUERY, queries, answers: Vec::new() };
    assert(name@.subrange(0, name@.len() as int) =~= name@);
    assert(packet@.queries =~= seq![QueryView { name: name@, q_type, q_class: CLASS_IN }]);
    assert(packet@.answers =~= Seq::<AnswerView>::empty());
    assert(packet@ == query_packet(id, name@, q_type));
    assert(packet.wf());
    Some(packet.compile())
}

/// A query to send, and where to send it.
pub struct DnsRequest {
    pub server: in_addr,
    pub port: u16,
    pub packet: Vec<u8>,
}

/// Prepares the address lookup of `host`: reads the name server from its
/// setting and builds a type-A query whose transaction id comes from `now`.
/// Without a name server nothing is built, so no socket need be opened.
pub fn prepare_host_lookup(config: &[u8], host: &[u8], now: &timespec) -> (r: Result<
    DnsRequest,
    LookupError,
>)
    ensures
        dotted_quad(config@) is None ==> r == Err::<DnsRequest, LookupError>(
            LookupError::NoNameserver,
        ),
        dotted_quad(config@) is Some && !valid_name(host@) ==> r == Err::<
            DnsRequest,
            LookupError,
        >(LookupError::InvalidName),
        dotted_quad(config@) is Some && valid_name(host@) ==> (r matches Ok(req)
            && req.server.s_addr@ == dotted_quad(config@)->0 && req.port == DNS_PORT
            && req.packet@ == encode_packet(query_packet(transaction_id_of(*now), host@, TYPE_A))),
{
    let server = match parse_dotted_quad(config) {
        None => {
            return Err(LookupError::NoNameserver);
        },
        Some(s) => s,
    };
    match build_query(transaction_id(now), host, TYPE_A) {
        None => Err(LookupError::InvalidName),
        Some(packet) => Ok(DnsRequest { server, port: DNS_PORT, packet }),
    }
}

/// Prepares the reverse lookup of `addr`: a type-PTR query for its
/// reverse-lookup name.
pub fn prepare_addr_lookup(config: &[u8], addr: &in_addr, now: &timespec) -> (r: Result<
    DnsRequest,
    LookupError,
>)
    ensures
        dotted_quad(config@) is None ==> r == Err::<DnsRequest, LookupError>(
            LookupError::NoNameserver,
        ),
        dotted_quad(config@) is Some ==> (r matches Ok(req) && req.server.s_addr@
            == dotted_quad(config@)->0 && req.port == DNS_PORT && req.packet@
            == encode_packet(
            query_packet(transaction_id_of(*now), reverse_name(addr.s_addr@), TYPE_PTR),
        )),
{
    let server = match parse_dotted_quad(config) {
        None => {
            return Err(LookupError::NoNameserver);
        },
        Some(s) => s,
    };
    let name = reverse_lookup_name(addr);
    proof {
        lemma_reverse_name_valid(addr.s_addr@);
    }
    match build_query(transaction_id(now), name.as_slice(), TYPE_PTR) {
        None => Err(LookupError::InvalidName),
        Some(packet) => Ok(DnsRequest { server, port: DNS_PORT, packet }),
    }
}

/// The outcome of sending a query: a negative count is a failure.
pub fn check_sent(count: isize) -> (r: Result<(), LookupError>)
    ensures
        count < 0 ==> r == Err::<(), LookupError>(LookupError::Send),
        count >= 0 ==> r == Ok::<(), LookupError>(()),
{
    if count < 0 {
        Err(LookupError::Send)
    } else {
        Ok(())
    }
}

/// The addresses that a reply's answers carry, in order: the data of each
/// record of type A and class IN whose data is four bytes long.
pub open spec fn host_addresses(ans: Seq<AnswerView>) -> Seq<Seq<u8>>
    decreases ans.len(),
{
    if ans.len() == 0 {
        Seq::empty()
    } else {
        let prev = host_addresses(ans.drop_last());
        let a = ans.last();
        if a.a_type == TYPE_A && a.a_class == CLASS_IN && a.data.len() == 4 {
            prev.push(a.data)
        } else {
            prev
        }
    }
}

/// The octets of each address.
pub open spec fn addr_views(v: Seq<in_addr>) -> Seq<Seq<u8>> {
    v.map_values(|a: in_addr| a.s_addr@)
}

/// The addresses of the A records among `answers`.
pub fn answer_addresses(answers: &Vec<DnsAnswer>) -> (r: Vec<in_addr>)
    ensures
        addr_views(r@) == host_addresses(answers@.map_values(|a: DnsAnswer| a@)),
{
    let ghost ans = answers@.map_values(|a: DnsAnswer| a@);
    let mut out: Vec<in_addr> = Vec::new();
    let mut i: usize = 0;
    while i < answers.len()
        invariant
            ans == answers@.map_values(|a: DnsAnswer| a@),
            i <= answers@.len(),
            addr_views(out@) == host_addresses(ans.take(i as int)),
        decreases answers@.len() - i,
    {
        let a = &answers[i];
        proof {
            assert(ans.take(i + 1).drop_last() =~= ans.take(i as int));
            assert(ans.take(i + 1).last() == a@);
        }
        if a.a_type == TYPE_A && a.a_class == CLASS_IN && a.data.len() == 4 {
            let addr = in_addr { s_addr: [a.data[0], a.data[1], a.data[2], a.data[3]] };
            assert(addr.s_addr@ =~= a.data@);
            out.push(addr);
            assert(addr_views(out@) =~= host_addresses(ans.take(i + 1)));
        } else {
            assert(addr_views(out@) =~= host_addresses(ans.take(i + 1)));
        }
        i = i + 1;
    }
    assert(ans.take(answers@.len() as int) =~= ans);
    out
}

/// The labels of the data of a pointer record: length-prefixed labels, up
/// to a zero length byte or the end of the data; a label that runs past the
/// end keeps the bytes that are there.
pub open spec fn rdata_labels(d: Seq<u8>) -> Seq<Seq<u8>>
    decreases d.len(),
{
    if d.len() == 0 || d[0] == 0 {
        Seq::empty()
    } else if 1 + d[0] >= d.len() {
        seq![d.subrange(1, d.len() as int)]
    } else {
        seq![d.subrange(1, 1 + d[0])] + rdata_labels(d.subrange(1 + d[0], d.len() as int))
    }
}

/// The dotted name that the data of a pointer record spells.
pub open spec fn rdata_name(d: Seq<u8>) -> Seq<u8> {
    dotted(rdata_labels(d))
}

/// Turns the data of a pointer record into a dotted name, with no dot at
/// the end: each length byte after the first becomes a dot.
pub fn parse_revdns_answer(data: Vec<u8>) -> (r: Vec<u8>)
    ensures
        r@ == rdata_name(data@),
{
    let d = data.as_slice();
    let mut out: Vec<u8> = Vec::new();
    let mut pos: usize = 0;
    let ghost mut ls: Seq<Seq<u8>> = Seq::empty();
    let mut first = true;
    assert(d@.subrange(0, d@.len() as int) =~= d@);
    loop
        invariant
            d@ == data@,
            pos <= d@.len(),
            first == (ls.len() == 0),
            rdata_labels(d@) == ls + rdata_labels(d@.subrange(pos as int, d@.len() as int)),
            out@ == dotted(ls),
        decreases d@.len() - pos,
    {
        let ghost rest = d@.subrange(pos as int, d@.len() as int);
        if pos == d.len() || d[pos] == 0 {
            assert(ls + Seq::<Seq<u8>>::empty() =~= ls);
            return out;
        }
        let n = d[pos] as usize;
        let end = if n >= d.len() - pos - 1 { d.len() } else { pos + 1 + n };
        let ghost label = d@.subrange(pos + 1, end as int);
        proof {
            assert(rest[0] == d@[pos as int]);
            if n >= d.len() - pos - 1 {
                assert(rest.subrange(1, rest.len() as int) =~= label);
                assert(rdata_labels(rest) == seq![label]);
                assert(d@.subrange(end as int, d@.len() as int) =~= Seq::<u8>::empty());
                assert(rdata_labels(Seq::<u8>::empty()) =~= Seq::<Seq<u8>>::empty());
                assert(ls + rdata_labels(rest) =~= ls.push(label) + rdata_labels(
                    d@.subrange(end as int, d@.len() as int),
                ));
            } else {
                assert(rest.subrange(1, 1 + n) =~= label);
                assert(rest.subrange(1 + n, rest.len() as int) =~= d@.subrange(
                    end as int,
                    d@.len() as int,
                ));
                assert(ls + rdata_labels(rest) =~= ls.push(label) + rdata_labels(
                    d@.subrange(end as int, d@.len() as int),
                ));
            }
        }
        if !first {
            out.push(DOT);
        }
        first = false;
        append_range(&mut out, d, pos + 1, end);
        proof {
            if ls.len() > 0 {
                lemma_joined_push(ls, label, DOT);
            }
            assert(out@ =~= dotted(ls.push(label)));
            ls = ls.push(label);
        }
        pos = end;
    }
}

/// The names that a reply's answers carry, in order: the name spelled by the
/// data of each record of type PTR and class IN.
pub open spec fn pointer_names(ans: Seq<AnswerView>) -> Seq<Seq<u8>>
    decreases ans.len(),
{
    if ans.len() == 0 {
        Seq::empty()
    } else {
        let prev = pointer_names(ans.drop_last());
        let a = ans.last();
        if a.a_type == TYPE_PTR && a.a_class == CLASS_IN {
            prev.push(rdata_name(a.data))
        } else {
            prev
        }
    }
}

/// The names of the PTR records among `answers`.
pub fn answer_names(answers: &Vec<DnsAnswer>) -> (r: Vec<Vec<u8>>)
    ensures
        views(r@) == pointer_names(answers@.map_values(|a: DnsAnswer| a@)),
{
    let ghost ans = answers@.map_values(|a: DnsAnswer| a@);
    let mut out: Vec<Vec<u8>> = Vec::new();
    let mut i: usize = 0;
    while i < answers.len()
        invariant
            ans == answers@.map_values(|a: DnsAnswer| a@),
            i <= answers@.len(),
            views(out@) == pointer_names(ans.take(i as int)),
        decreases answers@.len() - i,
    {
        let a = &answers[i];
        proof {
            assert(ans.take(i + 1).drop_last() =~= ans.take(i as int));
            assert(ans.take(i + 1).last() == a@);
        }
        if a.a_type == TYPE_PTR && a.a_class == CLASS_IN {
            let data = copy_range(a.data.as_slice(), 0, a.data.len());
            assert(a.data@.subrange(0, a.data@.len() as int) =~= a.data@);
            let name = parse_revdns_answer(data);
            out.push(name);
            assert(views(out@) =~= pointer_names(ans.take(i + 1)));
        } else {
            assert(views(out@) =~= pointer_names(ans.take(i + 1)));
        }
        i = i + 1;
    }
    assert(ans.take(answers@.len() as int) =~= ans);
    out
}

/// The addresses a reply carries, if it is a well-formed message.
pub open spec fn response_addresses(d: Seq<u8>) -> Option<Seq<Seq<u8>>> {
    match parse_packet(d) {
        Some(p) => Some(host_addresses(p.answers)),
        None => None,
    }
}

/// The names a reply carries, if it is a well-formed message.
pub open spec fn response_names(d: Seq<u8>) -> Option<Seq<Seq<u8>>> {
    match parse_packet(d) {
        Some(p) => Some(pointer_names(p.answers)),
        None => None,
    }
}

/// Reads the reply to an address lookup: the first `count` bytes of `buf`,
/// as the receive call reported them. A negative count, or one beyond the
/// buffer, is a failed receive.
pub fn host_response(count: isize, buf: &[u8]) -> (r: Result<Vec<in_addr>, LookupError>)
    ensures
        (count < 0 || count > buf@.len()) ==> r == Err::<Vec<in_addr>, LookupError>(LookupError::Receive),
        0 <= count <= buf@.len() ==> match response_addresses(buf@.subrange(0, count as int)) {
            Some(addrs) => r matches Ok(v) && addr_views(v@) == addrs,
            None => r == Err::<Vec<in_addr>, LookupError>(LookupError::Malformed),
        },
{
    if count < 0 || count as usize > buf.len() {
        return Err(LookupError::Receive);
    }
    let reply = copy_range(buf, 0, count as usize);
    match Dns::parse(reply.as_slice()) {
        Err(_) => Err(LookupError::Malformed),
        Ok(packet) => Ok(answer_addresses(&packet.answers)),
    }
}

/// Reads the reply to a reverse lookup, as `host_response` does.
pub fn addr_response(count: isize, buf: &[u8]) -> (r: Result<Vec<Vec<u8>>, LookupError>)
    ensures
        (count < 0 || count > buf@.len()) ==> r == Err::<Vec<Vec<u8>>, LookupError>(LookupError::Receive),
        0 <= count <= buf@.len() ==> match response_names(buf@.subrange(0, count as int)) {
            Some(names) => r matches Ok(v) && views(v@) == names,
            None => r == Err::<Vec<Vec<u8>>, LookupError>(LookupError::Malformed),
        },
{
    if count < 0 || count as usize > buf.len() {
        return Err(LookupError::Receive);
    }
    let reply = copy_range(buf, 0, count as usize);
    match Dns::parse(reply.as_slice()) {
        Err(_) => Err(LookupError::Malformed),
        Ok(packet) => Ok(answer_names(&packet.answers)),
    }
}

/// A query for a valid host name reads back as itself; and a reply that
/// echoes it, with any well-formed answers, yields exactly the addresses of
/// its A records of class IN with four bytes of data, in reply order.
pub proof fn lemma_host_lookup_addresses(id: u16, host: Seq<u8>, reply: DnsView)
    requires
        valid_name(host),
        wf_packet(reply),
        reply.transaction_id == id,
        reply.queries == query_packet(id, host, TYPE_A).queries,
    ensures
        parse_packet(encode_packet(query_packet(id, host, TYPE_A))) == Some(
            query_packet(id, host, TYPE_A),
        ),
        response_addresses(encode_packet(reply)) == Some(host_addresses(reply.answers)),
{
    let q = query_packet(id, host, TYPE_A);
    assert(q.queries[0] == QueryView { name: host, q_type: TYPE_A, q_class: CLASS_IN });
    assert(wf_packet(q));
    lemma_parse_encode(q);
    lemma_parse_encode(reply);
}

/// How many times `c` occurs in `s`.
pub open spec fn occurrences(s: Seq<u8>, c: u8) -> nat
    decreases s.len(),
{
    if s.len() == 0 {
        0
    } else {
        occurrences(s.drop_last(), c) + if s.last() == c {
            1nat
        } else {
            0nat
        }
    }
}

pub proof fn lemma_occurrences_concat(a: Seq<u8>, b: Seq<u8>, c: u8)
    ensures
        occurrences(a + b, c) == occurrences(a, c) + occurrences(b, c),
    decreases b.len(),
{
    if b.len() == 0 {
        assert(a + b =~= a);
    } else {
        lemma_occurrences_concat(a, b.drop_last(), c);
        assert((a + b).drop_last() =~= a + b.drop_last());
    }
}

pub proof fn lemma_occurrences_free(s: Seq<u8>, c: u8)
    requires
        free_of(s, c),
    ensures
        occurrences(s, c) == 0,
    decreases s.len(),
{
    if s.len() > 0 {
        assert(free_of(s.drop_last(), c)) by {
            assert forall|i: int| 0 <= i < s.drop_last().len() implies s.drop_last()[i] != c by {
                assert(s.drop_last()[i] == s[i]);
            }
        }
        lemma_occurrences_free(s.drop_last(), c);
        assert(s.last() == s[s.len() - 1]);
    }
}

/// Reading the wire form of labels, without a root label, gives the labels.
pub proof fn lemma_rdata_labels_wire(ls: Seq<Seq<u8>>)
    requires
        ls.len() >= 1,
        valid_labels(ls),
    ensures
        rdata_labels(wire_labels(ls)) == ls,
    decreases ls.len(),
{
    let d = wire_labels(ls);
    let l = ls[0];
    let rest = ls.drop_first();
    assert(valid_label(ls[0]));
    assert(d == seq![len_byte(l)] + l + wire_labels(rest));
    assert(d[0] as int == l.len());
    assert(d.subrange(1, 1 + l.len() as int) =~= l);
    if rest.len() == 0 {
        assert(wire_labels(rest) =~= Seq::<u8>::empty());
        assert(d.subrange(1, d.len() as int) =~= l);
        assert(ls =~= seq![l]);
    } else {
        assert(valid_labels(rest)) by {
            assert forall|i: int| 0 <= i < rest.len() implies valid_label(#[trigger] rest[i]) by {
                assert(rest[i] == ls[i + 1]);
            }
        }
        lemma_rdata_labels_wire(rest);
        assert(rest[0] == ls[1]);
        assert(valid_label(ls[1]));
        assert(wire_labels(rest).len() >= 2);
        assert(d.subrange(1 + l.len() as int, d.len() as int) =~= wire_labels(rest));
        assert(seq![l] + rest =~= ls);
    }
}

/// Joined labels are one byte shorter than their wire form, hold one dot
/// fewer than there are labels, and do not end in a dot.
pub proof fn lemma_dotted_wire_shape(ls: Seq<Seq<u8>>)
    requires
        ls.len() >= 1,
        valid_labels(ls),
        forall|i: int| 0 <= i < ls.len() ==> free_of(#[trigger] ls[i], DOT),
    ensures
        dotted(ls).len() + 1 == wire_labels(ls).len(),
        occurrences(dotted(ls), DOT) + 1 == ls.len(),
        dotted(ls).len() > 0 && dotted(ls).last() != DOT,
    decreases ls.len(),
{
    let init = ls.drop_last();
    let last = ls.last();
    assert(valid_label(ls[ls.len() - 1]));
    assert(free_of(ls[ls.len() - 1], DOT));
    assert(last[last.len() - 1] != DOT);
    lemma_occurrences_free(last, DOT);
    assert(init.push(last) =~= ls);
    lemma_wire_labels_push(init, last);
    if ls.len() == 1 {
        assert(init =~= Seq::<Seq<u8>>::empty());
        assert(wire_labels(init) =~= Seq::<u8>::empty());
    } else {
        assert(valid_labels(init) && forall|i: int| 0 <= i < init.len() ==> free_of(#[trigger] init[i], DOT)) by {
            assert forall|i: int| 0 <= i < init.len() implies valid_label(#[trigger] init[i]) && free_of(init[i], DOT) by {
                assert(init[i] == ls[i]);
            }
        }
        lemma_dotted_wire_shape(init);
        let a = dotted(init) + seq![DOT];
        assert(dotted(ls) == a + last);
        lemma_occurrences_concat(a, last, DOT);
        lemma_occurrences_concat(dotted(init), seq![DOT], DOT);
        assert(seq![DOT].drop_last() =~= Seq::<u8>::empty());
        assert(occurrences(seq![DOT], DOT) == 1) by {
            reveal_with_fuel(occurrences, 2);
            assert(seq![DOT].last() == DOT);
        }
        assert((a + last).last() == last.last());
    }
}

/// For the data of a pointer record made of k >= 1 labels of 1 to 63 bytes
/// without dots, `parse_revdns_answer` gives the labels joined by dots: one
/// byte shorter than the data, with k - 1 dots and no dot at the end.
pub proof fn lemma_revdns_wire(ls: Seq<Seq<u8>>)
    requires
        ls.len() >= 1,
        valid_labels(ls),
        forall|i: int| 0 <= i < ls.len() ==> free_of(#[trigger] ls[i], DOT),
    ensures
        rdata_name(wire_labels(ls)) == dotted(ls),
        rdata_name(wire_labels(ls)).len() + 1 == wire_labels(ls).len(),
        occurrences(rdata_name(wire_labels(ls)), DOT) + 1 == ls.len(),
        rdata_name(wire_labels(ls)).last() != DOT,
{
    lemma_rdata_labels_wire(ls);
    lemma_dotted_wire_shape(ls);
}

} // verus!
