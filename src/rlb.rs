//! A line reader over a descriptor. The reader never reads by itself: when
//! it needs more input it says how much to read, and the caller hands back
//! what one read call returned.

use vstd::prelude::*;

use crate::bytes::{append_range, copy_range};
use crate::name::free_of;
use crate::text::has_prefix;
use crate::types::c_int;

verus! {

pub const NEWLINE: u8 = 0x0a;

/// How many bytes to ask for in one read.
pub const READ_CHUNK: usize = 1024;

/// One outcome of reading a line.
pub enum Line {
    /// The read call failed.
    Error,
    /// The input is exhausted.
    EOF,
    /// The bytes of one line, without its terminator.
    Text(Vec<u8>),
}

/// What `next` gives its caller.
pub enum Next {
    /// The bytes of one line, without its terminator.
    Text(Vec<u8>),
    /// The input is exhausted.
    EOF,
    /// Read up to this many bytes from the descriptor and hand the outcome
    /// to `fill`.
    Read(usize),
}

pub proof fn lemma_line_at_extend(r: Seq<u8>, m: Seq<u8>)
    requires
        !free_of(r, NEWLINE),
    ensures
        line_at(r + m) == line_at(r),
        !free_of(r + m, NEWLINE),
    decreases r.len(),
{
    let k = choose|k: int| 0 <= k < r.len() && r[k] == NEWLINE;
    assert((r + m)[k] == NEWLINE);
    if r[0] != NEWLINE {
        let t = r.drop_first();
        assert(t[k - 1] == NEWLINE);
        lemma_line_at_extend(t, m);
        assert((r + m).drop_first() =~= t + m);
    }
}

/// How a read is split does not change the lines: once a line feed is
/// buffered, reading more input leaves the line the next call hands out, and
/// the bytes it consumes, as they were. Together with `next`, which hands out
/// nothing while no line feed is buffered and input remains, the lines a
/// reader yields depend only on the bytes read, not on how the reads split
/// them.
pub proof fn lemma_more_input_keeps_line(v: LineBufferView, m: Seq<u8>)
    requires
        v.valid(),
        !free_of(v.rest(), NEWLINE),
    ensures
        ({
            let w = LineBufferView { input: v.input + m, ..v };
            &&& w.has_line()
            &&& line_at(w.rest()) == line_at(v.rest())
            &&& w.line_len() == v.line_len()
        }),
{
    let w = LineBufferView { input: v.input + m, ..v };
    assert(w.rest() =~= v.rest() + m);
    lemma_line_at_extend(v.rest(), m);
}

/// A line reader: the bytes read so far that no call has consumed yet,
/// and where the last line handed out ends.
pub struct RawLineBuffer {
    pub fd: c_int,
    buf: Vec<u8>,
    consumed: usize,
    read: usize,
    eof: bool,
    input: Ghost<Seq<u8>>,
}

pub struct LineBufferView {
    pub fd: c_int,
    /// Every byte read so far, in order.
    pub input: Seq<u8>,
    /// Where the bytes not yet dropped begin in `input`.
    pub start: nat,
    /// How many of those bytes the next call drops: the last line handed
    /// out and its terminator.
    pub consumed: nat,
    /// Whether a read has reported the end of input.
    pub eof: bool,
}

impl LineBufferView {
    /// The bytes not yet dropped.
    pub open spec fn pending(&self) -> Seq<u8> {
        self.input.subrange(self.start as int, self.input.len() as int)
    }

    /// The bytes that remain once the last line handed out is dropped.
    pub open spec fn rest(&self) -> Seq<u8> {
        self.input.subrange((self.start + self.consumed) as int, self.input.len() as int)
    }

    /// The line last handed out lies within the input.
    pub open spec fn valid(&self) -> bool {
        self.start + self.consumed <= self.input.len()
    }

    /// How many bytes the next call consumes when it hands out a line: the
    /// line and its terminator, or the unterminated remainder.
    pub open spec fn line_len(&self) -> nat {
        if free_of(self.rest(), NEWLINE) {
            line_at(self.rest()).len()
        } else {
            line_at(self.rest()).len() + 1
        }
    }

    /// Whether the next call hands out a line: a line feed is buffered, or
    /// the input is exhausted with bytes left over.
    pub open spec fn has_line(&self) -> bool {
        !free_of(self.rest(), NEWLINE) || (self.eof && self.rest().len() > 0)
    }
}

/// The bytes of `s` before its first line feed (all of `s` if it has none).
pub open spec fn line_at(s: Seq<u8>) -> Seq<u8>
    decreases s.len(),
{
    if s.len() == 0 || s[0] == NEWLINE {
        Seq::empty()
    } else {
        seq![s[0]] + line_at(s.drop_first())
    }
}

pub proof fn lemma_line_at_prefix(s: Seq<u8>, i: int)
    requires
        0 <= i <= s.len(),
        free_of(s.subrange(0, i), NEWLINE),
    ensures
        line_at(s) == s.subrange(0, i) + line_at(s.subrange(i, s.len() as int)),
    decreases i,
{
    if i > 0 {
        let t = s.drop_first();
        assert(s.subrange(0, i)[0] == s[0]);
        assert(free_of(t.subrange(0, i - 1), NEWLINE)) by {
            assert forall|k: int| 0 <= k < i - 1 implies #[trigger] t.subrange(0, i - 1)[k] != NEWLINE by {
                assert(t.subrange(0, i - 1)[k] == s.subrange(0, i)[k + 1]);
            }
        }
        lemma_line_at_prefix(t, i - 1);
        assert(t.subrange(i - 1, t.len() as int) =~= s.subrange(i, s.len() as int));
        assert(seq![s[0]] + t.subrange(0, i - 1) =~= s.subrange(0, i));
    } else {
        assert(s.subrange(0, 0) + line_at(s) =~= line_at(s));
        assert(s.subrange(0, s.len() as int) =~= s);
    }
}

impl View for RawLineBuffer {
    type V = LineBufferView;

    closed spec fn view(&self) -> LineBufferView {
        LineBufferView {
            fd: self.fd,
            input: self.input@,
            start: (self.read - self.buf@.len()) as nat,
            consumed: self.consumed as nat,
            eof: self.eof,
        }
    }
}

impl RawLineBuffer {
    pub closed spec fn wf(&self) -> bool {
        &&& self.read == self.input@.len()
        &&& self.buf@.len() <= self.read
        &&& self.buf@ == self.input@.subrange(self.read - self.buf@.len(), self.read as int)
        &&& self.consumed <= self.buf@.len()
    }

    /// The view of a well-formed reader is valid.
    pub proof fn lemma_view_valid(&self)
        requires
            self.wf(),
        ensures
            self@.valid(),
    {
    }

    /// A reader at the start of `fd`, with nothing read yet.
    pub fn new(fd: c_int) -> (r: Self)
        ensures
            r.wf(),
            r@.fd == fd,
            r@.input == Seq::<u8>::empty(),
            r@.start == 0,
            r@.consumed == 0,
            !r@.eof,
    {
        let r = RawLineBuffer {
            fd,
            buf: Vec::new(),
            consumed: 0,
            read: 0,
            eof: false,
            input: Ghost(Seq::empty()),
        };
        assert(r.buf@ =~= r.input@.subrange(0, 0));
        r
    }

    /// The position in the input where the last line handed out starts.
    pub fn line_pos(&self) -> (r: usize)
        requires
            self.wf(),
        ensures
            r == self@.start,
    {
        self.read - self.buf.len()
    }

    /// Drops the last line handed out, then hands out the next line if one
    /// is complete: the bytes up to the first line feed. Once the input is
    /// exhausted, what is left without a terminator is the last line, and
    /// then the end of input. Otherwise asks for a read.
    pub fn next(&mut self) -> (r: Next)
        requires
            old(self).wf(),
        ensures
            final(self).wf(),
            final(self)@.fd == old(self)@.fd,
            final(self)@.input == old(self)@.input,
            final(self)@.eof == old(self)@.eof,
            final(self)@.start == old(self)@.start + old(self)@.consumed,
            old(self)@.has_line() ==> (r matches Next::Text(l) && l@ == line_at(
                old(self)@.rest(),
            ) && final(self)@.consumed == old(self)@.line_len()),
            !free_of(old(self)@.rest(), NEWLINE) ==> (r matches Next::Text(l)
                && free_of(l@, NEWLINE) && has_prefix(old(self)@.rest(), l@.push(NEWLINE))
                && final(self)@.consumed == l@.len() + 1),
            free_of(old(self)@.rest(), NEWLINE) && old(self)@.eof && old(self)@.rest().len() > 0
                ==> (r matches Next::Text(l) && l@ == old(self)@.rest()
                && final(self)@.consumed == l@.len()),
            free_of(old(self)@.rest(), NEWLINE) && old(self)@.eof && old(self)@.rest().len() == 0
                ==> (r matches Next::EOF && final(self)@.consumed == 0),
            free_of(old(self)@.rest(), NEWLINE) && !old(self)@.eof ==> (r == Next::Read(READ_CHUNK)
                && final(self)@.consumed == 0),
    {
        let ghost start0 = (self.read - self.buf@.len()) as int;
        let ghost input = self.input@;
        if self.consumed > 0 {
            let rest = copy_range(self.buf.as_slice(), self.consumed, self.buf.len());
            self.buf = rest;
            self.consumed = 0;
        }
        proof {
            assert(self.buf@ =~= input.subrange(self.read - self.buf@.len(), self.read as int));
        }
        let mut i: usize = 0;
        while i < self.buf.len()
            invariant
                self.wf(),
                self.consumed == 0,
                self@.fd == old(self)@.fd,
                self@.input == old(self)@.input,
                self@.eof == old(self)@.eof,
                self@.start == old(self)@.start + old(self)@.consumed,
                self.buf@ == old(self)@.rest(),
                i <= self.buf@.len(),
                forall|k: int| 0 <= k < i ==> self.buf@[k] != NEWLINE,
            decreases self.buf@.len() - i,
        {
            if self.buf[i] == NEWLINE {
                proof {
                    lemma_line_at_prefix(self.buf@, i as int);
                    assert(self.buf@.subrange(0, i as int) + Seq::<u8>::empty() =~= self.buf@.subrange(0, i as int));
                }
                let line = copy_range(self.buf.as_slice(), 0, i);
                self.consumed = i + 1;
                assert(self.buf@.subrange(0, i + 1) =~= line@.push(NEWLINE));
                return Next::Text(line);
            }
            i = i + 1;
        }
        proof {
            assert(self.buf@.subrange(0, self.buf@.len() as int) =~= self.buf@);
            lemma_line_at_prefix(self.buf@, self.buf@.len() as int);
            assert(self.buf@.subrange(self.buf@.len() as int, self.buf@.len() as int) =~= Seq::<u8>::empty());
            assert(self.buf@ + Seq::<u8>::empty() =~= self.buf@);
        }
        if self.eof {
            if self.buf.len() > 0 {
                let line = copy_range(self.buf.as_slice(), 0, self.buf.len());
                self.consumed = self.buf.len();
                assert(line@ =~= self.buf@);
                return Next::Text(line);
            }
            return Next::EOF;
        }
        Next::Read(READ_CHUNK)
    }

    /// Takes the outcome of one read call: `count` bytes at the front of
    /// `data`, none at the end of input, or a failure when negative. A
    /// failure is reported as `Line::Error` and changes nothing.
    pub fn fill(&mut self, count: isize, data: &[u8]) -> (r: Option<Line>)
        requires
            old(self).wf(),
            count <= data@.len(),
            old(self)@.input.len() + data@.len() <= usize::MAX,
        ensures
            final(self).wf(),
            final(self)@.fd == old(self)@.fd,
            final(self)@.start == old(self)@.start,
            final(self)@.consumed == old(self)@.consumed,
            count < 0 ==> (r matches Some(Line::Error) && final(self)@ == old(self)@),
            count == 0 ==> r is None && final(self)@.input == old(self)@.input && final(self)@.eof,
            count > 0 ==> r is None && final(self)@.eof == old(self)@.eof && final(self)@.input
                == old(self)@.input + data@.subrange(0, count as int),
    {
        if count < 0 {
            return Some(Line::Error);
        }
        if count == 0 {
            self.eof = true;
            return None;
        }
        let n = count as usize;
        let ghost old_buf = self.buf@;
        append_range(&mut self.buf, data, 0, n);
        self.read = self.read + n;
        self.input = Ghost(self.input@ + data@.subrange(0, n as int));
        assert(self.buf@ =~= self.input@.subrange(self.read - self.buf@.len(), self.read as int));
        None
    }
}

} // verus!
