//! Dotted host names and their wire form as length-prefixed labels.

use vstd::prelude::*;

use crate::bytes::{append_range, views};

verus! {

pub const DOT: u8 = 0x2e;

/// The longest label a name may hold.
pub const MAX_LABEL: usize = 63;

/// The pieces of `s` between occurrences of `sep`, read left to right: a
/// separator starts a new (possibly empty) piece, any other byte extends the
/// last one.
pub open spec fn split_on(s: Seq<u8>, sep: u8) -> Seq<Seq<u8>>
    decreases s.len(),
{
    if s.len() == 0 {
        seq![Seq::<u8>::empty()]
    } else {
        let prev = split_on(s.drop_last(), sep);
        if s.last() == sep {
            prev.push(Seq::<u8>::empty())
        } else {
            prev.drop_last().push(prev.last().push(s.last()))
        }
    }
}

/// The labels of a name, split at every dot.
pub open spec fn split_dots(s: Seq<u8>) -> Seq<Seq<u8>> {
    split_on(s, DOT)
}

/// The pieces joined by `sep`.
pub open spec fn joined(ls: Seq<Seq<u8>>, sep: u8) -> Seq<u8>
    decreases ls.len(),
{
    if ls.len() == 0 {
        Seq::empty()
    } else if ls.len() == 1 {
        ls[0]
    } else {
        joined(ls.drop_last(), sep) + seq![sep] + ls.last()
    }
}

/// The labels joined by dots.
pub open spec fn dotted(ls: Seq<Seq<u8>>) -> Seq<u8> {
    joined(ls, DOT)
}

/// The length byte of a label.
pub open spec fn len_byte(l: Seq<u8>) -> u8 {
    (l.len() % 256) as u8
}

/// Each label prefixed by its length byte.
pub open spec fn wire_labels(ls: Seq<Seq<u8>>) -> Seq<u8>
    decreases ls.len(),
{
    if ls.len() == 0 {
        Seq::empty()
    } else {
        seq![len_byte(ls[0])] + ls[0] + wire_labels(ls.drop_first())
    }
}

pub open spec fn valid_label(l: Seq<u8>) -> bool {
    1 <= l.len() <= MAX_LABEL
}

pub open spec fn valid_labels(ls: Seq<Seq<u8>>) -> bool {
    forall|i: int| 0 <= i < ls.len() ==> valid_label(#[trigger] ls[i])
}

/// A name that can be sent in a query: every dot-separated label holds
/// between 1 and 63 bytes.
pub open spec fn valid_name(name: Seq<u8>) -> bool {
    valid_labels(split_dots(name))
}

/// The wire form of a name: its labels, then the zero-length root label.
pub open spec fn encode_name(name: Seq<u8>) -> Seq<u8> {
    wire_labels(split_dots(name)) + seq![0u8]
}

pub proof fn lemma_split_on_nonempty(s: Seq<u8>, sep: u8)
    ensures
        split_on(s, sep).len() >= 1,
    decreases s.len(),
{
    if s.len() > 0 {
        lemma_split_on_nonempty(s.drop_last(), sep);
    }
}

/// Joining the labels of a name gives the name back.
pub proof fn lemma_dotted_split(s: Seq<u8>)
    ensures
        dotted(split_dots(s)) == s,
{
    lemma_joined_split(s, DOT);
}

/// Joining the pieces of `s` gives `s` back.
pub proof fn lemma_joined_split(s: Seq<u8>, sep: u8)
    ensures
        joined(split_on(s, sep), sep) == s,
    decreases s.len(),
{
    if s.len() > 0 {
        let prev = split_on(s.drop_last(), sep);
        lemma_joined_split(s.drop_last(), sep);
        lemma_split_on_nonempty(s.drop_last(), sep);
        if s.last() == sep {
            let ls = prev.push(Seq::<u8>::empty());
            assert(ls.drop_last() =~= prev);
            assert(joined(ls, sep) =~= s);
        } else {
            let ls = prev.drop_last().push(prev.last().push(s.last()));
            assert(ls.drop_last() =~= prev.drop_last());
            assert(s =~= s.drop_last().push(s.last()));
            if prev.len() == 1 {
                assert(ls.len() == 1);
                assert(ls[0] == prev[0].push(s.last()));
                assert(joined(ls, sep) =~= s);
            } else {
                assert(joined(prev, sep) == joined(prev.drop_last(), sep) + seq![sep] + prev.last());
                assert(joined(ls, sep) =~= s);
            }
        }
    }
}

pub proof fn lemma_wire_labels_push(ls: Seq<Seq<u8>>, l: Seq<u8>)
    ensures
        wire_labels(ls.push(l)) == wire_labels(ls) + seq![len_byte(l)] + l,
    decreases ls.len(),
{
    if ls.len() == 0 {
        assert(ls.push(l).drop_first() =~= Seq::<Seq<u8>>::empty());
        assert(wire_labels(ls.push(l).drop_first()) =~= Seq::<u8>::empty());
        assert(ls.push(l)[0] == l);
        assert(wire_labels(ls.push(l)) =~= wire_labels(ls) + seq![len_byte(l)] + l);
    } else {
        assert(ls.push(l).drop_first() =~= ls.drop_first().push(l));
        lemma_wire_labels_push(ls.drop_first(), l);
        assert(wire_labels(ls.push(l)) =~= wire_labels(ls) + seq![len_byte(l)] + l);
    }
}

/// `s` holds no `sep`.
pub open spec fn free_of(s: Seq<u8>, sep: u8) -> bool {
    forall|i: int| 0 <= i < s.len() ==> s[i] != sep
}

pub proof fn lemma_split_free(b: Seq<u8>, sep: u8)
    requires
        free_of(b, sep),
    ensures
        split_on(b, sep) == seq![b],
    decreases b.len(),
{
    if b.len() > 0 {
        lemma_split_free(b.drop_last(), sep);
        assert(b.drop_last().push(b.last()) =~= b);
        assert(seq![b.drop_last()].drop_last().push(b.drop_last().push(b.last())) =~= seq![b]);
    } else {
        assert(b =~= Seq::<u8>::empty());
    }
}

pub proof fn lemma_split_append_piece(a: Seq<u8>, b: Seq<u8>, sep: u8)
    requires
        free_of(b, sep),
    ensures
        split_on(a + seq![sep] + b, sep) == split_on(a, sep).push(b),
    decreases b.len(),
{
    let s = a + seq![sep] + b;
    if b.len() == 0 {
        assert(s.drop_last() =~= a);
        assert(b =~= Seq::<u8>::empty());
    } else {
        let b1 = b.drop_last();
        lemma_split_append_piece(a, b1, sep);
        assert(s.drop_last() =~= a + seq![sep] + b1);
        assert(s.last() == b.last());
        let prev = split_on(a, sep).push(b1);
        assert(b1.push(b.last()) =~= b);
        assert(prev.drop_last() =~= split_on(a, sep));
        assert(prev.last() == b1);
        assert(b.last() == b[b.len() - 1]);
        assert(b.last() != sep);
        assert(prev.drop_last().push(prev.last().push(b.last())) =~= split_on(a, sep).push(b));
    }
}

/// Splitting pieces that hold no separator, joined by it, gives the pieces
/// back.
pub proof fn lemma_split_joined(ls: Seq<Seq<u8>>, sep: u8)
    requires
        ls.len() >= 1,
        forall|i: int| 0 <= i < ls.len() ==> free_of(#[trigger] ls[i], sep),
    ensures
        split_on(joined(ls, sep), sep) == ls,
    decreases ls.len(),
{
    if ls.len() == 1 {
        lemma_split_free(ls[0], sep);
        assert(seq![ls[0]] =~= ls);
    } else {
        let init = ls.drop_last();
        assert forall|i: int| 0 <= i < init.len() implies free_of(#[trigger] init[i], sep) by {
            assert(init[i] == ls[i]);
        }
        lemma_split_joined(init, sep);
        assert(free_of(ls[ls.len() - 1], sep));
        lemma_split_append_piece(joined(init, sep), ls.last(), sep);
        assert(init.push(ls.last()) =~= ls);
    }
}

/// The pieces of `name` between occurrences of `sep`.
pub fn split_bytes(name: &[u8], sep: u8) -> (r: Vec<Vec<u8>>)
    ensures
        views(r@) == split_on(name@, sep),
{
    let mut done: Vec<Vec<u8>> = Vec::new();
    let mut cur: Vec<u8> = Vec::new();
    let mut i: usize = 0;
    while i < name.len()
        invariant
            i <= name@.len(),
            views(done@).push(cur@) == split_on(name@.subrange(0, i as int), sep),
        decreases name@.len() - i,
    {
        let c = name[i];
        proof {
            assert(name@.subrange(0, i + 1).drop_last() =~= name@.subrange(0, i as int));
        }
        if c == sep {
            let old_cur = cur;
            cur = Vec::new();
            done.push(old_cur);
            assert(views(done@).push(cur@) =~= split_on(name@.subrange(0, i + 1), sep));
        } else {
            cur.push(c);
            assert(views(done@).push(cur@) =~= split_on(name@.subrange(0, i + 1), sep));
        }
        i = i + 1;
    }
    done.push(cur);
    assert(name@.subrange(0, name@.len() as int) =~= name@);
    assert(views(done@) =~= split_on(name@, sep));
    done
}

/// Whether `name` can be sent in a query.
pub fn is_valid_name(name: &[u8]) -> (r: bool)
    ensures
        r == valid_name(name@),
{
    let labels = split_bytes(name, DOT);
    let mut i: usize = 0;
    while i < labels.len()
        invariant
            i <= labels@.len(),
            views(labels@) == split_dots(name@),
            forall|j: int| 0 <= j < i ==> valid_label(#[trigger] split_dots(name@)[j]),
        decreases labels@.len() - i,
    {
        assert(labels@[i as int]@ == split_dots(name@)[i as int]);
        let n = labels[i].len();
        if n == 0 || n > MAX_LABEL {
            return false;
        }
        i = i + 1;
    }
    true
}

/// Appends the wire form of a valid name.
pub fn push_name(out: &mut Vec<u8>, name: &[u8])
    requires
        valid_name(name@),
    ensures
        final(out)@ == old(out)@ + encode_name(name@),
{
    let labels = split_bytes(name, DOT);
    let ghost ls = split_dots(name@);
    let mut i: usize = 0;
    while i < labels.len()
        invariant
            i <= labels@.len(),
            views(labels@) == ls,
            valid_labels(ls),
            out@ == old(out)@ + wire_labels(ls.take(i as int)),
        decreases labels@.len() - i,
    {
        let label = &labels[i];
        assert(label@ == ls[i as int]);
        assert(valid_label(ls[i as int]));
        out.push(label.len() as u8);
        append_range(out, label.as_slice(), 0, label.len());
        proof {
            assert(label@.subrange(0, label@.len() as int) =~= label@);
            assert(ls.take(i + 1) =~= ls.take(i as int).push(ls[i as int]));
            lemma_wire_labels_push(ls.take(i as int), ls[i as int]);
        }
        i = i + 1;
        assert(out@ =~= old(out)@ + wire_labels(ls.take(i as int)));
    }
    out.push(0u8);
    assert(ls.take(labels@.len() as int) =~= ls);
    assert(out@ =~= old(out)@ + encode_name(name@));
}

} // verus!
