//! DNS messages: the query this resolver sends and the response it reads.

use vstd::prelude::*;

use crate::bytes::{
    append_range, lemma_read16_be16, lemma_read32_be32, be16, be32, copy_range, get_u16, get_u32, push_u16, push_u32, read16, read32,
};
use crate::name::{
    dotted, encode_name, lemma_dotted_split, len_byte, push_name, split_dots, valid_label,
    valid_labels, valid_name, wire_labels, DOT,
};

verus! {

/// Record type of an IPv4 address.
pub const TYPE_A: u16 = 1;

/// Record type of a domain-name pointer.
pub const TYPE_PTR: u16 = 12;

/// The Internet class.
pub const CLASS_IN: u16 = 1;

/// Standard query, recursion desired.
pub const FLAGS_QUERY: u16 = 0x0100;

/// Bytes in a message header.
pub const HEADER_LEN: usize = 12;

/// One entry of the question section.
pub struct DnsQuery {
    /// The dotted name asked about.
    pub name: Vec<u8>,
    pub q_type: u16,
    pub q_class: u16,
}

/// One resource record of the answer section.
pub struct DnsAnswer {
    /// The owner name exactly as it stands on the wire (labels, ended by the
    /// root label or by a compression pointer).
    pub name: Vec<u8>,
    pub a_type: u16,
    pub a_class: u16,
    pub ttl: u32,
    /// The record data, verbatim.
    pub data: Vec<u8>,
}

/// A message: header fields, questions and answers.
pub struct Dns {
    pub transaction_id: u16,
    pub flags: u16,
    pub queries: Vec<DnsQuery>,
    pub answers: Vec<DnsAnswer>,
}

pub struct QueryView {
    pub name: Seq<u8>,
    pub q_type: u16,
    pub q_class: u16,
}

pub struct AnswerView {
    pub name: Seq<u8>,
    pub a_type: u16,
    pub a_class: u16,
    pub ttl: u32,
    pub data: Seq<u8>,
}

pub struct DnsView {
    pub transaction_id: u16,
    pub flags: u16,
    pub queries: Seq<QueryView>,
    pub answers: Seq<AnswerView>,
}

impl View for DnsQuery {
    type V = QueryView;

    open spec fn view(&self) -> QueryView {
        QueryView { name: self.name@, q_type: self.q_type, q_class: self.q_class }
    }
}

impl View for DnsAnswer {
    type V = AnswerView;

    open spec fn view(&self) -> AnswerView {
        AnswerView {
            name: self.name@,
            a_type: self.a_type,
            a_class: self.a_class,
            ttl: self.ttl,
            data: self.data@,
        }
    }
}

impl View for Dns {
    type V = DnsView;

    open spec fn view(&self) -> DnsView {
        DnsView {
            transaction_id: self.transaction_id,
            flags: self.flags,
            queries: self.queries@.map_values(|q: DnsQuery| q@),
            answers: self.answers@.map_values(|a: DnsAnswer| a@),
        }
    }
}

// ----- the wire format, read -----

/// The labels of an uncompressed name starting at `pos`, and the position
/// after its root label.
pub open spec fn parse_labels(d: Seq<u8>, pos: int) -> Option<(Seq<Seq<u8>>, int)>
    decreases d.len() - pos,
{
    if pos < 0 || pos >= d.len() {
        None
    } else {
        let n = d[pos] as int;
        if n == 0 {
            Some((Seq::empty(), pos + 1))
        } else if n >= 64 || pos + 1 + n > d.len() {
            None
        } else {
            match parse_labels(d, pos + 1 + n) {
                Some((rest, end)) => Some((seq![d.subrange(pos + 1, pos + 1 + n)] + rest, end)),
                None => None,
            }
        }
    }
}

/// The position after a possibly compressed name starting at `pos`: labels
/// up to the root label, or up to a two-byte compression pointer.
pub open spec fn skip_name(d: Seq<u8>, pos: int) -> Option<int>
    decreases d.len() - pos,
{
    if pos < 0 || pos >= d.len() {
        None
    } else {
        let n = d[pos] as int;
        if n == 0 {
            Some(pos + 1)
        } else if n >= 0xc0 {
            if pos + 2 <= d.len() {
                Some(pos + 2)
            } else {
                None
            }
        } else if n >= 64 || pos + 1 + n > d.len() {
            None
        } else {
            skip_name(d, pos + 1 + n)
        }
    }
}

pub open spec fn parse_query(d: Seq<u8>, pos: int) -> Option<(QueryView, int)> {
    match parse_labels(d, pos) {
        Some((ls, p)) => if p + 4 <= d.len() {
            Some((QueryView { name: dotted(ls), q_type: read16(d, p), q_class: read16(d, p + 2) }, p + 4))
        } else {
            None
        },
        None => None,
    }
}

pub open spec fn parse_queries(d: Seq<u8>, pos: int, n: nat) -> Option<(Seq<QueryView>, int)>
    decreases n,
{
    if n == 0 {
        Some((Seq::empty(), pos))
    } else {
        match parse_query(d, pos) {
            Some((q, p)) => match parse_queries(d, p, (n - 1) as nat) {
                Some((qs, end)) => Some((seq![q] + qs, end)),
                None => None,
            },
            None => None,
        }
    }
}

pub open spec fn parse_answer(d: Seq<u8>, pos: int) -> Option<(AnswerView, int)> {
    match skip_name(d, pos) {
        Some(p) => if p + 10 <= d.len() && p + 10 + read16(d, p + 8) <= d.len() {
            let len = read16(d, p + 8) as int;
            Some((AnswerView {
                name: d.subrange(pos, p),
                a_type: read16(d, p),
                a_class: read16(d, p + 2),
                ttl: read32(d, p + 4),
                data: d.subrange(p + 10, p + 10 + len),
            }, p + 10 + len))
        } else {
            None
        },
        None => None,
    }
}

pub open spec fn parse_answers(d: Seq<u8>, pos: int, n: nat) -> Option<(Seq<AnswerView>, int)>
    decreases n,
{
    if n == 0 {
        Some((Seq::empty(), pos))
    } else {
        match parse_answer(d, pos) {
            Some((a, p)) => match parse_answers(d, p, (n - 1) as nat) {
                Some((rest, end)) => Some((seq![a] + rest, end)),
                None => None,
            },
            None => None,
        }
    }
}

/// The message that `d` holds: the header, then as many questions and
/// answers as the header counts. The authority and additional sections,
/// and anything after them, are not read.
pub open spec fn parse_packet(d: Seq<u8>) -> Option<DnsView> {
    if d.len() < HEADER_LEN {
        None
    } else {
        match parse_queries(d, HEADER_LEN as int, read16(d, 4) as nat) {
            Some((qs, p)) => match parse_answers(d, p, read16(d, 6) as nat) {
                Some((ans, _end)) => Some(
                    DnsView { transaction_id: read16(d, 0), flags: read16(d, 2), queries: qs, answers: ans },
                ),
                None => None,
            },
            None => None,
        }
    }
}


pub open spec fn after_queries(
    qs: Seq<QueryView>,
    r: Option<(Seq<QueryView>, int)>,
) -> Option<(Seq<QueryView>, int)> {
    match r {
        Some((rest, end)) => Some((qs + rest, end)),
        None => None,
    }
}

pub open spec fn after_answers(
    ans: Seq<AnswerView>,
    r: Option<(Seq<AnswerView>, int)>,
) -> Option<(Seq<AnswerView>, int)> {
    match r {
        Some((rest, end)) => Some((ans + rest, end)),
        None => None,
    }
}

// ----- the wire format, written -----

pub open spec fn encode_query(q: QueryView) -> Seq<u8> {
    encode_name(q.name) + be16(q.q_type) + be16(q.q_class)
}

pub open spec fn encode_queries(qs: Seq<QueryView>) -> Seq<u8>
    decreases qs.len(),
{
    if qs.len() == 0 {
        Seq::empty()
    } else {
        encode_query(qs[0]) + encode_queries(qs.drop_first())
    }
}

pub open spec fn encode_answer(a: AnswerView) -> Seq<u8> {
    a.name + be16(a.a_type) + be16(a.a_class) + be32(a.ttl) + be16(a.data.len() as u16) + a.data
}

pub open spec fn encode_answers(ans: Seq<AnswerView>) -> Seq<u8>
    decreases ans.len(),
{
    if ans.len() == 0 {
        Seq::empty()
    } else {
        encode_answer(ans[0]) + encode_answers(ans.drop_first())
    }
}

/// The bytes of a message: the header (with empty authority and additional
/// sections), the questions, the answers.
pub open spec fn encode_packet(p: DnsView) -> Seq<u8> {
    be16(p.transaction_id) + be16(p.flags) + be16(p.queries.len() as u16) + be16(
        p.answers.len() as u16,
    ) + be16(0) + be16(0) + encode_queries(p.queries) + encode_answers(p.answers)
}

/// An owner name as it may stand on the wire: it ends exactly where
/// `skip_name` stops.
pub open spec fn wire_name(name: Seq<u8>) -> bool {
    skip_name(name, 0) == Some(name.len() as int)
}

pub open spec fn wf_answer(a: AnswerView) -> bool {
    wire_name(a.name) && a.data.len() <= u16::MAX
}

/// A message that can be written: the counts fit the header, every question
/// names a valid name and every answer a well-formed owner name.
pub open spec fn wf_packet(p: DnsView) -> bool {
    &&& p.queries.len() <= u16::MAX
    &&& p.answers.len() <= u16::MAX
    &&& forall|i: int| 0 <= i < p.queries.len() ==> valid_name(#[trigger] p.queries[i].name)
    &&& forall|i: int| 0 <= i < p.answers.len() ==> wf_answer(#[trigger] p.answers[i])
}

pub proof fn lemma_encode_queries_push(qs: Seq<QueryView>, q: QueryView)
    ensures
        encode_queries(qs.push(q)) == encode_queries(qs) + encode_query(q),
    decreases qs.len(),
{
    assert(qs.push(q)[0] == if qs.len() == 0 { q } else { qs[0] });
    if qs.len() == 0 {
        assert(qs.push(q).drop_first() =~= Seq::<QueryView>::empty());
        assert(encode_queries(qs.push(q).drop_first()) =~= Seq::<u8>::empty());
        assert(encode_queries(qs.push(q)) =~= encode_queries(qs) + encode_query(q));
    } else {
        assert(qs.push(q).drop_first() =~= qs.drop_first().push(q));
        lemma_encode_queries_push(qs.drop_first(), q);
        assert(encode_queries(qs.push(q)) =~= encode_queries(qs) + encode_query(q));
    }
}

pub proof fn lemma_encode_answers_push(ans: Seq<AnswerView>, a: AnswerView)
    ensures
        encode_answers(ans.push(a)) == encode_answers(ans) + encode_answer(a),
    decreases ans.len(),
{
    assert(ans.push(a)[0] == if ans.len() == 0 { a } else { ans[0] });
    if ans.len() == 0 {
        assert(ans.push(a).drop_first() =~= Seq::<AnswerView>::empty());
        assert(encode_answers(ans.push(a).drop_first()) =~= Seq::<u8>::empty());
        assert(encode_answers(ans.push(a)) =~= encode_answers(ans) + encode_answer(a));
    } else {
        assert(ans.push(a).drop_first() =~= ans.drop_first().push(a));
        lemma_encode_answers_push(ans.drop_first(), a);
        assert(encode_answers(ans.push(a)) =~= encode_answers(ans) + encode_answer(a));
    }
}

impl Dns {
    pub open spec fn wf(&self) -> bool {
        wf_packet(self@)
    }

    /// The bytes of this message.
    pub fn compile(&self) -> (r: Vec<u8>)
        requires
            self.wf(),
        ensures
            r@ == encode_packet(self@),
    {
        let mut out: Vec<u8> = Vec::new();
        push_u16(&mut out, self.transaction_id);
        push_u16(&mut out, self.flags);
        push_u16(&mut out, self.queries.len() as u16);
        push_u16(&mut out, self.answers.len() as u16);
        push_u16(&mut out, 0);
        push_u16(&mut out, 0);
        let ghost header = out@;
        let ghost qs = self@.queries;
        let ghost ans = self@.answers;
        let mut i: usize = 0;
        while i < self.queries.len()
            invariant
                self.wf(),
                qs == self@.queries,
                i <= self.queries@.len(),
                out@ == header + encode_queries(qs.take(i as int)),
            decreases self.queries@.len() - i,
        {
            let q = &self.queries[i];
            assert(qs[i as int] == q@);
            assert(valid_name(qs[i as int].name));
            push_name(&mut out, q.name.as_slice());
            push_u16(&mut out, q.q_type);
            push_u16(&mut out, q.q_class);
            proof {
                assert(qs.take(i + 1) =~= qs.take(i as int).push(q@));
                lemma_encode_queries_push(qs.take(i as int), q@);
            }
            i = i + 1;
            assert(out@ =~= header + encode_queries(qs.take(i as int)));
        }
        assert(qs.take(self.queries@.len() as int) =~= qs);
        let ghost with_queries = out@;
        let mut j: usize = 0;
        while j < self.answers.len()
            invariant
                self.wf(),
                ans == self@.answers,
                j <= self.answers@.len(),
                out@ == with_queries + encode_answers(ans.take(j as int)),
            decreases self.answers@.len() - j,
        {
            let a = &self.answers[j];
            assert(ans[j as int] == a@);
            assert(wf_answer(ans[j as int]));
            append_range(&mut out, a.name.as_slice(), 0, a.name.len());
            push_u16(&mut out, a.a_type);
            push_u16(&mut out, a.a_class);
            push_u32(&mut out, a.ttl);
            push_u16(&mut out, a.data.len() as u16);
            append_range(&mut out, a.data.as_slice(), 0, a.data.len());
            proof {
                assert(a.name@.subrange(0, a.name@.len() as int) =~= a.name@);
                assert(a.data@.subrange(0, a.data@.len() as int) =~= a.data@);
                assert(ans.take(j + 1) =~= ans.take(j as int).push(a@));
                lemma_encode_answers_push(ans.take(j as int), a@);
            }
            j = j + 1;
            assert(out@ =~= with_queries + encode_answers(ans.take(j as int)));
        }
        assert(ans.take(self.answers@.len() as int) =~= ans);
        assert(out@ =~= encode_packet(self@));
        out
    }
}

/// What a parse from a later position gives, with `ls` read before it.
pub open spec fn after_labels(
    ls: Seq<Seq<u8>>,
    r: Option<(Seq<Seq<u8>>, int)>,
) -> Option<(Seq<Seq<u8>>, int)> {
    match r {
        Some((rest, end)) => Some((ls + rest, end)),
        None => None,
    }
}

/// Reads an uncompressed name at `pos`: its dotted form and the position
/// after it.
pub fn read_name(d: &[u8], pos: usize) -> (r: Option<(Vec<u8>, usize)>)
    ensures
        match parse_labels(d@, pos as int) {
            Some((ls, end)) => r matches Some((n, e)) && n@ == dotted(ls) && e == end,
            None => r is None,
        },
{
    let mut p: usize = pos;
    let mut name: Vec<u8> = Vec::new();
    let ghost mut ls: Seq<Seq<u8>> = Seq::empty();
    let mut first = true;
    loop
        invariant
            pos <= p,
            first == (ls.len() == 0),
            parse_labels(d@, pos as int) == after_labels(ls, parse_labels(d@, p as int)),
            name@ == dotted(ls),
        decreases d@.len() - p,
    {
        if p >= d.len() {
            return None;
        }
        let n = d[p] as usize;
        if n == 0 {
            proof {
                assert(ls + Seq::<Seq<u8>>::empty() =~= ls);
            }
            return Some((name, p + 1));
        }
        if n >= 64 || n > d.len() - p - 1 {
            return None;
        }
        let ghost label = d@.subrange(p + 1, p + 1 + n);
        proof {
            let rest = parse_labels(d@, p + 1 + n);
            if let Some((r, e)) = rest {
                assert(ls + (seq![label] + r) =~= ls.push(label) + r);
            }
            assert(ls.push(label).drop_last() =~= ls);
        }
        if !first {
            name.push(DOT);
        }
        first = false;
        append_range(&mut name, d, p + 1, p + 1 + n);
        proof {
            if ls.len() == 0 {
                assert(name@ =~= dotted(ls.push(label)));
            } else {
                assert(name@ =~= dotted(ls.push(label)));
            }
            ls = ls.push(label);
        }
        p = p + 1 + n;
    }
}

/// The position after a possibly compressed name at `pos`.
pub fn skip_name_at(d: &[u8], pos: usize) -> (r: Option<usize>)
    ensures
        match skip_name(d@, pos as int) {
            Some(end) => r matches Some(x) && x as int == end,
            None => r is None,
        },
{
    let mut p: usize = pos;
    loop
        invariant
            skip_name(d@, pos as int) == skip_name(d@, p as int),
        decreases d@.len() - p,
    {
        if p >= d.len() {
            return None;
        }
        let n = d[p] as usize;
        if n == 0 {
            return Some(p + 1);
        }
        if n >= 0xc0 {
            if d.len() - p >= 2 {
                return Some(p + 2);
            } else {
                return None;
            }
        }
        if n >= 64 || n > d.len() - p - 1 {
            return None;
        }
        p = p + 1 + n;
    }
}

pub fn read_query(d: &[u8], pos: usize) -> (r: Option<(DnsQuery, usize)>)
    ensures
        match parse_query(d@, pos as int) {
            Some((q, end)) => r matches Some((x, e)) && x@ == q && e == end,
            None => r is None,
        },
{
    match read_name(d, pos) {
        None => None,
        Some((name, p)) => {
            if p > d.len() || d.len() - p < 4 {
                return None;
            }
            let q_type = get_u16(d, p);
            let q_class = get_u16(d, p + 2);
            Some((DnsQuery { name, q_type, q_class }, p + 4))
        },
    }
}

pub fn read_answer(d: &[u8], pos: usize) -> (r: Option<(DnsAnswer, usize)>)
    ensures
        match parse_answer(d@, pos as int) {
            Some((a, end)) => r matches Some((x, e)) && x@ == a && e == end,
            None => r is None,
        },
{
    match skip_name_at(d, pos) {
        None => None,
        Some(p) => {
            proof {
                lemma_skip_name_forward(d@, pos as int);
            }
            assert(skip_name(d@, pos as int) == Some(p as int));
            if p > d.len() || d.len() - p < 10 {
                return None;
            }
            let len = get_u16(d, p + 8) as usize;
            if d.len() - p - 10 < len {
                return None;
            }
            let name = copy_range(d, pos, p);
            let a_type = get_u16(d, p);
            let a_class = get_u16(d, p + 2);
            let ttl = get_u32(d, p + 4);
            let data = copy_range(d, p + 10, p + 10 + len);
            Some((DnsAnswer { name, a_type, a_class, ttl, data }, p + 10 + len))
        },
    }
}

pub proof fn lemma_skip_name_forward(d: Seq<u8>, pos: int)
    ensures
        skip_name(d, pos) matches Some(end) ==> 0 <= pos < end <= d.len(),
    decreases d.len() - pos,
{
    if 0 <= pos < d.len() {
        let n = d[pos] as int;
        if n != 0 && n < 64 && pos + 1 + n <= d.len() {
            lemma_skip_name_forward(d, pos + 1 + n);
        }
    }
}

// ----- reading back what was written -----

pub proof fn lemma_parse_wire_labels(d: Seq<u8>, pos: int, ls: Seq<Seq<u8>>)
    requires
        valid_labels(ls),
        0 <= pos,
        pos + wire_labels(ls).len() + 1 <= d.len(),
        d.subrange(pos, pos + wire_labels(ls).len() + 1) == wire_labels(ls) + seq![0u8],
    ensures
        parse_labels(d, pos) == Some((ls, pos + wire_labels(ls).len() + 1)),
    decreases ls.len(),
{
    let w = wire_labels(ls);
    let s = d.subrange(pos, pos + w.len() + 1);
    assert(d[pos] == s[0]);
    if ls.len() == 0 {
        assert(ls =~= Seq::<Seq<u8>>::empty());
    } else {
        let l = ls[0];
        let n = l.len() as int;
        let rest = ls.drop_first();
        let wr = wire_labels(rest);
        assert(valid_label(ls[0]));
        assert(w == seq![len_byte(l)] + l + wr);
        assert(d[pos] as int == n);
        assert(valid_labels(rest)) by {
            assert forall|i: int| 0 <= i < rest.len() implies valid_label(#[trigger] rest[i]) by {
                assert(rest[i] == ls[i + 1]);
            }
        }
        assert forall|k: int| 0 <= k < wr.len() + 1 implies d.subrange(pos + 1 + n, pos + 1 + n + wr.len() + 1)[k] == (wr + seq![0u8])[k] by {
            assert(d[pos + 1 + n + k] == s[1 + n + k]);
        }
        assert(d.subrange(pos + 1 + n, pos + 1 + n + wr.len() + 1) =~= wr + seq![0u8]);
        lemma_parse_wire_labels(d, pos + 1 + n, rest);
        assert forall|k: int| 0 <= k < n implies d.subrange(pos + 1, pos + 1 + n)[k] == l[k] by {
            assert(d[pos + 1 + k] == s[1 + k]);
        }
        assert(d.subrange(pos + 1, pos + 1 + n) =~= l);
        assert(seq![l] + rest =~= ls);
    }
}

/// `d` holds `x` at `pos`.
pub open spec fn holds_at(d: Seq<u8>, pos: int, x: Seq<u8>) -> bool {
    0 <= pos && pos + x.len() <= d.len() && d.subrange(pos, pos + x.len()) == x
}

pub proof fn lemma_holds_at_split(d: Seq<u8>, pos: int, x: Seq<u8>, y: Seq<u8>)
    requires
        holds_at(d, pos, x + y),
    ensures
        holds_at(d, pos, x),
        holds_at(d, pos + x.len(), y),
{
    let s = d.subrange(pos, pos + x.len() + y.len());
    assert forall|k: int| 0 <= k < x.len() implies d.subrange(pos, pos + x.len())[k] == x[k] by {
        assert(d[pos + k] == s[k]);
    }
    assert(d.subrange(pos, pos + x.len()) =~= x);
    assert forall|k: int| 0 <= k < y.len() implies d.subrange(pos + x.len(), pos + x.len() + y.len())[k] == y[k] by {
        assert(d[pos + x.len() + k] == s[x.len() + k]);
    }
    assert(d.subrange(pos + x.len(), pos + x.len() + y.len()) =~= y);
}

pub proof fn lemma_read16_at(d: Seq<u8>, pos: int, x: u16)
    requires
        holds_at(d, pos, be16(x)),
    ensures
        read16(d, pos) == x,
{
    lemma_read16_be16(d, pos, x);
}

pub proof fn lemma_parse_query(d: Seq<u8>, pos: int, q: QueryView)
    requires
        valid_name(q.name),
        holds_at(d, pos, encode_query(q)),
    ensures
        parse_query(d, pos) == Some((q, pos + encode_query(q).len())),
{
    let ls = split_dots(q.name);
    let w = wire_labels(ls);
    let en = encode_name(q.name);
    assert(encode_query(q) == en + be16(q.q_type) + be16(q.q_class));
    lemma_holds_at_split(d, pos, en + be16(q.q_type), be16(q.q_class));
    lemma_holds_at_split(d, pos, en, be16(q.q_type));
    lemma_parse_wire_labels(d, pos, ls);
    lemma_dotted_split(q.name);
    lemma_read16_at(d, pos + en.len(), q.q_type);
    lemma_read16_at(d, pos + en.len() + 2, q.q_class);
}

pub proof fn lemma_parse_queries(d: Seq<u8>, pos: int, qs: Seq<QueryView>)
    requires
        forall|i: int| 0 <= i < qs.len() ==> valid_name(#[trigger] qs[i].name),
        holds_at(d, pos, encode_queries(qs)),
    ensures
        parse_queries(d, pos, qs.len()) == Some((qs, pos + encode_queries(qs).len())),
    decreases qs.len(),
{
    if qs.len() == 0 {
        assert(qs =~= Seq::<QueryView>::empty());
    } else {
        let q = qs[0];
        let rest = qs.drop_first();
        assert(valid_name(qs[0].name));
        lemma_holds_at_split(d, pos, encode_query(q), encode_queries(rest));
        lemma_parse_query(d, pos, q);
        assert forall|i: int| 0 <= i < rest.len() implies valid_name(#[trigger] rest[i].name) by {
            assert(rest[i] == qs[i + 1]);
        }
        lemma_parse_queries(d, pos + encode_query(q).len(), rest);
        assert(seq![q] + rest =~= qs);
        assert((qs.len() - 1) as nat == rest.len());
    }
}

/// Skipping a name does not look past its end.
pub proof fn lemma_skip_name_within(name: Seq<u8>, k: int, d: Seq<u8>, pos: int)
    requires
        holds_at(d, pos, name),
        0 <= k,
        skip_name(name, k) is Some,
    ensures
        skip_name(d, pos + k) == Some(pos + skip_name(name, k)->0),
    decreases name.len() - k,
{
    let s = d.subrange(pos, pos + name.len());
    assert(d[pos + k] == s[k]);
    let n = name[k] as int;
    if n != 0 && n < 0xc0 {
        lemma_skip_name_within(name, k + 1 + n, d, pos);
    }
}

pub proof fn lemma_parse_answer(d: Seq<u8>, pos: int, a: AnswerView)
    requires
        wf_answer(a),
        holds_at(d, pos, encode_answer(a)),
    ensures
        parse_answer(d, pos) == Some((a, pos + encode_answer(a).len())),
{
    let nl = a.name.len() as int;
    let h1 = a.name + be16(a.a_type);
    let h2 = h1 + be16(a.a_class);
    let h3 = h2 + be32(a.ttl);
    let h4 = h3 + be16(a.data.len() as u16);
    assert(encode_answer(a) == h4 + a.data);
    lemma_holds_at_split(d, pos, h4, a.data);
    lemma_holds_at_split(d, pos, h3, be16(a.data.len() as u16));
    lemma_holds_at_split(d, pos, h2, be32(a.ttl));
    lemma_holds_at_split(d, pos, h1, be16(a.a_class));
    lemma_holds_at_split(d, pos, a.name, be16(a.a_type));
    lemma_skip_name_within(a.name, 0, d, pos);
    lemma_read16_at(d, pos + nl, a.a_type);
    lemma_read16_at(d, pos + nl + 2, a.a_class);
    lemma_read32_be32(d, pos + nl + 4, a.ttl);
    lemma_read16_at(d, pos + nl + 8, a.data.len() as u16);
}

pub proof fn lemma_parse_answers(d: Seq<u8>, pos: int, ans: Seq<AnswerView>)
    requires
        forall|i: int| 0 <= i < ans.len() ==> wf_answer(#[trigger] ans[i]),
        holds_at(d, pos, encode_answers(ans)),
    ensures
        parse_answers(d, pos, ans.len()) == Some((ans, pos + encode_answers(ans).len())),
    decreases ans.len(),
{
    if ans.len() == 0 {
        assert(ans =~= Seq::<AnswerView>::empty());
    } else {
        let a = ans[0];
        let rest = ans.drop_first();
        assert(wf_answer(ans[0]));
        lemma_holds_at_split(d, pos, encode_answer(a), encode_answers(rest));
        lemma_parse_answer(d, pos, a);
        assert forall|i: int| 0 <= i < rest.len() implies wf_answer(#[trigger] rest[i]) by {
            assert(rest[i] == ans[i + 1]);
        }
        lemma_parse_answers(d, pos + encode_answer(a).len(), rest);
        assert(seq![a] + rest =~= ans);
        assert((ans.len() - 1) as nat == rest.len());
    }
}

/// Reading the bytes of a well-formed message gives the message back: its
/// transaction id, flags, every question (name, type and class) and every
/// answer, in order.
pub proof fn lemma_parse_encode(p: DnsView)
    requires
        wf_packet(p),
    ensures
        parse_packet(encode_packet(p)) == Some(p),
{
    let d = encode_packet(p);
    let eq = encode_queries(p.queries);
    let ea = encode_answers(p.answers);
    let h0 = be16(p.transaction_id);
    let h1 = h0 + be16(p.flags);
    let h2 = h1 + be16(p.queries.len() as u16);
    let h3 = h2 + be16(p.answers.len() as u16);
    let h4 = h3 + be16(0);
    let h5 = h4 + be16(0);
    assert(h5.len() == 12);
    assert(d == h5 + eq + ea);
    assert(holds_at(d, 0, h5 + eq + ea)) by {
        assert(d.subrange(0, d.len() as int) =~= d);
    }
    assert(holds_at(d, 0, h5) && holds_at(d, 12, eq)) by {
        lemma_holds_at_split(d, 0, h5 + eq, ea);
        lemma_holds_at_split(d, 0, h5, eq);
    }
    assert(holds_at(d, 12 + eq.len() as int, ea)) by {
        lemma_holds_at_split(d, 0, h5 + eq, ea);
    }
    assert(read16(d, 0) == p.transaction_id && read16(d, 2) == p.flags && read16(d, 4)
        == p.queries.len() && read16(d, 6) == p.answers.len()) by {
        lemma_holds_at_split(d, 0, h4, be16(0));
        lemma_holds_at_split(d, 0, h3, be16(0));
        lemma_holds_at_split(d, 0, h2, be16(p.answers.len() as u16));
        lemma_holds_at_split(d, 0, h1, be16(p.queries.len() as u16));
        lemma_holds_at_split(d, 0, h0, be16(p.flags));
        lemma_read16_at(d, 0, p.transaction_id);
        lemma_read16_at(d, 2, p.flags);
        lemma_read16_at(d, 4, p.queries.len() as u16);
        lemma_read16_at(d, 6, p.answers.len() as u16);
    }
    lemma_parse_queries(d, 12, p.queries);
    lemma_parse_answers(d, 12 + eq.len() as int, p.answers);
}

/// Why a message could not be read.
pub enum DnsError {
    /// The message ends inside a field.
    Truncated,
}

impl Dns {
    /// Reads a message: the header, then the questions and answers it
    /// counts. Fails exactly when `parse_packet` finds no message.
    pub fn parse(d: &[u8]) -> (r: Result<Dns, DnsError>)
        ensures
            match parse_packet(d@) {
                Some(p) => r is Ok && r->Ok_0@ == p,
                None => r is Err,
            },
    {
        if d.len() < HEADER_LEN {
            return Err(DnsError::Truncated);
        }
        let transaction_id = get_u16(d, 0);
        let flags = get_u16(d, 2);
        let qd = get_u16(d, 4);
        let an = get_u16(d, 6);
        let mut queries: Vec<DnsQuery> = Vec::new();
        let mut p: usize = HEADER_LEN;
        let mut i: u16 = 0;
        while i < qd
            invariant
                i <= qd,
                qd == read16(d@, 4),
                parse_queries(d@, HEADER_LEN as int, qd as nat) == after_queries(
                    queries@.map_values(|q: DnsQuery| q@),
                    parse_queries(d@, p as int, (qd - i) as nat),
                ),
            decreases qd - i,
        {
            match read_query(d, p) {
                None => {
                    return Err(DnsError::Truncated);
                },
                Some((q, next)) => {
                    proof {
                        let done = queries@.map_values(|q: DnsQuery| q@);
                        let rest = parse_queries(d@, next as int, (qd - i - 1) as nat);
                        if let Some((r, e)) = rest {
                            assert(done + (seq![q@] + r) =~= done.push(q@) + r);
                        }
                    }
                    let ghost prev = queries@.map_values(|q: DnsQuery| q@);
                    let ghost qv = q@;
                    queries.push(q);
                    assert(queries@.map_values(|q: DnsQuery| q@) =~= prev.push(qv));
                    p = next;
                },
            }
            i = i + 1;
        }
        let mut answers: Vec<DnsAnswer> = Vec::new();
        let ghost qs = queries@.map_values(|q: DnsQuery| q@);
        let ghost after_qs = p as int;
        proof {
            assert(qs + Seq::<QueryView>::empty() =~= qs);
        }
        let mut j: u16 = 0;
        while j < an
            invariant
                j <= an,
                an == read16(d@, 6),
                d@.len() >= HEADER_LEN,
                parse_queries(d@, HEADER_LEN as int, read16(d@, 4) as nat) == Some((qs, after_qs)),
                parse_answers(d@, after_qs, an as nat) == after_answers(
                    answers@.map_values(|a: DnsAnswer| a@),
                    parse_answers(d@, p as int, (an - j) as nat),
                ),
            decreases an - j,
        {
            match read_answer(d, p) {
                None => {
                    return Err(DnsError::Truncated);
                },
                Some((a, next)) => {
                    proof {
                        let done = answers@.map_values(|a: DnsAnswer| a@);
                        let rest = parse_answers(d@, next as int, (an - j - 1) as nat);
                        if let Some((r, e)) = rest {
                            assert(done + (seq![a@] + r) =~= done.push(a@) + r);
                        }
                    }
                    let ghost prev = answers@.map_values(|a: DnsAnswer| a@);
                    let ghost av = a@;
                    answers.push(a);
                    assert(answers@.map_values(|a: DnsAnswer| a@) =~= prev.push(av));
                    p = next;
                },
            }
            j = j + 1;
        }
        proof {
            let ans = answers@.map_values(|a: DnsAnswer| a@);
            assert(ans + Seq::<AnswerView>::empty() =~= ans);
        }
        let r = Dns { transaction_id, flags, queries, answers };
        assert(r@.queries == qs);
        Ok(r)
    }
}

} // verus!
