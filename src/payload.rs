//! A raw DNS datagram, and the reading of its transaction id and first
//! question name.
use vstd::prelude::*;
use vstd::slice::{slice_subrange, slice_to_vec};

verus! {

/// Offset of the first question's name in a DNS message.
pub const QUESTION_OFFSET: usize = 12;

/// The 16-bit big-endian integer held by the first two bytes of `b`.
pub open spec fn be_u16(b: Seq<u8>) -> u16 {
    ((b[0] as int) * 256 + (b[1] as int)) as u16
}

/// The same sequence, last element first.
pub open spec fn reversed<A>(s: Seq<A>) -> Seq<A> {
    Seq::new(s.len(), |i: int| s[s.len() - 1 - i])
}

/// The byte view of each label of a list.
pub open spec fn labels_view(v: Seq<Vec<u8>>) -> Seq<Seq<u8>> {
    v.map_values(|l: Vec<u8>| l@)
}

/// The labels of the name that starts at `off`, in wire order, with the offset
/// of its terminating zero-length label; `None` where a length prefix or a
/// label runs past the end of `b`.
pub open spec fn wire_labels(b: Seq<u8>, off: int) -> Option<(Seq<Seq<u8>>, int)>
    decreases b.len() - off,
{
    if off < 0 || off >= b.len() {
        None
    } else if b[off] == 0 {
        Some((Seq::empty(), off))
    } else {
        let len = b[off] as int;
        if off + 1 + len > b.len() {
            None
        } else {
            match wire_labels(b, off + 1 + len) {
                Some((rest, end)) => Some((seq![b.subrange(off + 1, off + 1 + len)] + rest, end)),
                None => None,
            }
        }
    }
}

/// Puts `pre` in front of the labels of a parse outcome.
pub open spec fn prepend(
    pre: Seq<Seq<u8>>,
    rest: Option<(Seq<Seq<u8>>, int)>,
) -> Option<(Seq<Seq<u8>>, int)> {
    match rest {
        Some((s, end)) => Some((pre + s, end)),
        None => None,
    }
}

/// The first question name of a datagram, top-level label first, with the
/// offset of its terminating zero-length label.
pub open spec fn question(b: Seq<u8>) -> Option<(Seq<Seq<u8>>, int)> {
    match wire_labels(b, QUESTION_OFFSET as int) {
        Some((ls, end)) => Some((reversed(ls), end)),
        None => None,
    }
}

/// A name that parses ends inside the buffer, at or after where it starts.
proof fn lemma_wire_end(b: Seq<u8>, off: int)
    ensures
        wire_labels(b, off) matches Some((ls, end)) ==> off <= end < b.len(),
    decreases b.len() - off,
{
    if 0 <= off < b.len() && b[off] != 0 {
        let len = b[off] as int;
        if off + 1 + len <= b.len() {
            lemma_wire_end(b, off + 1 + len);
        }
    }
}

/// The question name of a datagram ends inside it, after the header.
pub proof fn lemma_question_end(b: Seq<u8>)
    ensures
        question(b) matches Some((ls, end)) ==> QUESTION_OFFSET <= end < b.len(),
{
    lemma_wire_end(b, QUESTION_OFFSET as int);
}

/// The wire form of a name: each label after its length byte, then a zero
/// byte.
pub open spec fn encode_name(ls: Seq<Seq<u8>>) -> Seq<u8>
    decreases ls.len(),
{
    if ls.len() == 0 {
        seq![0u8]
    } else {
        seq![ls[0].len() as u8] + ls[0] + encode_name(ls.drop_first())
    }
}

/// Each label has between 1 and 63 bytes, as DNS allows.
pub open spec fn valid_labels(ls: Seq<Seq<u8>>) -> bool {
    forall|i: int| 0 <= i < ls.len() ==> 1 <= (#[trigger] ls[i]).len() <= 63
}

proof fn lemma_wire_encoded(b: Seq<u8>, off: int, ls: Seq<Seq<u8>>)
    requires
        valid_labels(ls),
        0 <= off,
        off + encode_name(ls).len() <= b.len(),
        b.subrange(off, off + encode_name(ls).len()) == encode_name(ls),
    ensures
        wire_labels(b, off) == Some((ls, off + encode_name(ls).len() - 1)),
    decreases ls.len(),
{
    let e = encode_name(ls);
    assert(b[off] == e[0]);
    if ls.len() > 0 {
        let l = ls[0];
        let rest = ls.drop_first();
        let er = encode_name(rest);
        assert(valid_labels(rest)) by {
            assert forall|i: int| 0 <= i < rest.len() implies 1 <= (#[trigger] rest[i]).len() <= 63 by {
                assert(rest[i] == ls[i + 1]);
            }
        }
        assert(e.len() == 1 + l.len() + er.len());
        let next = off + 1 + l.len();
        assert(b.subrange(next, next + er.len()) =~= e.subrange(1 + l.len() as int, e.len() as int));
        assert(e.subrange(1 + l.len() as int, e.len() as int) =~= er);
        lemma_wire_encoded(b, next, rest);
        assert(b.subrange(off + 1, next) =~= e.subrange(1, 1 + l.len() as int));
        assert(e.subrange(1, 1 + l.len() as int) =~= l);
        assert(seq![l] + rest =~= ls);
    }
}

/// A datagram whose question name is the wire form of `ls` gives back the
/// labels of `ls`, top-level label first, with the offset of the name's
/// terminating zero byte.
pub proof fn lemma_question_of_encoded(header: Seq<u8>, ls: Seq<Seq<u8>>, rest: Seq<u8>)
    requires
        header.len() == QUESTION_OFFSET,
        valid_labels(ls),
    ensures
        question(header + encode_name(ls) + rest) == Some(
            (reversed(ls), QUESTION_OFFSET + encode_name(ls).len() - 1),
        ),
{
    let b = header + encode_name(ls) + rest;
    let e = encode_name(ls);
    assert(b.subrange(QUESTION_OFFSET as int, QUESTION_OFFSET + e.len()) =~= e);
    lemma_wire_encoded(b, QUESTION_OFFSET as int, ls);
}

/// The same labels in the opposite order.
pub fn reverse_labels(v: Vec<Vec<u8>>) -> (r: Vec<Vec<u8>>)
    ensures
        labels_view(r@) == reversed(labels_view(v@)),
{
    let mut wire = v;
    let ghost all = labels_view(wire@);
    let ghost total = wire@.len();
    let mut out: Vec<Vec<u8>> = Vec::new();
    assert(labels_view(wire@) =~= all.take(wire@.len() as int));
    while wire.len() > 0
        invariant
            out@.len() + wire@.len() == total,
            labels_view(wire@) =~= all.take(wire@.len() as int),
            forall|i: int| 0 <= i < out@.len() ==> out@[i]@ == all[total - 1 - i],
            all.len() == total,
        decreases wire@.len(),
    {
        let ghost before = wire@;
        let label = wire.pop().unwrap();
        proof {
            assert(label == before[before.len() - 1]);
            assert(labels_view(before)[before.len() - 1] == all.take(before.len() as int)[before.len() - 1]);
        }
        out.push(label);
        assert(labels_view(wire@) =~= all.take(wire@.len() as int)) by {
            assert(labels_view(wire@) =~= labels_view(before).take(wire@.len() as int));
        }
    }
    assert(labels_view(out@) =~= reversed(all));
    out
}

/// The bytes of one UDP datagram.
#[derive(Debug, Clone)]
pub struct Payload(pub Vec<u8>);

impl View for Payload {
    type V = Seq<u8>;

    open spec fn view(&self) -> Seq<u8> {
        self.0@
    }
}

impl Payload {
    /// A payload holding a copy of `value`.
    pub fn from(value: &[u8]) -> (r: Payload)
        ensures
            r@ == value@,
    {
        Payload(slice_to_vec(value))
    }

    /// The datagram's bytes.
    pub fn as_slice(&self) -> (r: &[u8])
        ensures
            r@ == self@,
    {
        self.0.as_slice()
    }

    /// The transaction id: the first two bytes, big-endian; `None` for a
    /// datagram shorter than two bytes.
    pub fn id(&self) -> (r: Option<u16>)
        ensures
            self@.len() >= 2 ==> r == Some(be_u16(self@)),
            self@.len() < 2 ==> r is None,
    {
        if self.0.len() < 2 {
            return None;
        }
        let a = self.0[0] as u16;
        let b = self.0[1] as u16;
        Some(a * 256 + b)
    }

    /// The labels of the first question name, top-level label first, and the
    /// offset of the zero-length label that ends the name; `None` where the
    /// name runs past the end of the datagram.
    pub fn domain(&self) -> (r: Option<(Vec<Vec<u8>>, usize)>)
        ensures
            match r {
                Some((ls, end)) => question(self@) == Some((labels_view(ls@), end as int)),
                None => question(self@) is None,
            },
    {
        let buf = self.0.as_slice();
        let n = buf.len();
        let mut wire: Vec<Vec<u8>> = Vec::new();
        let mut off: usize = QUESTION_OFFSET;
        if n <= off {
            return None;
        }
        loop
            invariant
                QUESTION_OFFSET <= off <= n,
                n == self@.len(),
                buf@ == self@,
                wire_labels(self@, QUESTION_OFFSET as int) == prepend(
                    labels_view(wire@),
                    wire_labels(self@, off as int),
                ),
            ensures
                off < n,
                self@[off as int] == 0,
                wire_labels(self@, QUESTION_OFFSET as int) == prepend(
                    labels_view(wire@),
                    wire_labels(self@, off as int),
                ),
            decreases n - off,
        {
            if off >= n {
                return None;
            }
            let len = buf[off] as usize;
            if len == 0 {
                break;
            }
            if len >= n - off {
                return None;
            }
            let label = slice_to_vec(slice_subrange(buf, off + 1, off + 1 + len));
            proof {
                let pre = labels_view(wire@);
                let one = seq![self@.subrange(off + 1, off + 1 + len)];
                assert(labels_view(wire@.push(label)) =~= pre + one);
                match wire_labels(self@, off + 1 + len) {
                    Some((rest, end)) => {
                        assert(pre + (one + rest) =~= (pre + one) + rest);
                    },
                    None => {},
                }
            }
            wire.push(label);
            off = off + 1 + len;
        }
        assert(labels_view(wire@) + Seq::<Seq<u8>>::empty() =~= labels_view(wire@));
        assert(wire_labels(self@, off as int) == Some((Seq::<Seq<u8>>::empty(), off as int)));
        let out = reverse_labels(wire);
        Some((out, off))
    }
}

} // verus!
