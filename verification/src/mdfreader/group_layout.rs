//! The places of the channels of a group in the group's record: whether
//! they lie within the record and apart from each other.

use crate::mdfinfo::mdfinfo4::Cg4;
use crate::mdfinfo::mdfinfo4::Cn4;
use crate::mdfreader::channel_data::virtual_type;
use vstd::prelude::*;

verus! {

/// A run of bytes, or of bits, in a record.
#[derive(Debug, Clone, Copy, PartialEq, Eq, Structural)]
pub struct Span {
    /// The first byte or bit.
    pub start: u64,
    /// The number of bytes or bits.
    pub len: u64,
}

/// The number of bytes or bits of all spans together.
pub open spec fn total_len(spans: Seq<Span>) -> nat
    decreases spans.len(),
{
    if spans.len() == 0 {
        0
    } else {
        total_len(spans.drop_last()) + spans.last().len as nat
    }
}

/// Every span that holds a byte ends within the first `limit` bytes.
pub open spec fn spans_within(spans: Seq<Span>, limit: nat) -> bool {
    forall|i: int|
        0 <= i < spans.len() && (#[trigger] spans[i]).len > 0 ==> spans[i].start + spans[i].len
            <= limit
}

/// The spans `a` and `b` share no byte.
pub open spec fn apart(a: Span, b: Span) -> bool {
    a.len == 0 || b.len == 0 || a.start + a.len <= b.start || b.start + b.len <= a.start
}

/// No two spans share a byte.
pub open spec fn spans_apart(spans: Seq<Span>) -> bool {
    forall|i: int, j: int|
        0 <= i < j < spans.len() ==> apart(#[trigger] spans[i], #[trigger] spans[j])
}

/// The byte after the last byte of a span; 0 for a span without bytes.
pub open spec fn end_of(s: Span) -> nat {
    if s.len > 0 {
        (s.start + s.len) as nat
    } else {
        0
    }
}

/// The index of a span that ends last.
pub open spec fn last_ending(spans: Seq<Span>) -> int
    decreases spans.len(),
{
    if spans.len() <= 1 {
        0
    } else {
        let k = last_ending(spans.drop_last());
        if end_of(spans.last()) >= end_of(spans[k]) {
            spans.len() - 1
        } else {
            k
        }
    }
}

/// The span at `last_ending` ends no earlier than any other.
proof fn lemma_last_ending(spans: Seq<Span>)
    requires
        spans.len() > 0,
    ensures
        0 <= last_ending(spans) < spans.len(),
        forall|i: int|
            0 <= i < spans.len() ==> end_of(#[trigger] spans[i]) <= end_of(
                spans[last_ending(spans)],
            ),
    decreases spans.len(),
{
    if spans.len() > 1 {
        lemma_last_ending(spans.drop_last());
        let k = last_ending(spans.drop_last());
        assert forall|i: int| 0 <= i < spans.len() implies end_of(#[trigger] spans[i]) <= end_of(
            spans[last_ending(spans)],
        ) by {
            if i < spans.len() - 1 {
                assert(spans.drop_last()[i] == spans[i]);
            }
        }
    }
}

/// Taking a span away takes its bytes away.
proof fn lemma_total_without(spans: Seq<Span>, m: int)
    requires
        0 <= m < spans.len(),
    ensures
        total_len(spans) == total_len(spans.remove(m)) + spans[m].len,
    decreases spans.len(),
{
    if m == spans.len() - 1 {
        assert(spans.remove(m) =~= spans.drop_last());
    } else {
        lemma_total_without(spans.drop_last(), m);
        assert(spans.remove(m).drop_last() =~= spans.drop_last().remove(m));
        assert(spans.remove(m).last() == spans.last());
    }
}

/// Spans that lie apart from each other within the first `limit` bytes of a
/// record hold no more than `limit` bytes together.
pub proof fn lemma_spans_fit(spans: Seq<Span>, limit: nat)
    requires
        spans_within(spans, limit),
        spans_apart(spans),
    ensures
        total_len(spans) <= limit,
    decreases spans.len(),
{
    if spans.len() > 0 {
        lemma_last_ending(spans);
        let m = last_ending(spans);
        let rest = spans.remove(m);
        let below: nat = if spans[m].len > 0 {
            spans[m].start as nat
        } else {
            0
        };
        assert(spans_apart(rest)) by {
            assert forall|i: int, j: int| 0 <= i < j < rest.len() implies apart(
                #[trigger] rest[i],
                #[trigger] rest[j],
            ) by {
                let a = if i < m {
                    i
                } else {
                    i + 1
                };
                let b = if j < m {
                    j
                } else {
                    j + 1
                };
                assert(rest[i] == spans[a] && rest[j] == spans[b]);
                assert(apart(spans[a], spans[b]));
            }
        }
        assert(spans_within(rest, below)) by {
            assert forall|i: int| 0 <= i < rest.len() && (#[trigger] rest[i]).len > 0 implies rest[i].start
                + rest[i].len <= below by {
                let a = if i < m {
                    i
                } else {
                    i + 1
                };
                assert(rest[i] == spans[a]);
                assert(end_of(spans[a]) <= end_of(spans[m]));
                if a < m {
                    assert(apart(spans[a], spans[m]));
                } else {
                    assert(apart(spans[m], spans[a]));
                }
            }
        }
        lemma_spans_fit(rest, below);
        lemma_total_without(spans, m);
    }
}

/// True for the channels whose place in the record is looked at: those
/// whose values are stored in the record and that are not composed of other
/// values.
pub open spec fn takes_room(cn: Cn4) -> bool {
    !virtual_type(cn.block.cn_type) && cn.block.cn_type != 1 && cn.composition is None
}

/// The bytes that the channel takes in the record; none for a channel whose
/// place is not looked at.
pub open spec fn span_of(cn: Cn4) -> Span {
    if takes_room(cn) {
        Span { start: cn.pos_byte_beg as u64, len: cn.n_bytes as u64 }
    } else {
        Span { start: 0, len: 0 }
    }
}

/// The bits that the channel takes in the record; none for a channel whose
/// place is not looked at.
pub open spec fn bit_span_of(cn: Cn4) -> Span {
    if takes_room(cn) {
        Span {
            start: (8 * cn.pos_byte_beg + cn.block.cn_bit_offset) as u64,
            len: cn.block.cn_bit_count as u64,
        }
    } else {
        Span { start: 0, len: 0 }
    }
}

/// The bytes that the channels take in the record.
pub open spec fn spans_of(cns: Seq<Cn4>) -> Seq<Span> {
    Seq::new(cns.len(), |i: int| span_of(cns[i]))
}

/// The bits that the channels take in the record.
pub open spec fn bit_spans_of(cns: Seq<Cn4>) -> Seq<Span> {
    Seq::new(cns.len(), |i: int| bit_span_of(cns[i]))
}

/// The channels of the group lie within the record and take bytes of
/// their own.
pub open spec fn layout_consistent(cg: Cg4) -> bool {
    spans_within(spans_of(cg.cn@), cg.record_length as nat) && spans_apart(spans_of(cg.cn@))
}

/// The channels of the group lie within the record and take bits of their
/// own; they may share bytes.
pub open spec fn bits_consistent(cg: Cg4) -> bool {
    spans_within(bit_spans_of(cg.cn@), 8 * cg.record_length as nat) && spans_apart(
        bit_spans_of(cg.cn@),
    )
}

/// In a group whose channels lie within the record and take bytes of their
/// own, the bytes of all channels together fit the record.
pub proof fn lemma_group_fits(cg: Cg4)
    requires
        layout_consistent(cg),
    ensures
        total_len(spans_of(cg.cn@)) <= cg.record_length,
{
    lemma_spans_fit(spans_of(cg.cn@), cg.record_length as nat);
}

/// In a group whose channels lie within the record and take bits of their
/// own, the bits of all channels together fit the record.
pub proof fn lemma_group_bits_fit(cg: Cg4)
    requires
        bits_consistent(cg),
    ensures
        total_len(bit_spans_of(cg.cn@)) <= 8 * cg.record_length,
{
    lemma_spans_fit(bit_spans_of(cg.cn@), 8 * cg.record_length as nat);
}

/// Tells whether the spans `a` and `b` share nothing.
fn lie_apart(a: &Span, b: &Span) -> (r: bool)
    ensures
        r == apart(*a, *b),
{
    if a.len == 0 || b.len == 0 {
        return true;
    }
    let a_before = match a.start.checked_add(a.len) {
        Some(end) => end <= b.start,
        None => false,
    };
    let b_before = match b.start.checked_add(b.len) {
        Some(end) => end <= a.start,
        None => false,
    };
    a_before || b_before
}

/// Tells whether the spans lie within the first `limit` bytes or bits and
/// apart from each other.
pub fn check_spans(spans: &Vec<Span>, limit: u64) -> (r: bool)
    ensures
        r == (spans_within(spans@, limit as nat) && spans_apart(spans@)),
{
    let n = spans.len();
    let mut i: usize = 0;
    while i < n
        invariant
            i <= n,
            n == spans@.len(),
            forall|k: int|
                0 <= k < i && (#[trigger] spans@[k]).len > 0 ==> spans@[k].start + spans@[k].len
                    <= limit,
            forall|a: int, b: int|
                0 <= a < b < n && a < i ==> apart(#[trigger] spans@[a], #[trigger] spans@[b]),
        decreases n - i,
    {
        let here = spans[i];
        if here.len > 0 {
            match here.start.checked_add(here.len) {
                Some(end) => {
                    if end > limit {
                        return false;
                    }
                },
                None => {
                    return false;
                },
            }
        }
        let mut j: usize = i + 1;
        while j < n
            invariant
                i < j <= n,
                n == spans@.len(),
                here == spans@[i as int],
                forall|b: int| i < b < j ==> apart(spans@[i as int], #[trigger] spans@[b]),
            decreases n - j,
        {
            let there = spans[j];
            if !lie_apart(&here, &there) {
                return false;
            }
            j += 1;
        }
        i += 1;
    }
    true
}

/// Tells whether the channels of the group lie within the record and take
/// bytes of their own.
pub fn check_group_layout(cg: &Cg4) -> (r: bool)
    ensures
        r == layout_consistent(*cg),
{
    let mut spans: Vec<Span> = Vec::with_capacity(cg.cn.len());
    let mut i: usize = 0;
    while i < cg.cn.len()
        invariant
            i <= cg.cn.len(),
            spans@ == spans_of(cg.cn@.subrange(0, i as int)),
        decreases cg.cn.len() - i,
    {
        let cn = &cg.cn[i];
        let t = cn.block.cn_type;
        let span = if t == 3 || t == 6 || t == 1 || cn.composition.is_some() {
            Span { start: 0, len: 0 }
        } else {
            Span { start: cn.pos_byte_beg as u64, len: cn.n_bytes as u64 }
        };
        spans.push(span);
        proof {
            assert(spans@ =~= spans_of(cg.cn@.subrange(0, i + 1)));
        }
        i += 1;
    }
    proof {
        assert(cg.cn@.subrange(0, i as int) =~= cg.cn@);
    }
    check_spans(&spans, cg.record_length as u64)
}

/// Tells whether the channels of the group lie within the record and take
/// bits of their own.
pub fn check_group_bits(cg: &Cg4) -> (r: bool)
    ensures
        r == bits_consistent(*cg),
{
    let mut spans: Vec<Span> = Vec::with_capacity(cg.cn.len());
    let mut i: usize = 0;
    while i < cg.cn.len()
        invariant
            i <= cg.cn.len(),
            spans@ == bit_spans_of(cg.cn@.subrange(0, i as int)),
        decreases cg.cn.len() - i,
    {
        let cn = &cg.cn[i];
        let t = cn.block.cn_type;
        let span = if t == 3 || t == 6 || t == 1 || cn.composition.is_some() {
            Span { start: 0, len: 0 }
        } else {
            Span {
                start: 8 * (cn.pos_byte_beg as u64) + cn.block.cn_bit_offset as u64,
                len: cn.block.cn_bit_count as u64,
            }
        };
        spans.push(span);
        proof {
            assert(spans@ =~= bit_spans_of(cg.cn@.subrange(0, i + 1)));
        }
        i += 1;
    }
    proof {
        assert(cg.cn@.subrange(0, i as int) =~= cg.cn@);
    }
    check_spans(&spans, 8 * (cg.record_length as u64))
}

} // verus!
