//! Where the values of a channel lie in the records of a buffer, and what
//! the bytes found there stand for.

use crate::bytes::field;
use crate::bytes::int_of;
use crate::bytes::uint_of;
use crate::mdfreader::channel_data::ElemKind;
use crate::text::trim_end;
use crate::text::utf8_text;
use crate::text::utf_16_text;
use crate::text::windows_1252_text;
use vstd::prelude::*;

verus! {

/// The place of a channel in records of one length that follow each other.
///
/// A record holds `per_record` values of the channel, each `elem_bytes` long,
/// one after the other from byte `pos` on.
#[derive(Debug, Clone, Copy, PartialEq, Eq, Structural)]
pub struct RecordLayout {
    /// The length of a record, its record id included.
    pub record_length: usize,
    /// The first byte of the channel within the record.
    pub pos: usize,
    /// The number of bytes of one value.
    pub elem_bytes: usize,
    /// The number of values per record.
    pub per_record: usize,
    /// The byte order of a value.
    pub big_endian: bool,
}

impl RecordLayout {
    /// The values of the channel lie within the record.
    pub open spec fn wf(&self) -> bool {
        self.pos + self.per_record * self.elem_bytes <= self.record_length
    }

    /// The offset of value `k` of the channel in the buffer, the values
    /// counted through all records.
    pub open spec fn elem_start(&self, k: int) -> int {
        (k / self.per_record as int) * self.record_length + self.pos + (k % self.per_record as int)
            * self.elem_bytes
    }

    /// The bytes of value `k` of the channel in `chunk`.
    pub open spec fn elem(&self, chunk: Seq<u8>, k: int) -> Seq<u8> {
        field(chunk, self.elem_start(k), self.elem_bytes as int)
    }
}

/// How the bytes of a value become the stored number.
#[derive(Debug, Clone, Copy, PartialEq, Eq, Structural)]
pub enum ValueRule {
    /// The bytes are an unsigned integer, or the bits of a float.
    Unsigned,
    /// The bytes are an integer in two's complement.
    Signed,
}

/// The rule by which the values of a numeric kind are read.
pub open spec fn value_rule(kind: ElemKind) -> ValueRule {
    if kind.signed() {
        ValueRule::Signed
    } else {
        ValueRule::Unsigned
    }
}

/// The number that is stored for a value with the given bytes.
pub open spec fn elem_value(rule: ValueRule, bytes: Seq<u8>, big_endian: bool) -> int {
    match rule {
        ValueRule::Unsigned => uint_of(bytes, big_endian) as int,
        ValueRule::Signed => int_of(bytes, big_endian),
    }
}

/// The text that is stored for a string value with the given bytes: decoded
/// in the channel's encoding, without the NUL padding at its end.
pub open spec fn text_value(kind: ElemKind, bytes: Seq<u8>, big_endian: bool) -> Seq<char> {
    match kind {
        ElemKind::StringUTF8 => trim_end(utf8_text(bytes), '\0'),
        ElemKind::StringUTF16 => trim_end(utf_16_text(bytes, big_endian), '\0'),
        _ => trim_end(windows_1252_text(bytes), '\0'),
    }
}

/// A column after `total` values were taken from `chunk` into the places
/// from `base` on, each made of its bytes by `value`; the other places keep
/// what they held.
pub open spec fn decoded<T>(
    old: Seq<T>,
    chunk: Seq<u8>,
    lay: RecordLayout,
    base: int,
    total: int,
    value: spec_fn(Seq<u8>) -> T,
) -> Seq<T> {
    Seq::new(
        old.len(),
        |k: int|
            if base <= k < base + total {
                value(lay.elem(chunk, k - base))
            } else {
                old[k]
            },
    )
}

/// A column of numbers after `total` values were decoded from `chunk` into
/// the places from `base` on; the other places keep what they held.
pub open spec fn decoded_ints(
    old: Seq<int>,
    chunk: Seq<u8>,
    lay: RecordLayout,
    base: int,
    total: int,
    rule: ValueRule,
) -> Seq<int> {
    decoded(old, chunk, lay, base, total, |b: Seq<u8>| elem_value(rule, b, lay.big_endian))
}

/// A column of strings after `total` values were decoded from `chunk` into
/// the places from `base` on.
pub open spec fn decoded_strings(
    old: Seq<Seq<char>>,
    chunk: Seq<u8>,
    lay: RecordLayout,
    base: int,
    total: int,
    kind: ElemKind,
) -> Seq<Seq<char>> {
    decoded(old, chunk, lay, base, total, |b: Seq<u8>| text_value(kind, b, lay.big_endian))
}

/// A column of byte strings after `total` values were copied from `chunk`
/// into the places from `base` on.
pub open spec fn decoded_rows(
    old: Seq<Seq<u8>>,
    chunk: Seq<u8>,
    lay: RecordLayout,
    base: int,
    total: int,
) -> Seq<Seq<u8>> {
    decoded(old, chunk, lay, base, total, |b: Seq<u8>| b)
}

/// Value `k` of a channel belongs to record `k / per_record`, and lies
/// within the buffer when that record does.
pub proof fn lemma_elem_in_chunk(lay: RecordLayout, n_records: int, chunk_len: int, k: int)
    requires
        lay.wf(),
        0 <= n_records,
        n_records * lay.record_length <= chunk_len,
        0 <= k < n_records * lay.per_record,
    ensures
        lay.per_record > 0,
        0 <= k / (lay.per_record as int) < n_records,
        0 <= k % (lay.per_record as int) < lay.per_record,
        0 <= (k / (lay.per_record as int)) * lay.record_length,
        (k / (lay.per_record as int)) * lay.record_length + lay.record_length <= chunk_len,
        0 <= (k % (lay.per_record as int)) * lay.elem_bytes,
        (k % (lay.per_record as int)) * lay.elem_bytes + lay.elem_bytes <= lay.per_record
            * lay.elem_bytes,
        0 <= lay.elem_start(k),
        lay.elem_start(k) + lay.elem_bytes <= chunk_len,
{
    let per = lay.per_record as int;
    let rl = lay.record_length as int;
    let eb = lay.elem_bytes as int;
    assert(per > 0) by (nonlinear_arith)
        requires
            0 <= k < n_records * per,
            0 <= n_records,
            per >= 0,
    ;
    let r = k / per;
    let j = k % per;
    vstd::arithmetic::div_mod::lemma_fundamental_div_mod(k, per);
    vstd::arithmetic::div_mod::lemma_mod_bound(k, per);
    vstd::arithmetic::div_mod::lemma_div_pos_is_pos(k, per);
    assert(r < n_records) by (nonlinear_arith)
        requires
            k == per * r + j,
            0 <= j,
            k < n_records * per,
            per > 0,
    ;
    assert(0 <= r * rl && r * rl + rl <= n_records * rl) by (nonlinear_arith)
        requires
            0 <= r < n_records,
            rl >= 0,
    ;
    assert(0 <= j * eb && j * eb + eb <= per * eb) by (nonlinear_arith)
        requires
            0 <= j < per,
            eb >= 0,
    ;
}

/// Computes the offset of value `k` of the channel in a buffer of
/// `n_records` records.
pub fn elem_offset(lay: &RecordLayout, n_records: usize, chunk_len: usize, k: usize) -> (start:
    usize)
    requires
        lay.wf(),
        n_records * lay.record_length <= chunk_len,
        k < n_records * lay.per_record,
    ensures
        start == lay.elem_start(k as int),
        start + lay.elem_bytes <= chunk_len,
{
    proof {
        lemma_elem_in_chunk(*lay, n_records as int, chunk_len as int, k as int);
    }
    let r = k / lay.per_record;
    let j = k % lay.per_record;
    r * lay.record_length + lay.pos + j * lay.elem_bytes
}

/// In two buffers put together, the values of the first buffer's records
/// are where they were.
pub proof fn lemma_elem_of_first(lay: RecordLayout, a: Seq<u8>, b: Seq<u8>, n_a: int, k: int)
    requires
        lay.wf(),
        0 <= n_a,
        a.len() == n_a * lay.record_length,
        0 <= k < n_a * lay.per_record,
    ensures
        lay.elem(a + b, k) == lay.elem(a, k),
{
    lemma_elem_in_chunk(lay, n_a, a.len() as int, k);
    assert(lay.elem(a + b, k) =~= lay.elem(a, k));
}

/// In two buffers put together, the values of the second buffer's records
/// follow those of the first.
pub proof fn lemma_elem_of_second(
    lay: RecordLayout,
    a: Seq<u8>,
    b: Seq<u8>,
    n_a: int,
    n_b: int,
    j: int,
)
    requires
        lay.wf(),
        0 <= n_a,
        0 <= n_b,
        a.len() == n_a * lay.record_length,
        n_b * lay.record_length <= b.len(),
        0 <= j < n_b * lay.per_record,
    ensures
        lay.elem(a + b, n_a * lay.per_record + j) == lay.elem(b, j),
{
    let per = lay.per_record as int;
    lemma_elem_in_chunk(lay, n_b, b.len() as int, j);
    vstd::arithmetic::div_mod::lemma_fundamental_div_mod(j, per);
    let k = n_a * per + j;
    assert(k == per * (n_a + j / per) + j % per) by (nonlinear_arith)
        requires
            k == n_a * per + j,
            j == per * (j / per) + j % per,
    ;
    vstd::arithmetic::div_mod::lemma_fundamental_div_mod_converse(
        k,
        per,
        n_a + j / per,
        j % per,
    );
    assert(lay.elem_start(k) == a.len() + lay.elem_start(j)) by (nonlinear_arith)
        requires
            lay.elem_start(k) == (n_a + j / per) * lay.record_length + lay.pos + (j % per)
                * lay.elem_bytes,
            lay.elem_start(j) == (j / per) * lay.record_length + lay.pos + (j % per)
                * lay.elem_bytes,
            a.len() == n_a * lay.record_length,
    ;
    assert(lay.elem(a + b, k) =~= lay.elem(b, j));
}

/// Decoding the records of one buffer and then those of the next gives the
/// same column as decoding the two buffers put together.
pub proof fn lemma_decoded_in_two<T>(
    old: Seq<T>,
    a: Seq<u8>,
    b: Seq<u8>,
    lay: RecordLayout,
    base: int,
    n_a: int,
    n_b: int,
    value: spec_fn(Seq<u8>) -> T,
)
    requires
        lay.wf(),
        0 <= n_a,
        0 <= n_b,
        a.len() == n_a * lay.record_length,
        n_b * lay.record_length <= b.len(),
    ensures
        decoded(
            decoded(old, a, lay, base, n_a * lay.per_record, value),
            b,
            lay,
            base + n_a * lay.per_record,
            n_b * lay.per_record,
            value,
        ) == decoded(old, a + b, lay, base, (n_a + n_b) * lay.per_record, value),
{
    let per = lay.per_record as int;
    let t_a = n_a * per;
    let t_b = n_b * per;
    assert((n_a + n_b) * per == t_a + t_b && t_a >= 0 && t_b >= 0) by (nonlinear_arith)
        requires
            t_a == n_a * per,
            t_b == n_b * per,
            n_a >= 0,
            n_b >= 0,
            per >= 0,
    ;
    let first = decoded(old, a, lay, base, t_a, value);
    let both = decoded(first, b, lay, base + t_a, t_b, value);
    let whole = decoded(old, a + b, lay, base, t_a + t_b, value);
    assert forall|k: int| 0 <= k < old.len() implies both[k] == whole[k] by {
        if base <= k < base + t_a {
            lemma_elem_of_first(lay, a, b, n_a, k - base);
        } else if base + t_a <= k < base + t_a + t_b {
            lemma_elem_of_second(lay, a, b, n_a, n_b, k - base - t_a);
            assert(k - base == n_a * per + (k - base - t_a));
        }
    }
    assert(both =~= whole);
}

} // verus!
