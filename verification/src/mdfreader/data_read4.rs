//! Decoding of fixed-length records: the values of each channel are taken
//! out of the records of a buffer and stored in the channel's column.

use crate::bytes::int_bytes;
use crate::error::MdfError;
use crate::bytes::lemma_int_round_trip;
use crate::bytes::lemma_pow256_values;
use crate::bytes::lemma_uint_round_trip;
use crate::bytes::pow256;
use crate::bytes::uint_bytes;
use crate::bytes::read_int;
use crate::bytes::read_uint;
use crate::bytes::vec_at;
use crate::mdfreader::channel_data::byte_rows;
use crate::mdfreader::channel_data::counting_ints;
use crate::mdfreader::channel_data::ints_i16;
use crate::mdfreader::channel_data::ints_i32;
use crate::mdfreader::channel_data::ints_i64;
use crate::mdfreader::channel_data::ints_i8;
use crate::mdfreader::channel_data::ints_u16;
use crate::mdfreader::channel_data::ints_u32;
use crate::mdfreader::channel_data::ints_u64;
use crate::mdfreader::channel_data::ints_u8;
use crate::mdfreader::channel_data::texts;
use crate::mdfinfo::mdfinfo4::Cn4;
use crate::mdfinfo::mdfinfo4::Compo;
use crate::mdfinfo::mdfinfo4::Composition;
use crate::mdfinfo::mdfinfo4::InvalidMask;
use crate::mdfreader::channel_data::ChannelData;
use crate::mdfreader::channel_data::ElemKind;
use crate::mdfreader::record_layout::decoded_ints;
use crate::mdfreader::record_layout::decoded_rows;
use crate::mdfreader::record_layout::decoded_strings;
use crate::mdfreader::record_layout::elem_offset;
use crate::mdfreader::record_layout::elem_value;
use crate::mdfreader::record_layout::lemma_decoded_in_two;
use crate::mdfreader::record_layout::text_value;
use crate::mdfreader::record_layout::value_rule;
use crate::mdfreader::record_layout::RecordLayout;
use crate::mdfreader::record_layout::ValueRule;
use crate::text::sbc_string;
use crate::text::utf16_string;
use crate::text::utf8_string;
use crate::text::MAX_TEXT_BYTES;
use vstd::prelude::*;
use vstd::slice::slice_subrange;

verus! {

/// Decodes `total` values of at most 1 byte as two's complement integers into `v`, from
/// place `base` on.
fn fill_i8(
    v: &mut Vec<i8>,
    chunk: &[u8],
    lay: &RecordLayout,
    n_records: usize,
    base: usize,
    total: usize,
)
    requires
        lay.wf(),
        1 <= lay.elem_bytes <= 1,
        n_records * lay.record_length <= chunk.len(),
        total == n_records * lay.per_record,
        base + total <= old(v).len(),
    ensures
        ints_i8(final(v)@) == decoded_ints(
            ints_i8(old(v)@),
            chunk@,
            *lay,
            base as int,
            total as int,
            ValueRule::Signed,
        ),
{
    let mut k: usize = 0;
    while k < total
        invariant
            k <= total,
            lay.wf(),
            1 <= lay.elem_bytes <= 1,
            n_records * lay.record_length <= chunk.len(),
            total == n_records * lay.per_record,
            base + total <= v.len(),
            v.len() == old(v).len(),
            ints_i8(v@) == decoded_ints(
                ints_i8(old(v)@),
                chunk@,
                *lay,
                base as int,
                k as int,
                ValueRule::Signed,
            ),
        decreases total - k,
    {
        let start = elem_offset(lay, n_records, chunk.len(), k);
        let x = read_int(chunk, start, lay.elem_bytes, lay.big_endian);
        proof {
            lemma_pow256_values();
        }
        let ghost before = v@;
        v[base + k] = x as i8;
        proof {
            assert(ints_i8(v@) =~= decoded_ints(
                ints_i8(old(v)@),
                chunk@,
                *lay,
                base as int,
                k + 1,
                ValueRule::Signed,
            )) by {
                assert(forall|i: int|
                    0 <= i < v@.len() && i != base + k ==> v@[i] == before[i] && ints_i8(before)[i]
                        == before[i] as int);
            }
        }
        k += 1;
    }
    proof {
        assert(ints_i8(old(v)@) =~= decoded_ints(
            ints_i8(old(v)@),
            chunk@,
            *lay,
            base as int,
            0,
            ValueRule::Signed,
        ));
    }
}

/// Decodes `total` values of at most 1 byte as unsigned integers into `v`, from
/// place `base` on.
fn fill_u8(
    v: &mut Vec<u8>,
    chunk: &[u8],
    lay: &RecordLayout,
    n_records: usize,
    base: usize,
    total: usize,
)
    requires
        lay.wf(),
        1 <= lay.elem_bytes <= 1,
        n_records * lay.record_length <= chunk.len(),
        total == n_records * lay.per_record,
        base + total <= old(v).len(),
    ensures
        ints_u8(final(v)@) == decoded_ints(
            ints_u8(old(v)@),
            chunk@,
            *lay,
            base as int,
            total as int,
            ValueRule::Unsigned,
        ),
{
    let mut k: usize = 0;
    while k < total
        invariant
            k <= total,
            lay.wf(),
            1 <= lay.elem_bytes <= 1,
            n_records * lay.record_length <= chunk.len(),
            total == n_records * lay.per_record,
            base + total <= v.len(),
            v.len() == old(v).len(),
            ints_u8(v@) == decoded_ints(
                ints_u8(old(v)@),
                chunk@,
                *lay,
                base as int,
                k as int,
                ValueRule::Unsigned,
            ),
        decreases total - k,
    {
        let start = elem_offset(lay, n_records, chunk.len(), k);
        let x = read_uint(chunk, start, lay.elem_bytes, lay.big_endian);
        proof {
            lemma_pow256_values();
        }
        let ghost before = v@;
        v[base + k] = x as u8;
        proof {
            assert(ints_u8(v@) =~= decoded_ints(
                ints_u8(old(v)@),
                chunk@,
                *lay,
                base as int,
                k + 1,
                ValueRule::Unsigned,
            )) by {
                assert(forall|i: int|
                    0 <= i < v@.len() && i != base + k ==> v@[i] == before[i] && ints_u8(before)[i]
                        == before[i] as int);
            }
        }
        k += 1;
    }
    proof {
        assert(ints_u8(old(v)@) =~= decoded_ints(
            ints_u8(old(v)@),
            chunk@,
            *lay,
            base as int,
            0,
            ValueRule::Unsigned,
        ));
    }
}

/// Decodes `total` values of at most 2 bytes as two's complement integers into `v`, from
/// place `base` on.
fn fill_i16(
    v: &mut Vec<i16>,
    chunk: &[u8],
    lay: &RecordLayout,
    n_records: usize,
    base: usize,
    total: usize,
)
    requires
        lay.wf(),
        1 <= lay.elem_bytes <= 2,
        n_records * lay.record_length <= chunk.len(),
        total == n_records * lay.per_record,
        base + total <= old(v).len(),
    ensures
        ints_i16(final(v)@) == decoded_ints(
            ints_i16(old(v)@),
            chunk@,
            *lay,
            base as int,
            total as int,
            ValueRule::Signed,
        ),
{
    let mut k: usize = 0;
    while k < total
        invariant
            k <= total,
            lay.wf(),
            1 <= lay.elem_bytes <= 2,
            n_records * lay.record_length <= chunk.len(),
            total == n_records * lay.per_record,
            base + total <= v.len(),
            v.len() == old(v).len(),
            ints_i16(v@) == decoded_ints(
                ints_i16(old(v)@),
                chunk@,
                *lay,
                base as int,
                k as int,
                ValueRule::Signed,
            ),
        decreases total - k,
    {
        let start = elem_offset(lay, n_records, chunk.len(), k);
        let x = read_int(chunk, start, lay.elem_bytes, lay.big_endian);
        proof {
            lemma_pow256_values();
        }
        let ghost before = v@;
        v[base + k] = x as i16;
        proof {
            assert(ints_i16(v@) =~= decoded_ints(
                ints_i16(old(v)@),
                chunk@,
                *lay,
                base as int,
                k + 1,
                ValueRule::Signed,
            )) by {
                assert(forall|i: int|
                    0 <= i < v@.len() && i != base + k ==> v@[i] == before[i] && ints_i16(before)[i]
                        == before[i] as int);
            }
        }
        k += 1;
    }
    proof {
        assert(ints_i16(old(v)@) =~= decoded_ints(
            ints_i16(old(v)@),
            chunk@,
            *lay,
            base as int,
            0,
            ValueRule::Signed,
        ));
    }
}

/// Decodes `total` values of at most 2 bytes as unsigned integers into `v`, from
/// place `base` on.
fn fill_u16(
    v: &mut Vec<u16>,
    chunk: &[u8],
    lay: &RecordLayout,
    n_records: usize,
    base: usize,
    total: usize,
)
    requires
        lay.wf(),
        1 <= lay.elem_bytes <= 2,
        n_records * lay.record_length <= chunk.len(),
        total == n_records * lay.per_record,
        base + total <= old(v).len(),
    ensures
        ints_u16(final(v)@) == decoded_ints(
            ints_u16(old(v)@),
            chunk@,
            *lay,
            base as int,
            total as int,
            ValueRule::Unsigned,
        ),
{
    let mut k: usize = 0;
    while k < total
        invariant
            k <= total,
            lay.wf(),
            1 <= lay.elem_bytes <= 2,
            n_records * lay.record_length <= chunk.len(),
            total == n_records * lay.per_record,
            base + total <= v.len(),
            v.len() == old(v).len(),
            ints_u16(v@) == decoded_ints(
                ints_u16(old(v)@),
                chunk@,
                *lay,
                base as int,
                k as int,
                ValueRule::Unsigned,
            ),
        decreases total - k,
    {
        let start = elem_offset(lay, n_records, chunk.len(), k);
        let x = read_uint(chunk, start, lay.elem_bytes, lay.big_endian);
        proof {
            lemma_pow256_values();
        }
        let ghost before = v@;
        v[base + k] = x as u16;
        proof {
            assert(ints_u16(v@) =~= decoded_ints(
                ints_u16(old(v)@),
                chunk@,
                *lay,
                base as int,
                k + 1,
                ValueRule::Unsigned,
            )) by {
                assert(forall|i: int|
                    0 <= i < v@.len() && i != base + k ==> v@[i] == before[i] && ints_u16(before)[i]
                        == before[i] as int);
            }
        }
        k += 1;
    }
    proof {
        assert(ints_u16(old(v)@) =~= decoded_ints(
            ints_u16(old(v)@),
            chunk@,
            *lay,
            base as int,
            0,
            ValueRule::Unsigned,
        ));
    }
}

/// Decodes `total` values of at most 4 bytes as two's complement integers into `v`, from
/// place `base` on.
fn fill_i32(
    v: &mut Vec<i32>,
    chunk: &[u8],
    lay: &RecordLayout,
    n_records: usize,
    base: usize,
    total: usize,
)
    requires
        lay.wf(),
        1 <= lay.elem_bytes <= 4,
        n_records * lay.record_length <= chunk.len(),
        total == n_records * lay.per_record,
        base + total <= old(v).len(),
    ensures
        ints_i32(final(v)@) == decoded_ints(
            ints_i32(old(v)@),
            chunk@,
            *lay,
            base as int,
            total as int,
            ValueRule::Signed,
        ),
{
    let mut k: usize = 0;
    while k < total
        invariant
            k <= total,
            lay.wf(),
            1 <= lay.elem_bytes <= 4,
            n_records * lay.record_length <= chunk.len(),
            total == n_records * lay.per_record,
            base + total <= v.len(),
            v.len() == old(v).len(),
            ints_i32(v@) == decoded_ints(
                ints_i32(old(v)@),
                chunk@,
                *lay,
                base as int,
                k as int,
                ValueRule::Signed,
            ),
        decreases total - k,
    {
        let start = elem_offset(lay, n_records, chunk.len(), k);
        let x = read_int(chunk, start, lay.elem_bytes, lay.big_endian);
        proof {
            lemma_pow256_values();
        }
        let ghost before = v@;
        v[base + k] = x as i32;
        proof {
            assert(ints_i32(v@) =~= decoded_ints(
                ints_i32(old(v)@),
                chunk@,
                *lay,
                base as int,
                k + 1,
                ValueRule::Signed,
            )) by {
                assert(forall|i: int|
                    0 <= i < v@.len() && i != base + k ==> v@[i] == before[i] && ints_i32(before)[i]
                        == before[i] as int);
            }
        }
        k += 1;
    }
    proof {
        assert(ints_i32(old(v)@) =~= decoded_ints(
            ints_i32(old(v)@),
            chunk@,
            *lay,
            base as int,
            0,
            ValueRule::Signed,
        ));
    }
}

/// Decodes `total` values of at most 4 bytes as unsigned integers into `v`, from
/// place `base` on.
fn fill_u32(
    v: &mut Vec<u32>,
    chunk: &[u8],
    lay: &RecordLayout,
    n_records: usize,
    base: usize,
    total: usize,
)
    requires
        lay.wf(),
        1 <= lay.elem_bytes <= 4,
        n_records * lay.record_length <= chunk.len(),
        total == n_records * lay.per_record,
        base + total <= old(v).len(),
    ensures
        ints_u32(final(v)@) == decoded_ints(
            ints_u32(old(v)@),
            chunk@,
            *lay,
            base as int,
            total as int,
            ValueRule::Unsigned,
        ),
{
    let mut k: usize = 0;
    while k < total
        invariant
            k <= total,
            lay.wf(),
            1 <= lay.elem_bytes <= 4,
            n_records * lay.record_length <= chunk.len(),
            total == n_records * lay.per_record,
            base + total <= v.len(),
            v.len() == old(v).len(),
            ints_u32(v@) == decoded_ints(
                ints_u32(old(v)@),
                chunk@,
                *lay,
                base as int,
                k as int,
                ValueRule::Unsigned,
            ),
        decreases total - k,
    {
        let start = elem_offset(lay, n_records, chunk.len(), k);
        let x = read_uint(chunk, start, lay.elem_bytes, lay.big_endian);
        proof {
            lemma_pow256_values();
        }
        let ghost before = v@;
        v[base + k] = x as u32;
        proof {
            assert(ints_u32(v@) =~= decoded_ints(
                ints_u32(old(v)@),
                chunk@,
                *lay,
                base as int,
                k + 1,
                ValueRule::Unsigned,
            )) by {
                assert(forall|i: int|
                    0 <= i < v@.len() && i != base + k ==> v@[i] == before[i] && ints_u32(before)[i]
                        == before[i] as int);
            }
        }
        k += 1;
    }
    proof {
        assert(ints_u32(old(v)@) =~= decoded_ints(
            ints_u32(old(v)@),
            chunk@,
            *lay,
            base as int,
            0,
            ValueRule::Unsigned,
        ));
    }
}

/// Decodes `total` values of at most 8 bytes as two's complement integers into `v`, from
/// place `base` on.
fn fill_i64(
    v: &mut Vec<i64>,
    chunk: &[u8],
    lay: &RecordLayout,
    n_records: usize,
    base: usize,
    total: usize,
)
    requires
        lay.wf(),
        1 <= lay.elem_bytes <= 8,
        n_records * lay.record_length <= chunk.len(),
        total == n_records * lay.per_record,
        base + total <= old(v).len(),
    ensures
        ints_i64(final(v)@) == decoded_ints(
            ints_i64(old(v)@),
            chunk@,
            *lay,
            base as int,
            total as int,
            ValueRule::Signed,
        ),
{
    let mut k: usize = 0;
    while k < total
        invariant
            k <= total,
            lay.wf(),
            1 <= lay.elem_bytes <= 8,
            n_records * lay.record_length <= chunk.len(),
            total == n_records * lay.per_record,
            base + total <= v.len(),
            v.len() == old(v).len(),
            ints_i64(v@) == decoded_ints(
                ints_i64(old(v)@),
                chunk@,
                *lay,
                base as int,
                k as int,
                ValueRule::Signed,
            ),
        decreases total - k,
    {
        let start = elem_offset(lay, n_records, chunk.len(), k);
        let x = read_int(chunk, start, lay.elem_bytes, lay.big_endian);
        proof {
            lemma_pow256_values();
        }
        let ghost before = v@;
        v[base + k] = x as i64;
        proof {
            assert(ints_i64(v@) =~= decoded_ints(
                ints_i64(old(v)@),
                chunk@,
                *lay,
                base as int,
                k + 1,
                ValueRule::Signed,
            )) by {
                assert(forall|i: int|
                    0 <= i < v@.len() && i != base + k ==> v@[i] == before[i] && ints_i64(before)[i]
                        == before[i] as int);
            }
        }
        k += 1;
    }
    proof {
        assert(ints_i64(old(v)@) =~= decoded_ints(
            ints_i64(old(v)@),
            chunk@,
            *lay,
            base as int,
            0,
            ValueRule::Signed,
        ));
    }
}

/// Decodes `total` values of at most 8 bytes as unsigned integers into `v`, from
/// place `base` on.
fn fill_u64(
    v: &mut Vec<u64>,
    chunk: &[u8],
    lay: &RecordLayout,
    n_records: usize,
    base: usize,
    total: usize,
)
    requires
        lay.wf(),
        1 <= lay.elem_bytes <= 8,
        n_records * lay.record_length <= chunk.len(),
        total == n_records * lay.per_record,
        base + total <= old(v).len(),
    ensures
        ints_u64(final(v)@) == decoded_ints(
            ints_u64(old(v)@),
            chunk@,
            *lay,
            base as int,
            total as int,
            ValueRule::Unsigned,
        ),
{
    let mut k: usize = 0;
    while k < total
        invariant
            k <= total,
            lay.wf(),
            1 <= lay.elem_bytes <= 8,
            n_records * lay.record_length <= chunk.len(),
            total == n_records * lay.per_record,
            base + total <= v.len(),
            v.len() == old(v).len(),
            ints_u64(v@) == decoded_ints(
                ints_u64(old(v)@),
                chunk@,
                *lay,
                base as int,
                k as int,
                ValueRule::Unsigned,
            ),
        decreases total - k,
    {
        let start = elem_offset(lay, n_records, chunk.len(), k);
        let x = read_uint(chunk, start, lay.elem_bytes, lay.big_endian);
        proof {
            lemma_pow256_values();
        }
        let ghost before = v@;
        v[base + k] = x as u64;
        proof {
            assert(ints_u64(v@) =~= decoded_ints(
                ints_u64(old(v)@),
                chunk@,
                *lay,
                base as int,
                k + 1,
                ValueRule::Unsigned,
            )) by {
                assert(forall|i: int|
                    0 <= i < v@.len() && i != base + k ==> v@[i] == before[i] && ints_u64(before)[i]
                        == before[i] as int);
            }
        }
        k += 1;
    }
    proof {
        assert(ints_u64(old(v)@) =~= decoded_ints(
            ints_u64(old(v)@),
            chunk@,
            *lay,
            base as int,
            0,
            ValueRule::Unsigned,
        ));
    }
}

/// Decodes `total` strings into `v`, from place `base` on.
fn fill_strings(
    v: &mut Vec<String>,
    chunk: &[u8],
    lay: &RecordLayout,
    n_records: usize,
    base: usize,
    total: usize,
    kind: ElemKind,
)
    requires
        lay.wf(),
        kind.text(),
        lay.elem_bytes <= MAX_TEXT_BYTES,
        n_records * lay.record_length <= chunk.len(),
        total == n_records * lay.per_record,
        base + total <= old(v).len(),
    ensures
        texts(final(v)@) == decoded_strings(
            texts(old(v)@),
            chunk@,
            *lay,
            base as int,
            total as int,
            kind,
        ),
{
    let mut k: usize = 0;
    while k < total
        invariant
            k <= total,
            lay.wf(),
            kind.text(),
            lay.elem_bytes <= MAX_TEXT_BYTES,
            n_records * lay.record_length <= chunk.len(),
            total == n_records * lay.per_record,
            base + total <= v.len(),
            v.len() == old(v).len(),
            texts(v@) == decoded_strings(texts(old(v)@), chunk@, *lay, base as int, k as int, kind),
        decreases total - k,
    {
        let start = elem_offset(lay, n_records, chunk.len(), k);
        let bytes = slice_subrange(chunk, start, start + lay.elem_bytes);
        let s = match kind {
            ElemKind::StringUTF8 => utf8_string(bytes),
            ElemKind::StringUTF16 => utf16_string(bytes, lay.big_endian),
            _ => sbc_string(bytes),
        };
        let ghost before = v@;
        v[base + k] = s;
        proof {
            assert(bytes@ =~= lay.elem(chunk@, k as int));
            assert(s@ == text_value(kind, lay.elem(chunk@, k as int), lay.big_endian));
            assert(texts(v@) =~= decoded_strings(
                texts(old(v)@),
                chunk@,
                *lay,
                base as int,
                k + 1,
                kind,
            )) by {
                assert(forall|i: int|
                    0 <= i < v@.len() && i != base + k ==> v@[i] == before[i] && texts(before)[i]
                        == before[i]@);
            }
        }
        k += 1;
    }
    proof {
        assert(texts(old(v)@) =~= decoded_strings(
            texts(old(v)@),
            chunk@,
            *lay,
            base as int,
            0,
            kind,
        ));
    }
}

/// Copies `total` byte strings into `v`, from place `base` on.
fn fill_rows(
    v: &mut Vec<Vec<u8>>,
    chunk: &[u8],
    lay: &RecordLayout,
    n_records: usize,
    base: usize,
    total: usize,
)
    requires
        lay.wf(),
        n_records * lay.record_length <= chunk.len(),
        total == n_records * lay.per_record,
        base + total <= old(v).len(),
    ensures
        byte_rows(final(v)@) == decoded_rows(
            byte_rows(old(v)@),
            chunk@,
            *lay,
            base as int,
            total as int,
        ),
{
    let mut k: usize = 0;
    while k < total
        invariant
            k <= total,
            lay.wf(),
            n_records * lay.record_length <= chunk.len(),
            total == n_records * lay.per_record,
            base + total <= v.len(),
            v.len() == old(v).len(),
            byte_rows(v@) == decoded_rows(byte_rows(old(v)@), chunk@, *lay, base as int, k as int),
        decreases total - k,
    {
        let start = elem_offset(lay, n_records, chunk.len(), k);
        let row = vec_at(chunk, start, lay.elem_bytes);
        let ghost before = v@;
        v[base + k] = row;
        proof {
            assert(byte_rows(v@) =~= decoded_rows(
                byte_rows(old(v)@),
                chunk@,
                *lay,
                base as int,
                k + 1,
            )) by {
                assert(forall|i: int|
                    0 <= i < v@.len() && i != base + k ==> v@[i] == before[i] && byte_rows(
                        before,
                    )[i] == before[i]@);
            }
        }
        k += 1;
    }
    proof {
        assert(byte_rows(old(v)@) =~= decoded_rows(
            byte_rows(old(v)@),
            chunk@,
            *lay,
            base as int,
            0,
        ));
    }
}

/// The channel types whose values lie in the records themselves: fixed
/// length (0), master (2), synchronisation (4) and maximum length (5).
pub open spec fn fixed_length_type(cn_type: u8) -> bool {
    cn_type == 0 || cn_type == 2 || cn_type == 4 || cn_type == 5
}

/// The number of bytes that one stored value of a channel takes in the
/// record. `None` where a value of `n_bytes` bytes cannot be held by the
/// kind's column.
///
/// Integers of 24, 48 and 64 bits may be stored in fewer bytes than their
/// column is wide; they are then read in that shorter width and extended.
pub open spec fn value_bytes(kind: ElemKind, n_bytes: nat) -> Option<nat> {
    match kind {
        ElemKind::Int8 | ElemKind::UInt8 | ElemKind::FixedSizeByteArray => Some(1),
        ElemKind::Int16 | ElemKind::UInt16 | ElemKind::Float16 | ElemKind::Complex16 => Some(2),
        ElemKind::Int32 | ElemKind::UInt32 | ElemKind::Float32 | ElemKind::Complex32 => Some(4),
        ElemKind::Float64 | ElemKind::Complex64 => Some(8),
        ElemKind::Int24 | ElemKind::UInt24 => if 1 <= n_bytes <= 4 {
            Some(n_bytes)
        } else {
            None
        },
        ElemKind::Int48 | ElemKind::UInt48 | ElemKind::Int64 | ElemKind::UInt64 => if 1 <= n_bytes
            <= 8 {
            Some(n_bytes)
        } else {
            None
        },
        ElemKind::StringSBC | ElemKind::StringUTF8 | ElemKind::StringUTF16
        | ElemKind::VariableSizeByteArray => if n_bytes <= MAX_TEXT_BYTES {
            Some(n_bytes)
        } else {
            None
        },
    }
}

/// The number of stored values that one record holds of a channel whose
/// samples have `pnd` entries each.
pub open spec fn values_per_record(kind: ElemKind, n_bytes: nat, pnd: nat) -> nat {
    if kind is FixedSizeByteArray {
        n_bytes
    } else {
        kind.components() * pnd
    }
}

/// The number of entries in one sample of the channel. `None` where the
/// column is one of arrays and the channel has no array block.
pub open spec fn entries_per_sample(cn: Cn4) -> Option<nat> {
    if cn.data.shape().is_some() {
        match cn.composition {
            Some(Composition { block: Compo::CA(ca) }) => Some(ca.pnd as nat),
            _ => None,
        }
    } else {
        Some(1)
    }
}

/// How the values of a channel are packed: the number of bytes of one stored
/// value, and the number of stored values per record.
#[derive(Debug, Clone, Copy, PartialEq, Eq, Structural)]
pub struct ValueShape {
    pub elem_bytes: usize,
    pub per_record: usize,
}

/// The number of bytes of one stored value of the channel, and the number
/// of stored values per record. `None` where the channel cannot be decoded:
/// its values do not fit its column, or its array block is missing.
pub open spec fn value_shape(cn: Cn4) -> Option<ValueShape> {
    match (value_bytes(cn.data.kind(), cn.n_bytes as nat), entries_per_sample(cn)) {
        (Some(eb), Some(pnd)) => {
            let per = values_per_record(cn.data.kind(), cn.n_bytes as nat, pnd);
            if per <= usize::MAX {
                Some(ValueShape { elem_bytes: eb as usize, per_record: per as usize })
            } else {
                None
            }
        },
        _ => None,
    }
}

/// The place of the channel in records of `record_length` bytes. `None`
/// where the channel cannot be decoded, or does not lie within the record.
pub open spec fn channel_layout(cn: Cn4, record_length: nat) -> Option<RecordLayout> {
    match value_shape(cn) {
        Some(ValueShape { elem_bytes: eb, per_record: per }) => {
            if cn.pos_byte_beg + per * eb <= record_length {
                Some(
                    RecordLayout {
                        record_length: record_length as usize,
                        pos: cn.pos_byte_beg as usize,
                        elem_bytes: eb,
                        per_record: per,
                        big_endian: cn.endian,
                    },
                )
            } else {
                None
            }
        },
        None => None,
    }
}

/// The layout of a block that holds the values of this channel alone, one
/// sample after the other. `None` where the channel cannot be decoded.
pub open spec fn single_channel_layout(cn: Cn4) -> Option<RecordLayout> {
    match value_shape(cn) {
        Some(ValueShape { elem_bytes: eb, per_record: per }) => {
            if 0 < per * eb <= usize::MAX {
                Some(
                    RecordLayout {
                        record_length: (per * eb) as usize,
                        pos: 0,
                        elem_bytes: eb,
                        per_record: per,
                        big_endian: cn.endian,
                    },
                )
            } else {
                None
            }
        },
        None => None,
    }
}

/// The layout by which `chunk` is decoded into the channel from sample
/// `previous_index` on. `None` where nothing is decoded: the channel's values
/// do not lie in the records, the layout does not fit, or the column is too
/// short for the records of the buffer.
pub open spec fn decode_plan(cn: Cn4, chunk_len: nat, record_length: nat, previous_index: nat)
    -> Option<RecordLayout> {
    if fixed_length_type(cn.block.cn_type) && record_length > 0 {
        match channel_layout(cn, record_length) {
            Some(lay) => if (previous_index + chunk_len / record_length) * lay.per_record
                <= cn.data.spec_len() {
                Some(lay)
            } else {
                None
            },
            None => None,
        }
    } else {
        None
    }
}

/// `new` is `old` after `total` values were decoded from `chunk` into the
/// places from `base` on: the same representation, and each stored item
/// either decoded or untouched.
pub open spec fn data_decoded(
    old: ChannelData,
    new: ChannelData,
    chunk: Seq<u8>,
    lay: RecordLayout,
    base: int,
    total: int,
) -> bool {
    let kind = old.kind();
    &&& new.kind() == kind
    &&& new.shape() == old.shape()
    &&& new.row_bytes() == old.row_bytes()
    &&& new.ints() == if kind.numeric() || kind is FixedSizeByteArray {
        decoded_ints(old.ints(), chunk, lay, base, total, value_rule(kind))
    } else {
        old.ints()
    }
    &&& new.strings() == if kind.text() {
        decoded_strings(old.strings(), chunk, lay, base, total, kind)
    } else {
        old.strings()
    }
    &&& new.rows() == if kind is VariableSizeByteArray {
        decoded_rows(old.rows(), chunk, lay, base, total)
    } else {
        old.rows()
    }
}

/// Everything of a channel but its samples, its invalidation bits and its
/// valid flag is the same in `a` and `b`.
pub open spec fn same_description(a: Cn4, b: Cn4) -> bool {
    &&& a.block == b.block
    &&& a.block_position == b.block_position
    &&& a.rec_pos == b.rec_pos
    &&& a.unique_name == b.unique_name
    &&& a.pos_byte_beg == b.pos_byte_beg
    &&& a.n_bytes == b.n_bytes
    &&& a.composition == b.composition
    &&& a.endian == b.endian
}

/// `new` is `old` after the records of `chunk` were decoded into it from
/// sample `previous_index` on.
pub open spec fn channel_decoded(
    old: Cn4,
    new: Cn4,
    chunk: Seq<u8>,
    record_length: nat,
    previous_index: nat,
) -> bool {
    &&& same_description(old, new)
    &&& new.channel_data_valid == old.channel_data_valid
    &&& match decode_plan(old, chunk.len(), record_length, previous_index) {
        Some(lay) => data_decoded(
            old.data,
            new.data,
            chunk,
            lay,
            previous_index * lay.per_record,
            (chunk.len() / record_length) * lay.per_record,
        ),
        None => new.data == old.data,
    }
}

/// Computes the number of bytes of one stored value.
fn value_bytes_of(kind: ElemKind, n_bytes: u32) -> (r: Option<usize>)
    ensures
        r is Some <==> value_bytes(kind, n_bytes as nat) is Some,
        r is Some ==> r->0 == value_bytes(kind, n_bytes as nat)->0,
{
    match kind {
        ElemKind::Int8 | ElemKind::UInt8 | ElemKind::FixedSizeByteArray => Some(1),
        ElemKind::Int16 | ElemKind::UInt16 | ElemKind::Float16 | ElemKind::Complex16 => Some(2),
        ElemKind::Int32 | ElemKind::UInt32 | ElemKind::Float32 | ElemKind::Complex32 => Some(4),
        ElemKind::Float64 | ElemKind::Complex64 => Some(8),
        ElemKind::Int24 | ElemKind::UInt24 => if 1 <= n_bytes && n_bytes <= 4 {
            Some(n_bytes as usize)
        } else {
            None
        },
        ElemKind::Int48 | ElemKind::UInt48 | ElemKind::Int64 | ElemKind::UInt64 => if 1 <= n_bytes
            && n_bytes <= 8 {
            Some(n_bytes as usize)
        } else {
            None
        },
        ElemKind::StringSBC | ElemKind::StringUTF8 | ElemKind::StringUTF16
        | ElemKind::VariableSizeByteArray => if n_bytes as usize <= MAX_TEXT_BYTES {
            Some(n_bytes as usize)
        } else {
            None
        },
    }
}

/// Computes the number of entries in one sample of the channel.
fn entries_per_sample_of(cn: &Cn4) -> (r: Option<usize>)
    ensures
        r is Some <==> entries_per_sample(*cn) is Some,
        r is Some ==> r->0 == entries_per_sample(*cn)->0,
{
    if cn.data.is_array() {
        match &cn.composition {
            Some(compo) => match &compo.block {
                Compo::CA(ca) => Some(ca.pnd),
                Compo::CN(_) => None,
            },
            None => None,
        }
    } else {
        Some(1)
    }
}

/// Computes the size of a stored value and the number of values per record.
fn value_shape_of(cn: &Cn4) -> (r: Option<ValueShape>)
    ensures
        r == value_shape(*cn),
{
    let kind = cn.data.elem_kind();
    let eb = match value_bytes_of(kind, cn.n_bytes) {
        Some(eb) => eb,
        None => {
            return None;
        },
    };
    let pnd = match entries_per_sample_of(cn) {
        Some(pnd) => pnd,
        None => {
            return None;
        },
    };
    let per_opt: Option<usize> = match kind {
        ElemKind::FixedSizeByteArray => Some(cn.n_bytes as usize),
        ElemKind::Complex16 | ElemKind::Complex32 | ElemKind::Complex64 => pnd.checked_mul(2),
        _ => Some(pnd),
    };
    match per_opt {
        Some(per) => Some(ValueShape { elem_bytes: eb, per_record: per }),
        None => None,
    }
}

/// Plans where the values of the channel lie in records of `record_length`
/// bytes.
pub fn layout_of(cn: &Cn4, record_length: usize) -> (r: Option<RecordLayout>)
    ensures
        r == channel_layout(*cn, record_length as nat),
        r is Some ==> r->0.wf(),
{
    let (eb, per) = match value_shape_of(cn) {
        Some(shape) => (shape.elem_bytes, shape.per_record),
        None => {
            return None;
        },
    };
    let bytes = match per.checked_mul(eb) {
        Some(b) => b,
        None => {
            return None;
        },
    };
    let pos = cn.pos_byte_beg as usize;
    match pos.checked_add(bytes) {
        Some(end) => {
            if end <= record_length {
                Some(
                    RecordLayout {
                        record_length,
                        pos,
                        elem_bytes: eb,
                        per_record: per,
                        big_endian: cn.endian,
                    },
                )
            } else {
                None
            }
        },
        None => None,
    }
}

/// Plans the layout of a block that holds the values of this channel alone.
pub fn single_layout_of(cn: &Cn4) -> (r: Option<RecordLayout>)
    ensures
        r == single_channel_layout(*cn),
        r is Some ==> r->0.wf() && r->0.record_length > 0,
{
    let (eb, per) = match value_shape_of(cn) {
        Some(shape) => (shape.elem_bytes, shape.per_record),
        None => {
            return None;
        },
    };
    match per.checked_mul(eb) {
        Some(bytes) => {
            if bytes > 0 {
                Some(
                    RecordLayout {
                        record_length: bytes,
                        pos: 0,
                        elem_bytes: eb,
                        per_record: per,
                        big_endian: cn.endian,
                    },
                )
            } else {
                None
            }
        },
        None => None,
    }
}

/// The layout fits the column: a value can be stored without loss.
pub open spec fn layout_fits_kind(lay: RecordLayout, kind: ElemKind) -> bool {
    if kind.numeric() {
        1 <= lay.elem_bytes <= kind.storage_bytes()
    } else if kind is FixedSizeByteArray {
        lay.elem_bytes == 1
    } else {
        lay.elem_bytes <= MAX_TEXT_BYTES
    }
}

/// Decodes `total` values from `chunk` into the places of `data` from
/// `base` on.
pub fn decode_data(
    data: &mut ChannelData,
    chunk: &[u8],
    lay: &RecordLayout,
    n_records: usize,
    base: usize,
    total: usize,
)
    requires
        lay.wf(),
        layout_fits_kind(*lay, old(data).kind()),
        n_records * lay.record_length <= chunk.len(),
        total == n_records * lay.per_record,
        base + total <= old(data).spec_len(),
    ensures
        data_decoded(*old(data), *final(data), chunk@, *lay, base as int, total as int),
{
    let kind = data.elem_kind();
    match data {
        ChannelData::Int8(v) => fill_i8(v, chunk, lay, n_records, base, total),
        ChannelData::ArrayDInt8(v, _) => fill_i8(v, chunk, lay, n_records, base, total),
        ChannelData::UInt8(v) => fill_u8(v, chunk, lay, n_records, base, total),
        ChannelData::ArrayDUInt8(v, _) => fill_u8(v, chunk, lay, n_records, base, total),
        ChannelData::Int16(v) => fill_i16(v, chunk, lay, n_records, base, total),
        ChannelData::ArrayDInt16(v, _) => fill_i16(v, chunk, lay, n_records, base, total),
        ChannelData::UInt16(v) => fill_u16(v, chunk, lay, n_records, base, total),
        ChannelData::ArrayDUInt16(v, _) => fill_u16(v, chunk, lay, n_records, base, total),
        ChannelData::Float16(v) => fill_u16(v, chunk, lay, n_records, base, total),
        ChannelData::ArrayDFloat16(v, _) => fill_u16(v, chunk, lay, n_records, base, total),
        ChannelData::Int24(v) => fill_i32(v, chunk, lay, n_records, base, total),
        ChannelData::ArrayDInt24(v, _) => fill_i32(v, chunk, lay, n_records, base, total),
        ChannelData::UInt24(v) => fill_u32(v, chunk, lay, n_records, base, total),
        ChannelData::ArrayDUInt24(v, _) => fill_u32(v, chunk, lay, n_records, base, total),
        ChannelData::Int32(v) => fill_i32(v, chunk, lay, n_records, base, total),
        ChannelData::ArrayDInt32(v, _) => fill_i32(v, chunk, lay, n_records, base, total),
        ChannelData::UInt32(v) => fill_u32(v, chunk, lay, n_records, base, total),
        ChannelData::ArrayDUInt32(v, _) => fill_u32(v, chunk, lay, n_records, base, total),
        ChannelData::Float32(v) => fill_u32(v, chunk, lay, n_records, base, total),
        ChannelData::ArrayDFloat32(v, _) => fill_u32(v, chunk, lay, n_records, base, total),
        ChannelData::Int48(v) => fill_i64(v, chunk, lay, n_records, base, total),
        ChannelData::ArrayDInt48(v, _) => fill_i64(v, chunk, lay, n_records, base, total),
        ChannelData::UInt48(v) => fill_u64(v, chunk, lay, n_records, base, total),
        ChannelData::ArrayDUInt48(v, _) => fill_u64(v, chunk, lay, n_records, base, total),
        ChannelData::Int64(v) => fill_i64(v, chunk, lay, n_records, base, total),
        ChannelData::ArrayDInt64(v, _) => fill_i64(v, chunk, lay, n_records, base, total),
        ChannelData::UInt64(v) => fill_u64(v, chunk, lay, n_records, base, total),
        ChannelData::ArrayDUInt64(v, _) => fill_u64(v, chunk, lay, n_records, base, total),
        ChannelData::Float64(v) => fill_u64(v, chunk, lay, n_records, base, total),
        ChannelData::ArrayDFloat64(v, _) => fill_u64(v, chunk, lay, n_records, base, total),
        ChannelData::Complex16(v) => fill_u16(v, chunk, lay, n_records, base, total),
        ChannelData::ArrayDComplex16(v, _) => fill_u16(v, chunk, lay, n_records, base, total),
        ChannelData::Complex32(v) => fill_u32(v, chunk, lay, n_records, base, total),
        ChannelData::ArrayDComplex32(v, _) => fill_u32(v, chunk, lay, n_records, base, total),
        ChannelData::Complex64(v) => fill_u64(v, chunk, lay, n_records, base, total),
        ChannelData::ArrayDComplex64(v, _) => fill_u64(v, chunk, lay, n_records, base, total),
        ChannelData::StringSBC(v) => fill_strings(v, chunk, lay, n_records, base, total, kind),
        ChannelData::StringUTF8(v) => fill_strings(v, chunk, lay, n_records, base, total, kind),
        ChannelData::StringUTF16(v) => fill_strings(v, chunk, lay, n_records, base, total, kind),
        ChannelData::VariableSizeByteArray(v) => fill_rows(v, chunk, lay, n_records, base, total),
        ChannelData::FixedSizeByteArray(v, _) => fill_u8(v, chunk, lay, n_records, base, total),
    }
}

/// Decoding no value leaves a column as it is.
pub proof fn lemma_decode_nothing(data: ChannelData, chunk: Seq<u8>, lay: RecordLayout, base: int)
    ensures
        data_decoded(data, data, chunk, lay, base, 0),
{
    let kind = data.kind();
    assert(data.ints() =~= decoded_ints(data.ints(), chunk, lay, base, 0, value_rule(kind)));
    assert(data.strings() =~= decoded_strings(data.strings(), chunk, lay, base, 0, kind));
    assert(data.rows() =~= decoded_rows(data.rows(), chunk, lay, base, 0));
}

/// Decodes the `n_records` records at the start of `chunk` into `data`, from
/// sample `previous_index` on, where the column has room for them.
fn decode_records(
    data: &mut ChannelData,
    chunk: &[u8],
    lay: &RecordLayout,
    n_records: usize,
    previous_index: usize,
)
    requires
        lay.wf(),
        layout_fits_kind(*lay, old(data).kind()),
        n_records * lay.record_length <= chunk.len(),
    ensures
        (previous_index + n_records) * lay.per_record <= old(data).spec_len() ==> data_decoded(
            *old(data),
            *final(data),
            chunk@,
            *lay,
            previous_index * lay.per_record,
            n_records * lay.per_record,
        ),
        (previous_index + n_records) * lay.per_record > old(data).spec_len() ==> *final(data)
            == *old(data),
{
    let per = lay.per_record;
    if per == 0 {
        proof {
            lemma_decode_nothing(*data, chunk@, *lay, 0);
            assert(previous_index * per == 0 && n_records * per == 0 && (previous_index + n_records)
                * per == 0) by (nonlinear_arith)
                requires
                    per == 0,
            ;
        }
        return ;
    }
    let len = data.len();
    let upto = match previous_index.checked_add(n_records) {
        Some(x) => x,
        None => {
            proof {
                assert((previous_index + n_records) * per > len) by (nonlinear_arith)
                    requires
                        previous_index + n_records > usize::MAX,
                        per >= 1,
                        len <= usize::MAX,
                ;
            }
            return ;
        },
    };
    let end = match upto.checked_mul(per) {
        Some(x) => x,
        None => {
            return ;
        },
    };
    if end > len {
        return ;
    }
    proof {
        assert(previous_index * per + n_records * per == (previous_index + n_records) * per
            && previous_index * per >= 0 && n_records * per >= 0) by (nonlinear_arith)
            requires
                per >= 0,
                previous_index >= 0,
                n_records >= 0,
        ;
    }
    let base = previous_index * per;
    let total = n_records * per;
    decode_data(data, chunk, lay, n_records, base, total);
}

/// The number of whole records of `record_length` bytes in a buffer takes no
/// more room than the buffer has.
pub proof fn lemma_whole_records(chunk_len: nat, record_length: nat)
    requires
        record_length > 0,
    ensures
        (chunk_len / record_length) * record_length <= chunk_len,
{
    vstd::arithmetic::div_mod::lemma_fundamental_div_mod(chunk_len as int, record_length as int);
    vstd::arithmetic::div_mod::lemma_mod_bound(chunk_len as int, record_length as int);
    assert((chunk_len / record_length) * record_length == record_length * (chunk_len
        / record_length)) by (nonlinear_arith);
}

/// A layout that was planned for a channel fits the channel's column.
pub proof fn lemma_planned_layout_fits(cn: Cn4, lay: RecordLayout)
    requires
        value_shape(cn) is Some,
        lay.elem_bytes == value_shape(cn)->0.elem_bytes,
    ensures
        layout_fits_kind(lay, cn.data.kind()),
{
}

/// Decodes the records of `chunk` into the channel, from sample
/// `previous_index` on. Nothing is decoded where the channel's values do not
/// lie in the records, where its layout does not fit, or where its column is
/// too short.
pub fn decode_channel(cn: &mut Cn4, chunk: &[u8], record_length: usize, previous_index: usize)
    ensures
        channel_decoded(
            *old(cn),
            *final(cn),
            chunk@,
            record_length as nat,
            previous_index as nat,
        ),
        final(cn).invalid_mask == old(cn).invalid_mask,
{
    let cn_type = cn.block.cn_type;
    if !(cn_type == 0 || cn_type == 2 || cn_type == 4 || cn_type == 5) || record_length == 0 {
        return ;
    }
    match layout_of(cn, record_length) {
        None => {},
        Some(lay) => {
            let n_records = chunk.len() / record_length;
            proof {
                lemma_whole_records(chunk.len() as nat, record_length as nat);
                lemma_planned_layout_fits(*cn, lay);
            }
            decode_records(&mut cn.data, chunk, &lay, n_records, previous_index);
        },
    }
}

/// Plans the decoding of a buffer of `chunk_len` bytes into the channel from
/// sample `previous_index` on.
pub fn plan_of(cn: &Cn4, chunk_len: usize, record_length: usize, previous_index: usize) -> (r:
    Option<RecordLayout>)
    ensures
        r == decode_plan(*cn, chunk_len as nat, record_length as nat, previous_index as nat),
        r is Some ==> r->0.wf(),
{
    let cn_type = cn.block.cn_type;
    if !(cn_type == 0 || cn_type == 2 || cn_type == 4 || cn_type == 5) || record_length == 0 {
        return None;
    }
    match layout_of(cn, record_length) {
        None => None,
        Some(lay) => {
            let n_records = chunk_len / record_length;
            let per = lay.per_record;
            let len = cn.data.len();
            if per == 0 {
                assert((previous_index + n_records) * per == 0) by (nonlinear_arith)
                    requires
                        per == 0,
                ;
                return Some(lay);
            }
            let upto = match previous_index.checked_add(n_records) {
                Some(x) => x,
                None => {
                    proof {
                        assert((previous_index + n_records) * per > len) by (nonlinear_arith)
                            requires
                                previous_index + n_records > usize::MAX,
                                per >= 1,
                                len <= usize::MAX,
                        ;
                    }
                    return None;
                },
            };
            match upto.checked_mul(per) {
                Some(end) => {
                    if end <= len {
                        Some(lay)
                    } else {
                        None
                    }
                },
                None => None,
            }
        },
    }
}

/// `new` is `old` after the records of a block that holds this channel
/// alone were decoded into it: `cycle_count` samples, from the first place
/// on, and the channel marked valid. The channel is untouched where it is
/// empty, where its values do not lie in records, where it cannot be decoded,
/// or where the block or the column is too short.
pub open spec fn one_channel_read(old: Cn4, new: Cn4, block: Seq<u8>, cycle_count: nat) -> bool {
    let plan = single_channel_layout(old);
    if fixed_length_type(old.block.cn_type) && old.data.spec_len() > 0 && plan is Some
        && cycle_count * plan->0.record_length <= block.len() && cycle_count * plan->0.per_record
        <= old.data.spec_len() {
        &&& same_description(old, new)
        &&& new.invalid_mask == old.invalid_mask
        &&& new.channel_data_valid
        &&& data_decoded(
            old.data,
            new.data,
            block,
            plan->0,
            0,
            cycle_count * plan->0.per_record,
        )
    } else {
        new == old
    }
}

/// Decodes a block that holds the values of one channel only, sample after
/// sample, into the channel's column, and marks the channel valid.
pub fn read_one_channel_array(data_bytes: &[u8], cn: &mut Cn4, cycle_count: usize)
    ensures
        one_channel_read(*old(cn), *final(cn), data_bytes@, cycle_count as nat),
{
    let cn_type = cn.block.cn_type;
    if !(cn_type == 0 || cn_type == 2 || cn_type == 4 || cn_type == 5) || cn.data.is_empty() {
        return ;
    }
    match single_layout_of(cn) {
        None => {},
        Some(lay) => {
            let room = cn.data.len();
            let available = data_bytes.len();
            let needed = match cycle_count.checked_mul(lay.record_length) {
                Some(n) => n,
                None => {
                    assert(cycle_count * lay.record_length > available);
                    return ;
                },
            };
            if needed > available {
                return ;
            }
            let total = match cycle_count.checked_mul(lay.per_record) {
                Some(n) => n,
                None => {
                    assert(cycle_count * lay.per_record > room);
                    return ;
                },
            };
            if total > room {
                return ;
            }
            proof {
                lemma_planned_layout_fits(*cn, lay);
            }
            decode_data(&mut cn.data, data_bytes, &lay, cycle_count, 0, total);
            cn.channel_data_valid = true;
        },
    }
}

/// True where `name` is one of `names`.
pub open spec fn name_listed(names: Seq<String>, name: Seq<char>) -> bool {
    exists|j: int| 0 <= j < names.len() && names[j]@ == name
}

/// Tells whether `name` is one of `names`.
pub fn is_listed(names: &Vec<String>, name: &String) -> (r: bool)
    ensures
        r == name_listed(names@, name@),
{
    let mut j: usize = 0;
    while j < names.len()
        invariant
            j <= names.len(),
            forall|i: int| 0 <= i < j ==> names@[i]@ != name@,
        decreases names.len() - j,
    {
        if names[j] == *name {
            return true;
        }
        j += 1;
    }
    false
}

/// The invalidation bits after the records of `chunk` were read from
/// sample `previous_index` on: a sample is valid where its record has the
/// channel's invalidation bit clear. Untouched where the bit does not lie in
/// the record or the bits do not reach that far.
pub open spec fn mask_updated(
    old: InvalidMask,
    new: InvalidMask,
    chunk: Seq<u8>,
    record_length: nat,
    previous_index: nat,
) -> bool {
    &&& new.byte_position == old.byte_position
    &&& new.byte_mask == old.byte_mask
    &&& if record_length > 0 && old.byte_position < record_length && previous_index + chunk.len()
        / record_length <= old.mask@.len() {
        new.mask@ == Seq::new(
            old.mask@.len(),
            |k: int|
                if previous_index <= k < previous_index + chunk.len() / record_length {
                    (old.byte_mask & chunk[(k - previous_index) * record_length
                        + old.byte_position]) == 0
                } else {
                    old.mask@[k]
                },
        )
    } else {
        new.mask@ == old.mask@
    }
}

/// Reads the invalidation bit of the channel out of each record of `chunk`.
pub fn update_invalid_mask(
    m: &mut InvalidMask,
    chunk: &[u8],
    record_length: usize,
    previous_index: usize,
)
    ensures
        mask_updated(*old(m), *final(m), chunk@, record_length as nat, previous_index as nat),
{
    if record_length == 0 || m.byte_position >= record_length {
        return ;
    }
    let n_records = chunk.len() / record_length;
    let room = m.mask.len();
    let upto = match previous_index.checked_add(n_records) {
        Some(x) => x,
        None => {
            assert(previous_index + n_records > room);
            return ;
        },
    };
    if upto > room {
        return ;
    }
    proof {
        lemma_whole_records(chunk.len() as nat, record_length as nat);
    }
    let mut i: usize = 0;
    while i < n_records
        invariant
            i <= n_records,
            record_length > 0,
            n_records == chunk.len() / record_length,
            n_records * record_length <= chunk.len(),
            m.byte_position < record_length,
            m.byte_position == old(m).byte_position,
            m.byte_mask == old(m).byte_mask,
            previous_index + n_records <= m.mask@.len(),
            previous_index + n_records <= usize::MAX,
            m.mask@.len() == old(m).mask@.len(),
            forall|k: int|
                0 <= k < m.mask@.len() ==> #[trigger] m.mask@[k] == if previous_index <= k
                    < previous_index + i {
                    (old(m).byte_mask & chunk@[(k - previous_index) * record_length + old(
                        m,
                    ).byte_position]) == 0
                } else {
                    old(m).mask@[k]
                },
        decreases n_records - i,
    {
        proof {
            assert(0 <= i * record_length && i * record_length + record_length <= n_records
                * record_length) by (nonlinear_arith)
                requires
                    0 <= i < n_records,
                    record_length > 0,
            ;
        }
        let byte = chunk[i * record_length + m.byte_position];
        let valid = (m.byte_mask & byte) == 0;
        m.mask[previous_index + i] = valid;
        i += 1;
    }
    proof {
        assert(m.mask@ =~= Seq::new(
            old(m).mask@.len(),
            |k: int|
                if previous_index <= k < previous_index + chunk@.len() / (record_length as nat) {
                    (old(m).byte_mask & chunk@[(k - previous_index) * record_length + old(
                        m,
                    ).byte_position]) == 0
                } else {
                    old(m).mask@[k]
                },
        ));
    }
}

/// True for the channels that a read touches: listed by name, with a column
/// that has room, and not yet valid.
pub open spec fn channel_selected(cn: Cn4, names: Seq<String>) -> bool {
    name_listed(names, cn.unique_name@) && cn.data.spec_len() > 0 && !cn.channel_data_valid
}

/// `new` is the channel `old` after a read of the records of `chunk`.
///
/// A channel that the read does not touch is unchanged. A touched one has
/// its values decoded as `channel_decoded` says, and, where the records carry
/// invalidation bytes, its invalidation bits read.
pub open spec fn channel_read(
    old: Cn4,
    new: Cn4,
    chunk: Seq<u8>,
    record_length: nat,
    previous_index: nat,
    names: Seq<String>,
    record_with_invalid_data: bool,
) -> bool {
    if channel_selected(old, names) {
        &&& channel_decoded(old, new, chunk, record_length, previous_index)
        &&& match old.invalid_mask {
            Some(m) => new.invalid_mask is Some && if record_with_invalid_data {
                mask_updated(m, new.invalid_mask->0, chunk, record_length, previous_index)
            } else {
                new.invalid_mask == old.invalid_mask
            },
            None => new.invalid_mask is None,
        }
    } else {
        new == old
    }
}

/// The positions of the touched channels whose values are of variable
/// length and stored in a block of their own, in the order of `cns`.
pub open spec fn vlsd_channels(cns: Seq<Cn4>, names: Seq<String>) -> Seq<i32>
    decreases cns.len(),
{
    if cns.len() == 0 {
        Seq::empty()
    } else {
        let rest = vlsd_channels(cns.drop_last(), names);
        let c = cns.last();
        if channel_selected(c, names) && c.block.cn_type == 1 && c.block.cn_data != 0 {
            rest.push(c.rec_pos)
        } else {
            rest
        }
    }
}

/// Reads one channel's values and invalidation bits out of `chunk`, if the
/// read touches the channel.
fn read_channel(
    cn: &mut Cn4,
    data_chunk: &[u8],
    record_length: usize,
    previous_index: usize,
    channel_names_to_read_in_dg: &Vec<String>,
    record_with_invalid_data: bool,
)
    ensures
        channel_read(
            *old(cn),
            *final(cn),
            data_chunk@,
            record_length as nat,
            previous_index as nat,
            channel_names_to_read_in_dg@,
            record_with_invalid_data,
        ),
{
    if !is_listed(channel_names_to_read_in_dg, &cn.unique_name) || cn.data.is_empty()
        || cn.channel_data_valid {
        return ;
    }
    decode_channel(cn, data_chunk, record_length, previous_index);
    if record_with_invalid_data {
        match &mut cn.invalid_mask {
            Some(m) => update_invalid_mask(m, data_chunk, record_length, previous_index),
            None => {},
        }
    }
}

/// Copies the values of the listed channels out of the records of
/// `data_chunk` into the channels' columns, from sample `previous_index` on.
///
/// The buffer holds records of `record_length` bytes one after the other;
/// bytes after the last whole record are ignored. Channels that are not
/// listed, are empty or are already valid are left alone. Returns the
/// positions of the listed channels of variable length whose values lie in a
/// block of their own.
pub fn read_channels_from_bytes(
    data_chunk: &[u8],
    channels: &mut Vec<Cn4>,
    record_length: usize,
    previous_index: usize,
    channel_names_to_read_in_dg: &Vec<String>,
    record_with_invalid_data: bool,
) -> (vlsd: Vec<i32>)
    ensures
        final(channels)@.len() == old(channels)@.len(),
        forall|i: int|
            0 <= i < old(channels)@.len() ==> channel_read(
                old(channels)@[i],
                #[trigger] final(channels)@[i],
                data_chunk@,
                record_length as nat,
                previous_index as nat,
                channel_names_to_read_in_dg@,
                record_with_invalid_data,
            ),
        vlsd@ == vlsd_channels(old(channels)@, channel_names_to_read_in_dg@),
{
    let mut vlsd: Vec<i32> = Vec::new();
    let mut i: usize = 0;
    while i < channels.len()
        invariant
            i <= channels.len(),
            channels@.len() == old(channels)@.len(),
            forall|j: int|
                0 <= j < i ==> channel_read(
                    old(channels)@[j],
                    #[trigger] channels@[j],
                    data_chunk@,
                    record_length as nat,
                    previous_index as nat,
                    channel_names_to_read_in_dg@,
                    record_with_invalid_data,
                ),
            forall|j: int| i <= j < channels@.len() ==> channels@[j] == old(channels)@[j],
            vlsd@ == vlsd_channels(
                old(channels)@.subrange(0, i as int),
                channel_names_to_read_in_dg@,
            ),
        decreases channels.len() - i,
    {
        let ghost before = channels@;
        let cn = &mut channels[i];
        let listed = is_listed(channel_names_to_read_in_dg, &cn.unique_name) && !cn.data.is_empty()
            && !cn.channel_data_valid;
        if listed && cn.block.cn_type == 1 && cn.block.cn_data != 0 {
            vlsd.push(cn.rec_pos);
        }
        read_channel(
            cn,
            data_chunk,
            record_length,
            previous_index,
            channel_names_to_read_in_dg,
            record_with_invalid_data,
        );
        proof {
            assert(old(channels)@.subrange(0, i + 1).drop_last() =~= old(channels)@.subrange(
                0,
                i as int,
            ));
        }
        i += 1;
    }
    proof {
        assert(old(channels)@.subrange(0, i as int) =~= old(channels)@);
    }
    vlsd
}

/// The column and the invalidation bits of the channel have room for
/// `samples` samples, as far as a read would fill them.
pub open spec fn has_room(cn: Cn4, record_length: nat, samples: nat) -> bool {
    &&& match channel_layout(cn, record_length) {
        Some(lay) => samples * lay.per_record <= cn.data.spec_len(),
        None => true,
    }
    &&& match cn.invalid_mask {
        Some(m) => samples <= m.mask@.len(),
        None => true,
    }
}

/// A buffer of whole records followed by another holds as many whole
/// records as the two together.
pub proof fn lemma_records_of_two(a_len: nat, b_len: nat, record_length: nat, n_a: nat)
    requires
        record_length > 0,
        a_len == n_a * record_length,
    ensures
        (a_len + b_len) / record_length == n_a + b_len / record_length,
{
    let rl = record_length as int;
    let n_b = (b_len / record_length) as int;
    vstd::arithmetic::div_mod::lemma_fundamental_div_mod(b_len as int, rl);
    vstd::arithmetic::div_mod::lemma_mod_bound(b_len as int, rl);
    assert(a_len + b_len == rl * (n_a + n_b) + (b_len as int) % rl) by (nonlinear_arith)
        requires
            a_len == n_a * rl,
            b_len == rl * n_b + (b_len as int) % rl,
    ;
    vstd::arithmetic::div_mod::lemma_fundamental_div_mod_converse(
        (a_len + b_len) as int,
        rl,
        n_a + n_b,
        (b_len as int) % rl,
    );
}

/// Decoding one buffer and then the next into a column gives the same as
/// decoding the two buffers put together.
pub proof fn lemma_data_decoded_in_two(
    d0: ChannelData,
    d1: ChannelData,
    d2: ChannelData,
    a: Seq<u8>,
    b: Seq<u8>,
    lay: RecordLayout,
    base: int,
    n_a: int,
    n_b: int,
)
    requires
        lay.wf(),
        0 <= n_a,
        0 <= n_b,
        a.len() == n_a * lay.record_length,
        n_b * lay.record_length <= b.len(),
        data_decoded(d0, d1, a, lay, base, n_a * lay.per_record),
        data_decoded(d1, d2, b, lay, base + n_a * lay.per_record, n_b * lay.per_record),
    ensures
        data_decoded(d0, d2, a + b, lay, base, (n_a + n_b) * lay.per_record),
{
    let kind = d0.kind();
    let rule = value_rule(kind);
    lemma_decoded_in_two(
        d0.ints(),
        a,
        b,
        lay,
        base,
        n_a,
        n_b,
        |x: Seq<u8>| elem_value(rule, x, lay.big_endian),
    );
    lemma_decoded_in_two(
        d0.strings(),
        a,
        b,
        lay,
        base,
        n_a,
        n_b,
        |x: Seq<u8>| text_value(kind, x, lay.big_endian),
    );
    lemma_decoded_in_two(d0.rows(), a, b, lay, base, n_a, n_b, |x: Seq<u8>| x);
}

/// Reading the invalidation bits of one buffer and then of the next gives
/// the same as reading those of the two buffers put together.
pub proof fn lemma_mask_in_two(
    m0: InvalidMask,
    m1: InvalidMask,
    m2: InvalidMask,
    a: Seq<u8>,
    b: Seq<u8>,
    record_length: nat,
    previous_index: nat,
    n_a: nat,
)
    requires
        record_length > 0,
        a.len() == n_a * record_length,
        previous_index + n_a + b.len() / record_length <= m0.mask@.len(),
        mask_updated(m0, m1, a, record_length, previous_index),
        mask_updated(m1, m2, b, record_length, previous_index + n_a),
    ensures
        mask_updated(m0, m2, a + b, record_length, previous_index),
{
    let rl = record_length as int;
    let n_b = b.len() / record_length;
    lemma_records_of_two(a.len(), b.len(), record_length, n_a);
    lemma_whole_records(b.len(), record_length);
    vstd::arithmetic::div_mod::lemma_div_multiples_vanish(n_a as int, rl);
    assert(a.len() / record_length == n_a) by {
        assert(n_a * rl == rl * n_a) by (nonlinear_arith);
    }
    if m0.byte_position < record_length {
        let bp = m0.byte_position as int;
        let p = previous_index as int;
        let expected = Seq::new(
            m0.mask@.len(),
            |k: int|
                if p <= k < p + (a + b).len() / record_length {
                    (m0.byte_mask & (a + b)[(k - p) * rl + bp]) == 0
                } else {
                    m0.mask@[k]
                },
        );
        assert forall|k: int| 0 <= k < m0.mask@.len() implies m2.mask@[k] == expected[k] by {
            if p <= k < p + n_a {
                assert(0 <= (k - p) * rl && (k - p) * rl + rl <= n_a * rl) by (nonlinear_arith)
                    requires
                        0 <= k - p < n_a,
                        rl > 0,
                ;
            } else if p + n_a <= k < p + n_a + n_b {
                assert(0 <= (k - p - n_a) * rl && (k - p - n_a) * rl + rl <= n_b * rl && (k - p)
                    * rl == n_a * rl + (k - p - n_a) * rl) by (nonlinear_arith)
                    requires
                        0 <= k - p - n_a < n_b,
                        rl > 0,
                ;
            }
        }
        assert(m2.mask@ =~= expected);
    }
}

/// Chunked decoding: reading the records of one buffer and then those of the
/// next, from the sample where the first read ended, leaves a channel as one
/// read of the two buffers put together does, provided the channel has room
/// for the samples of both.
pub proof fn lemma_chunked_read(
    c0: Cn4,
    c1: Cn4,
    c2: Cn4,
    a: Seq<u8>,
    b: Seq<u8>,
    record_length: nat,
    previous_index: nat,
    n_a: nat,
    names: Seq<String>,
    record_with_invalid_data: bool,
)
    requires
        0 < record_length <= usize::MAX,
        a.len() == n_a * record_length,
        channel_selected(c0, names) ==> has_room(
            c0,
            record_length,
            previous_index + n_a + b.len() / record_length,
        ),
        channel_read(c0, c1, a, record_length, previous_index, names, record_with_invalid_data),
        channel_read(
            c1,
            c2,
            b,
            record_length,
            previous_index + n_a,
            names,
            record_with_invalid_data,
        ),
    ensures
        channel_read(
            c0,
            c2,
            a + b,
            record_length,
            previous_index,
            names,
            record_with_invalid_data,
        ),
{
    let n_b = b.len() / record_length;
    lemma_records_of_two(a.len(), b.len(), record_length, n_a);
    lemma_whole_records(b.len(), record_length);
    vstd::arithmetic::div_mod::lemma_div_multiples_vanish(n_a as int, record_length as int);
    assert(a.len() / record_length == n_a) by {
        assert(n_a * record_length == record_length * n_a) by (nonlinear_arith);
    }
    if channel_selected(c0, names) {
        assert(c1.data.spec_len() == c0.data.spec_len()) by {
            lemma_read_keeps_len(c0, c1, a, record_length, previous_index);
        }
        assert(channel_selected(c1, names));
        assert(value_shape(c1) == value_shape(c0));
        assert(channel_layout(c1, record_length) == channel_layout(c0, record_length));
        if fixed_length_type(c0.block.cn_type) {
            match channel_layout(c0, record_length) {
                Some(lay) => {
                    let per = lay.per_record as int;
                    let p = previous_index as int;
                    assert((p + n_a) * per <= (p + n_a + n_b) * per && (p + n_a) * per == p * per
                        + n_a * per && (p + n_a + n_b) * per == p * per + (n_a + n_b) * per)
                        by (nonlinear_arith)
                        requires
                            per >= 0,
                            n_b >= 0,
                    ;
                    lemma_data_decoded_in_two(
                        c0.data,
                        c1.data,
                        c2.data,
                        a,
                        b,
                        lay,
                        p * per,
                        n_a as int,
                        n_b as int,
                    );
                },
                None => {},
            }
        }
        if record_with_invalid_data {
            match c0.invalid_mask {
                Some(m0) => {
                    lemma_mask_in_two(
                        m0,
                        c1.invalid_mask->0,
                        c2.invalid_mask->0,
                        a,
                        b,
                        record_length,
                        previous_index,
                        n_a,
                    );
                },
                None => {},
            }
        }
    }
}

/// A read keeps the number of items that a column stores.
pub proof fn lemma_read_keeps_len(
    c0: Cn4,
    c1: Cn4,
    chunk: Seq<u8>,
    record_length: nat,
    previous_index: nat,
)
    requires
        channel_decoded(c0, c1, chunk, record_length, previous_index),
    ensures
        c1.data.spec_len() == c0.data.spec_len(),
        c1.data.kind() == c0.data.kind(),
        c1.data.shape() == c0.data.shape(),
{
}

/// The bytes that a record holds for the integer `v` of a column with the
/// given rule.
pub open spec fn encoded(rule: ValueRule, v: int, n: nat, big_endian: bool) -> Seq<u8> {
    match rule {
        ValueRule::Unsigned => uint_bytes(v as nat, n, big_endian),
        ValueRule::Signed => int_bytes(v, n, big_endian),
    }
}

/// Counting records: where record `i` of a buffer holds the number `i` in a
/// channel of integers, of any width and sign and in either byte order,
/// decoding the buffer into a column of as many places gives the numbers
/// from 0 on.
pub proof fn lemma_counter_decoded(
    d0: ChannelData,
    d1: ChannelData,
    chunk: Seq<u8>,
    lay: RecordLayout,
    n: nat,
)
    requires
        d0.kind().integer(),
        lay.per_record == 1,
        d0.ints().len() == n,
        value_rule(d0.kind()) == ValueRule::Unsigned ==> n <= pow256(lay.elem_bytes as nat),
        value_rule(d0.kind()) == ValueRule::Signed ==> 2 * n <= pow256(lay.elem_bytes as nat),
        forall|i: int|
            0 <= i < n ==> #[trigger] lay.elem(chunk, i) == encoded(
                value_rule(d0.kind()),
                i,
                lay.elem_bytes as nat,
                lay.big_endian,
            ),
        data_decoded(d0, d1, chunk, lay, 0, n as int),
    ensures
        d1.ints() == counting_ints(n),
{
    let rule = value_rule(d0.kind());
    assert forall|i: int| 0 <= i < n implies d1.ints()[i] == i by {
        match rule {
            ValueRule::Unsigned => {
                lemma_uint_round_trip(i as nat, lay.elem_bytes as nat, lay.big_endian);
            },
            ValueRule::Signed => {
                lemma_int_round_trip(i, lay.elem_bytes as nat, lay.big_endian);
            },
        }
    }
    assert(d1.ints() =~= counting_ints(n));
}

/// Plans where the values of the channel lie in records of `record_length`
/// bytes, and says so where the channel cannot be decoded: its encoding is
/// then not supported, and the channel stays without samples while others
/// are read.
pub fn supported_layout(cn: &Cn4, record_length: usize) -> (r: Result<RecordLayout, MdfError>)
    ensures
        match channel_layout(*cn, record_length as nat) {
            Some(lay) => r == Ok::<RecordLayout, MdfError>(lay),
            None => r == Err::<RecordLayout, MdfError>(MdfError::UnsupportedEncoding),
        },
{
    match layout_of(cn, record_length) {
        Some(lay) => Ok(lay),
        None => Err(MdfError::UnsupportedEncoding),
    }
}

} // verus!
