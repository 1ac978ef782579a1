//! Values that do not fill their bytes: the bits of a value are taken out of
//! the integer that was read from the bytes around them.

use crate::mdfinfo::mdfinfo4::Cn4;
use crate::mdfreader::channel_data::ints_i16;
use crate::mdfreader::channel_data::ints_i32;
use crate::mdfreader::channel_data::ints_i64;
use crate::mdfreader::channel_data::ints_i8;
use crate::mdfreader::channel_data::ints_u16;
use crate::mdfreader::channel_data::ints_u32;
use crate::mdfreader::channel_data::ints_u64;
use crate::mdfreader::channel_data::ints_u8;
use crate::mdfreader::channel_data::ChannelData;
use crate::mdfreader::data_read4::same_description;
use vstd::arithmetic::power2::lemma2_to64;
use vstd::arithmetic::power2::lemma2_to64_rest;
use vstd::arithmetic::power2::lemma_pow2_adds;
use vstd::arithmetic::power2::lemma_pow2_pos;
use vstd::arithmetic::power2::lemma_pow2_strictly_increases;
use vstd::arithmetic::power2::pow2;
use vstd::bits::lemma_u64_shl_is_mul;
use vstd::bits::lemma_u64_shr_is_div;
use vstd::prelude::*;

verus! {

/// The number that the `bit_count` bits of `raw` from bit `bit_offset` on
/// stand for.
pub open spec fn bit_field(raw: nat, bit_offset: nat, bit_count: nat) -> nat {
    (raw / pow2(bit_offset)) % pow2(bit_count)
}

/// The number that those bits stand for in two's complement.
pub open spec fn signed_bit_field(raw: nat, bit_offset: nat, bit_count: nat) -> int {
    let f = bit_field(raw, bit_offset, bit_count);
    if bit_count > 0 && f >= pow2((bit_count - 1) as nat) {
        f - pow2(bit_count)
    } else {
        f as int
    }
}

/// The 64 bits that hold `v` in two's complement, as an unsigned number.
pub open spec fn image64(v: int) -> nat {
    if v < 0 {
        (v + pow2(64)) as nat
    } else {
        v as nat
    }
}

/// The value of a stored integer once the bits of the channel are taken out
/// of it.
pub open spec fn field_value(v: int, signed: bool, bit_offset: nat, bit_count: nat) -> int {
    if signed {
        signed_bit_field(image64(v), bit_offset, bit_count)
    } else {
        bit_field(v as nat, bit_offset, bit_count) as int
    }
}

/// A field of bits is no larger than the number it is taken from, and
/// smaller than two to the number of its bits.
pub proof fn lemma_bit_field_bounds(raw: nat, bit_offset: nat, bit_count: nat)
    ensures
        bit_field(raw, bit_offset, bit_count) <= raw,
        bit_field(raw, bit_offset, bit_count) < pow2(bit_count),
{
    lemma_pow2_pos(bit_offset);
    lemma_pow2_pos(bit_count);
    let p = pow2(bit_offset) as int;
    let m = pow2(bit_count) as int;
    let q = raw as int / p;
    vstd::arithmetic::div_mod::lemma_div_pos_is_pos(raw as int, p);
    vstd::arithmetic::div_mod::lemma_div_is_ordered_by_denominator(raw as int, 1, p);
    vstd::arithmetic::div_mod::lemma_div_basics(raw as int);
    vstd::arithmetic::div_mod::lemma_mod_bound(q, m);
    vstd::arithmetic::div_mod::lemma_fundamental_div_mod(q, m);
    vstd::arithmetic::div_mod::lemma_div_pos_is_pos(q, m);
    assert(q % m <= q) by (nonlinear_arith)
        requires
            q == m * (q / m) + q % m,
            q / m >= 0,
            m > 0,
    ;
}

/// A signed field of `bit_count` bits lies in the range of that many bits.
pub proof fn lemma_signed_bit_field_bounds(raw: nat, bit_offset: nat, bit_count: nat)
    requires
        bit_count >= 1,
    ensures
        -(pow2((bit_count - 1) as nat) as int) <= signed_bit_field(raw, bit_offset, bit_count)
            < pow2((bit_count - 1) as nat),
{
    lemma_bit_field_bounds(raw, bit_offset, bit_count);
    lemma_pow2_adds((bit_count - 1) as nat, 1);
    lemma2_to64();
}

/// Takes the `bit_count` bits from bit `bit_offset` on out of `x`.
pub fn extract_bits(x: u64, bit_offset: u32, bit_count: u32) -> (r: u64)
    requires
        1 <= bit_count,
        bit_offset + bit_count <= 64,
    ensures
        r == bit_field(x as nat, bit_offset as nat, bit_count as nat),
{
    proof {
        lemma_u64_shr_is_div(x, bit_offset as u64);
        lemma2_to64();
        lemma2_to64_rest();
    }
    let shifted = x >> (bit_offset as u64);
    if bit_count == 64 {
        proof {
            assert(shifted as nat % pow2(64) == shifted) by {
                vstd::arithmetic::div_mod::lemma_small_mod(shifted as nat, pow2(64));
            }
        }
        shifted
    } else {
        proof {
            lemma_pow2_strictly_increases(bit_count as nat, 64);
            lemma_u64_shl_is_mul(1, bit_count as u64);
        }
        let m = 1u64 << (bit_count as u64);
        shifted % m
    }
}

/// Takes the `bit_count` bits from bit `bit_offset` on out of the 64 bits
/// that hold `x`, and reads them in two's complement.
pub fn extract_signed_bits(x: i64, bit_offset: u32, bit_count: u32) -> (r: i64)
    requires
        1 <= bit_count,
        bit_offset + bit_count <= 64,
    ensures
        r == signed_bit_field(image64(x as int), bit_offset as nat, bit_count as nat),
{
    proof {
        lemma2_to64();
        lemma2_to64_rest();
    }
    let image = #[verifier::truncate] (x as u64);
    assert(image == if x < 0 {
        (x + 0x1_0000_0000_0000_0000) as u64
    } else {
        x as u64
    }) by (bit_vector)
        requires
            image == #[verifier::truncate] (x as u64),
    ;
    assert(image as nat == image64(x as int));
    let f = extract_bits(image, bit_offset, bit_count);
    proof {
        lemma_bit_field_bounds(image64(x as int), bit_offset as nat, bit_count as nat);
        lemma_pow2_adds((bit_count - 1) as nat, 1);
    }
    proof {
        lemma_pow2_strictly_increases_or_equal((bit_count - 1) as nat, 63);
        lemma_u64_shl_is_mul(1, (bit_count - 1) as u64);
    }
    let half = 1u64 << ((bit_count - 1) as u64);
    assert(half == pow2((bit_count - 1) as nat));
    assert(f < 2 * half);
    if f >= half {
        let low = (f - half) as i64;
        if bit_count == 64 {
            low + i64::MIN
        } else {
            low - (half as i64)
        }
    } else {
        f as i64
    }
}

/// A column in which every value is replaced by the field of bits taken out
/// of it.
pub open spec fn fields_of(old: Seq<int>, signed: bool, bit_offset: nat, bit_count: nat) -> Seq<
    int,
> {
    Seq::new(old.len(), |i: int| field_value(old[i], signed, bit_offset, bit_count))
}

/// A power of two is no larger than one with a larger exponent.
pub proof fn lemma_pow2_strictly_increases_or_equal(e1: nat, e2: nat)
    requires
        e1 <= e2,
    ensures
        pow2(e1) <= pow2(e2),
{
    if e1 < e2 {
        lemma_pow2_strictly_increases(e1, e2);
    }
}

/// Replaces every value of the column by the field of bits taken out of it.
pub fn shift_i8(v: &mut Vec<i8>, bit_offset: u32, bit_count: u32)
    requires
        1 <= bit_count,
        bit_offset + bit_count <= 8,
    ensures
        ints_i8(final(v)@) == fields_of(
            ints_i8(old(v)@),
            true,
            bit_offset as nat,
            bit_count as nat,
        ),
{
    let mut k: usize = 0;
    while k < v.len()
        invariant
            k <= v.len(),
            1 <= bit_count,
            bit_offset + bit_count <= 8,
            v.len() == old(v).len(),
            forall|i: int|
                0 <= i < k ==> (#[trigger] v@[i]) as int == field_value(
                    old(v)@[i] as int,
                    true,
                    bit_offset as nat,
                    bit_count as nat,
                ),
            forall|i: int| k <= i < v.len() ==> v@[i] == old(v)@[i],
        decreases v.len() - k,
    {
        proof {
            lemma2_to64();
            lemma2_to64_rest();
            lemma_signed_bit_field_bounds(image64(v@[k as int] as int), bit_offset as nat, bit_count as nat);
            lemma_pow2_strictly_increases_or_equal((bit_count - 1) as nat, 7);
        }
        let x = extract_signed_bits(v[k] as i64, bit_offset, bit_count);
        v[k] = x as i8;
        k += 1;
    }
    proof {
        assert(ints_i8(v@) =~= fields_of(
            ints_i8(old(v)@),
            true,
            bit_offset as nat,
            bit_count as nat,
        ));
    }
}

/// Replaces every value of the column by the field of bits taken out of it.
pub fn shift_u8(v: &mut Vec<u8>, bit_offset: u32, bit_count: u32)
    requires
        1 <= bit_count,
        bit_offset + bit_count <= 8,
    ensures
        ints_u8(final(v)@) == fields_of(
            ints_u8(old(v)@),
            false,
            bit_offset as nat,
            bit_count as nat,
        ),
{
    let mut k: usize = 0;
    while k < v.len()
        invariant
            k <= v.len(),
            1 <= bit_count,
            bit_offset + bit_count <= 8,
            v.len() == old(v).len(),
            forall|i: int|
                0 <= i < k ==> (#[trigger] v@[i]) as int == field_value(
                    old(v)@[i] as int,
                    false,
                    bit_offset as nat,
                    bit_count as nat,
                ),
            forall|i: int| k <= i < v.len() ==> v@[i] == old(v)@[i],
        decreases v.len() - k,
    {
        proof {
            lemma2_to64();
            lemma2_to64_rest();
            lemma_bit_field_bounds(v@[k as int] as nat, bit_offset as nat, bit_count as nat);
        }
        let x = extract_bits(v[k] as u64, bit_offset, bit_count);
        v[k] = x as u8;
        k += 1;
    }
    proof {
        assert(ints_u8(v@) =~= fields_of(
            ints_u8(old(v)@),
            false,
            bit_offset as nat,
            bit_count as nat,
        ));
    }
}

/// Replaces every value of the column by the field of bits taken out of it.
pub fn shift_i16(v: &mut Vec<i16>, bit_offset: u32, bit_count: u32)
    requires
        1 <= bit_count,
        bit_offset + bit_count <= 16,
    ensures
        ints_i16(final(v)@) == fields_of(
            ints_i16(old(v)@),
            true,
            bit_offset as nat,
            bit_count as nat,
        ),
{
    let mut k: usize = 0;
    while k < v.len()
        invariant
            k <= v.len(),
            1 <= bit_count,
            bit_offset + bit_count <= 16,
            v.len() == old(v).len(),
            forall|i: int|
                0 <= i < k ==> (#[trigger] v@[i]) as int == field_value(
                    old(v)@[i] as int,
                    true,
                    bit_offset as nat,
                    bit_count as nat,
                ),
            forall|i: int| k <= i < v.len() ==> v@[i] == old(v)@[i],
        decreases v.len() - k,
    {
        proof {
            lemma2_to64();
            lemma2_to64_rest();
            lemma_signed_bit_field_bounds(image64(v@[k as int] as int), bit_offset as nat, bit_count as nat);
            lemma_pow2_strictly_increases_or_equal((bit_count - 1) as nat, 15);
        }
        let x = extract_signed_bits(v[k] as i64, bit_offset, bit_count);
        v[k] = x as i16;
        k += 1;
    }
    proof {
        assert(ints_i16(v@) =~= fields_of(
            ints_i16(old(v)@),
            true,
            bit_offset as nat,
            bit_count as nat,
        ));
    }
}

/// Replaces every value of the column by the field of bits taken out of it.
pub fn shift_u16(v: &mut Vec<u16>, bit_offset: u32, bit_count: u32)
    requires
        1 <= bit_count,
        bit_offset + bit_count <= 16,
    ensures
        ints_u16(final(v)@) == fields_of(
            ints_u16(old(v)@),
            false,
            bit_offset as nat,
            bit_count as nat,
        ),
{
    let mut k: usize = 0;
    while k < v.len()
        invariant
            k <= v.len(),
            1 <= bit_count,
            bit_offset + bit_count <= 16,
            v.len() == old(v).len(),
            forall|i: int|
                0 <= i < k ==> (#[trigger] v@[i]) as int == field_value(
                    old(v)@[i] as int,
                    false,
                    bit_offset as nat,
                    bit_count as nat,
                ),
            forall|i: int| k <= i < v.len() ==> v@[i] == old(v)@[i],
        decreases v.len() - k,
    {
        proof {
            lemma2_to64();
            lemma2_to64_rest();
            lemma_bit_field_bounds(v@[k as int] as nat, bit_offset as nat, bit_count as nat);
        }
        let x = extract_bits(v[k] as u64, bit_offset, bit_count);
        v[k] = x as u16;
        k += 1;
    }
    proof {
        assert(ints_u16(v@) =~= fields_of(
            ints_u16(old(v)@),
            false,
            bit_offset as nat,
            bit_count as nat,
        ));
    }
}

/// Replaces every value of the column by the field of bits taken out of it.
pub fn shift_i32(v: &mut Vec<i32>, bit_offset: u32, bit_count: u32)
    requires
        1 <= bit_count,
        bit_offset + bit_count <= 32,
    ensures
        ints_i32(final(v)@) == fields_of(
            ints_i32(old(v)@),
            true,
            bit_offset as nat,
            bit_count as nat,
        ),
{
    let mut k: usize = 0;
    while k < v.len()
        invariant
            k <= v.len(),
            1 <= bit_count,
            bit_offset + bit_count <= 32,
            v.len() == old(v).len(),
            forall|i: int|
                0 <= i < k ==> (#[trigger] v@[i]) as int == field_value(
                    old(v)@[i] as int,
                    true,
                    bit_offset as nat,
                    bit_count as nat,
                ),
            forall|i: int| k <= i < v.len() ==> v@[i] == old(v)@[i],
        decreases v.len() - k,
    {
        proof {
            lemma2_to64();
            lemma2_to64_rest();
            lemma_signed_bit_field_bounds(image64(v@[k as int] as int), bit_offset as nat, bit_count as nat);
            lemma_pow2_strictly_increases_or_equal((bit_count - 1) as nat, 31);
        }
        let x = extract_signed_bits(v[k] as i64, bit_offset, bit_count);
        v[k] = x as i32;
        k += 1;
    }
    proof {
        assert(ints_i32(v@) =~= fields_of(
            ints_i32(old(v)@),
            true,
            bit_offset as nat,
            bit_count as nat,
        ));
    }
}

/// Replaces every value of the column by the field of bits taken out of it.
pub fn shift_u32(v: &mut Vec<u32>, bit_offset: u32, bit_count: u32)
    requires
        1 <= bit_count,
        bit_offset + bit_count <= 32,
    ensures
        ints_u32(final(v)@) == fields_of(
            ints_u32(old(v)@),
            false,
            bit_offset as nat,
            bit_count as nat,
        ),
{
    let mut k: usize = 0;
    while k < v.len()
        invariant
            k <= v.len(),
            1 <= bit_count,
            bit_offset + bit_count <= 32,
            v.len() == old(v).len(),
            forall|i: int|
                0 <= i < k ==> (#[trigger] v@[i]) as int == field_value(
                    old(v)@[i] as int,
                    false,
                    bit_offset as nat,
                    bit_count as nat,
                ),
            forall|i: int| k <= i < v.len() ==> v@[i] == old(v)@[i],
        decreases v.len() - k,
    {
        proof {
            lemma2_to64();
            lemma2_to64_rest();
            lemma_bit_field_bounds(v@[k as int] as nat, bit_offset as nat, bit_count as nat);
        }
        let x = extract_bits(v[k] as u64, bit_offset, bit_count);
        v[k] = x as u32;
        k += 1;
    }
    proof {
        assert(ints_u32(v@) =~= fields_of(
            ints_u32(old(v)@),
            false,
            bit_offset as nat,
            bit_count as nat,
        ));
    }
}

/// Replaces every value of the column by the field of bits taken out of it.
pub fn shift_i64(v: &mut Vec<i64>, bit_offset: u32, bit_count: u32)
    requires
        1 <= bit_count,
        bit_offset + bit_count <= 64,
    ensures
        ints_i64(final(v)@) == fields_of(
            ints_i64(old(v)@),
            true,
            bit_offset as nat,
            bit_count as nat,
        ),
{
    let mut k: usize = 0;
    while k < v.len()
        invariant
            k <= v.len(),
            1 <= bit_count,
            bit_offset + bit_count <= 64,
            v.len() == old(v).len(),
            forall|i: int|
                0 <= i < k ==> (#[trigger] v@[i]) as int == field_value(
                    old(v)@[i] as int,
                    true,
                    bit_offset as nat,
                    bit_count as nat,
                ),
            forall|i: int| k <= i < v.len() ==> v@[i] == old(v)@[i],
        decreases v.len() - k,
    {
        proof {
            lemma2_to64();
            lemma2_to64_rest();
            lemma_signed_bit_field_bounds(image64(v@[k as int] as int), bit_offset as nat, bit_count as nat);
            lemma_pow2_strictly_increases_or_equal((bit_count - 1) as nat, 63);
        }
        let x = extract_signed_bits(v[k] as i64, bit_offset, bit_count);
        v[k] = x as i64;
        k += 1;
    }
    proof {
        assert(ints_i64(v@) =~= fields_of(
            ints_i64(old(v)@),
            true,
            bit_offset as nat,
            bit_count as nat,
        ));
    }
}

/// Replaces every value of the column by the field of bits taken out of it.
pub fn shift_u64(v: &mut Vec<u64>, bit_offset: u32, bit_count: u32)
    requires
        1 <= bit_count,
        bit_offset + bit_count <= 64,
    ensures
        ints_u64(final(v)@) == fields_of(
            ints_u64(old(v)@),
            false,
            bit_offset as nat,
            bit_count as nat,
        ),
{
    let mut k: usize = 0;
    while k < v.len()
        invariant
            k <= v.len(),
            1 <= bit_count,
            bit_offset + bit_count <= 64,
            v.len() == old(v).len(),
            forall|i: int|
                0 <= i < k ==> (#[trigger] v@[i]) as int == field_value(
                    old(v)@[i] as int,
                    false,
                    bit_offset as nat,
                    bit_count as nat,
                ),
            forall|i: int| k <= i < v.len() ==> v@[i] == old(v)@[i],
        decreases v.len() - k,
    {
        proof {
            lemma2_to64();
            lemma2_to64_rest();
            lemma_bit_field_bounds(v@[k as int] as nat, bit_offset as nat, bit_count as nat);
        }
        let x = extract_bits(v[k] as u64, bit_offset, bit_count);
        v[k] = x as u64;
        k += 1;
    }
    proof {
        assert(ints_u64(v@) =~= fields_of(
            ints_u64(old(v)@),
            false,
            bit_offset as nat,
            bit_count as nat,
        ));
    }
}

/// The bits of the channel's value can be taken out of the stored integers:
/// the channel's raw data type is one of integers (codes 0 to 3), its column
/// holds integers, and the bits lie within one stored integer.
pub open spec fn has_bit_field(cn: Cn4) -> bool {
    &&& cn.block.cn_data_type <= 3
    &&& cn.data.kind().integer()
    &&& 1 <= cn.block.cn_bit_count
    &&& cn.block.cn_bit_offset + cn.block.cn_bit_count <= 8 * cn.data.kind().storage_bytes()
}

/// `new` is the column `old` with every integer replaced by the field of
/// `bit_count` bits from bit `bit_offset` on.
pub open spec fn data_normalised(
    old: ChannelData,
    new: ChannelData,
    bit_offset: nat,
    bit_count: nat,
) -> bool {
    &&& new.kind() == old.kind()
    &&& new.shape() == old.shape()
    &&& new.row_bytes() == old.row_bytes()
    &&& new.strings() == old.strings()
    &&& new.rows() == old.rows()
    &&& new.ints() == fields_of(old.ints(), old.kind().signed(), bit_offset, bit_count)
}

/// `new` is the channel `old` with its stored integers reduced to the bits
/// of the channel's value. A channel that is not of integers, or whose bits
/// do not lie within one stored integer, is unchanged.
pub open spec fn bits_normalised(old: Cn4, new: Cn4) -> bool {
    &&& same_description(old, new)
    &&& new.channel_data_valid == old.channel_data_valid
    &&& new.invalid_mask == old.invalid_mask
    &&& if has_bit_field(old) {
        data_normalised(
            old.data,
            new.data,
            old.block.cn_bit_offset as nat,
            old.block.cn_bit_count as nat,
        )
    } else {
        new.data == old.data
    }
}

/// Reduces the integers of a column to the field of `bit_count` bits from
/// bit `bit_offset` on. Sign-extends the field where the column is signed.
pub fn normalise_data(data: &mut ChannelData, bit_offset: u32, bit_count: u32)
    requires
        old(data).kind().integer(),
        1 <= bit_count,
        bit_offset + bit_count <= 8 * old(data).kind().storage_bytes(),
    ensures
        data_normalised(*old(data), *final(data), bit_offset as nat, bit_count as nat),
{
    match data {
        ChannelData::Int8(v) => shift_i8(v, bit_offset, bit_count),
        ChannelData::ArrayDInt8(v, _) => shift_i8(v, bit_offset, bit_count),
        ChannelData::UInt8(v) => shift_u8(v, bit_offset, bit_count),
        ChannelData::ArrayDUInt8(v, _) => shift_u8(v, bit_offset, bit_count),
        ChannelData::Int16(v) => shift_i16(v, bit_offset, bit_count),
        ChannelData::ArrayDInt16(v, _) => shift_i16(v, bit_offset, bit_count),
        ChannelData::UInt16(v) => shift_u16(v, bit_offset, bit_count),
        ChannelData::ArrayDUInt16(v, _) => shift_u16(v, bit_offset, bit_count),
        ChannelData::Int24(v) => shift_i32(v, bit_offset, bit_count),
        ChannelData::ArrayDInt24(v, _) => shift_i32(v, bit_offset, bit_count),
        ChannelData::UInt24(v) => shift_u32(v, bit_offset, bit_count),
        ChannelData::ArrayDUInt24(v, _) => shift_u32(v, bit_offset, bit_count),
        ChannelData::Int32(v) => shift_i32(v, bit_offset, bit_count),
        ChannelData::ArrayDInt32(v, _) => shift_i32(v, bit_offset, bit_count),
        ChannelData::UInt32(v) => shift_u32(v, bit_offset, bit_count),
        ChannelData::ArrayDUInt32(v, _) => shift_u32(v, bit_offset, bit_count),
        ChannelData::Int48(v) => shift_i64(v, bit_offset, bit_count),
        ChannelData::ArrayDInt48(v, _) => shift_i64(v, bit_offset, bit_count),
        ChannelData::UInt48(v) => shift_u64(v, bit_offset, bit_count),
        ChannelData::ArrayDUInt48(v, _) => shift_u64(v, bit_offset, bit_count),
        ChannelData::Int64(v) => shift_i64(v, bit_offset, bit_count),
        ChannelData::ArrayDInt64(v, _) => shift_i64(v, bit_offset, bit_count),
        ChannelData::UInt64(v) => shift_u64(v, bit_offset, bit_count),
        ChannelData::ArrayDUInt64(v, _) => shift_u64(v, bit_offset, bit_count),
        _ => {},
    }
}

/// Reduces the stored integers of the channel to the bits of its value,
/// where the channel describes such a field.
pub fn normalise_bits(cn: &mut Cn4)
    ensures
        bits_normalised(*old(cn), *final(cn)),
{
    if cn.block.cn_data_type > 3 {
        return ;
    }
    let kind = cn.data.elem_kind();
    if !kind.is_integer() {
        return ;
    }
    let width: u32 = 8 * kind.storage_width();
    let bit_count = cn.block.cn_bit_count;
    let bit_offset = cn.block.cn_bit_offset as u32;
    if bit_count < 1 || bit_count > width || bit_offset > width - bit_count {
        return ;
    }
    normalise_data(&mut cn.data, bit_offset, bit_count);
}

} // verus!
