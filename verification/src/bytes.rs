//! Integers in byte strings: the value that a run of bytes stands for in
//! either byte order, and readers that fetch such values from a buffer.

use crate::error::MdfError;
use vstd::prelude::*;
use vstd::slice::slice_subrange;

verus! {

/// 256 to the power `n`.
pub open spec fn pow256(n: nat) -> nat
    decreases n,
{
    if n == 0 {
        1
    } else {
        256 * pow256((n - 1) as nat)
    }
}

/// The number that `s` stands for when its first byte is the least significant.
pub open spec fn le_uint(s: Seq<u8>) -> nat
    decreases s.len(),
{
    if s.len() == 0 {
        0
    } else {
        s[0] as nat + 256 * le_uint(s.drop_first())
    }
}

/// The number that `s` stands for when its first byte is the most significant.
pub open spec fn be_uint(s: Seq<u8>) -> nat
    decreases s.len(),
{
    if s.len() == 0 {
        0
    } else {
        256 * be_uint(s.drop_last()) + s.last() as nat
    }
}

/// The unsigned number that `s` stands for in the given byte order.
pub open spec fn uint_of(s: Seq<u8>, big_endian: bool) -> nat {
    if big_endian {
        be_uint(s)
    } else {
        le_uint(s)
    }
}

/// The two's complement reading of the `nbytes`-byte unsigned number `v`.
pub open spec fn twos_complement(v: nat, nbytes: nat) -> int {
    if 2 * v >= pow256(nbytes) {
        v - pow256(nbytes)
    } else {
        v as int
    }
}

/// The signed number that `s` stands for in the given byte order.
pub open spec fn int_of(s: Seq<u8>, big_endian: bool) -> int {
    twos_complement(uint_of(s, big_endian), s.len())
}

/// The `n` bytes of `data` that start at `pos`.
pub open spec fn field(data: Seq<u8>, pos: int, n: int) -> Seq<u8> {
    data.subrange(pos, pos + n)
}

/// The powers of 256 that fit the machine's integers.
pub proof fn lemma_pow256_values()
    ensures
        pow256(0) == 1,
        pow256(1) == 0x100,
        pow256(2) == 0x1_0000,
        pow256(3) == 0x100_0000,
        pow256(4) == 0x1_0000_0000,
        pow256(5) == 0x100_0000_0000,
        pow256(6) == 0x1_0000_0000_0000,
        pow256(7) == 0x100_0000_0000_0000,
        pow256(8) == 0x1_0000_0000_0000_0000,
{
    reveal_with_fuel(pow256, 10);
}

/// A run of `n` bytes stands for a number below 256 to the `n`, in either order.
pub proof fn lemma_uint_bound(s: Seq<u8>, big_endian: bool)
    ensures
        uint_of(s, big_endian) < pow256(s.len()),
    decreases s.len(),
{
    if s.len() > 0 {
        if big_endian {
            lemma_uint_bound(s.drop_last(), true);
        } else {
            lemma_uint_bound(s.drop_first(), false);
        }
    }
}

/// The signed reading of `n` bytes lies in the range of an `n`-byte integer.
pub proof fn lemma_int_bound(s: Seq<u8>, big_endian: bool)
    ensures
        -(pow256(s.len()) as int) <= 2 * int_of(s, big_endian) < pow256(s.len()),
{
    lemma_uint_bound(s, big_endian);
}

/// The `n` bytes that stand for `v`, least significant byte first.
pub open spec fn le_bytes(v: nat, n: nat) -> Seq<u8>
    decreases n,
{
    if n == 0 {
        Seq::empty()
    } else {
        seq![(v % 256) as u8] + le_bytes(v / 256, (n - 1) as nat)
    }
}

/// The `n` bytes that stand for `v`, most significant byte first.
pub open spec fn be_bytes(v: nat, n: nat) -> Seq<u8>
    decreases n,
{
    if n == 0 {
        Seq::empty()
    } else {
        be_bytes(v / 256, (n - 1) as nat).push((v % 256) as u8)
    }
}

/// The `n` bytes that stand for the unsigned number `v` in the given order.
pub open spec fn uint_bytes(v: nat, n: nat, big_endian: bool) -> Seq<u8> {
    if big_endian {
        be_bytes(v, n)
    } else {
        le_bytes(v, n)
    }
}

/// The `n` bytes that stand for `v` in two's complement, in the given order.
pub open spec fn int_bytes(v: int, n: nat, big_endian: bool) -> Seq<u8> {
    if v < 0 {
        uint_bytes((v + pow256(n)) as nat, n, big_endian)
    } else {
        uint_bytes(v as nat, n, big_endian)
    }
}

/// Reading the bytes that stand for an unsigned number gives the number back.
pub proof fn lemma_uint_round_trip(v: nat, n: nat, big_endian: bool)
    requires
        v < pow256(n),
    ensures
        uint_bytes(v, n, big_endian).len() == n,
        uint_of(uint_bytes(v, n, big_endian), big_endian) == v,
    decreases n,
{
    if n > 0 {
        let rest = (n - 1) as nat;
        assert(v / 256 < pow256(rest)) by (nonlinear_arith)
            requires
                v < 256 * pow256(rest),
        ;
        lemma_uint_round_trip(v / 256, rest, big_endian);
        assert(v == 256 * (v / 256) + v % 256) by (nonlinear_arith);
        if big_endian {
            let s = be_bytes(v, n);
            assert(s.drop_last() =~= be_bytes(v / 256, rest));
        } else {
            let s = le_bytes(v, n);
            assert(s.drop_first() =~= le_bytes(v / 256, rest));
        }
    }
}

/// Reading the bytes that stand for a number in two's complement gives the
/// number back.
pub proof fn lemma_int_round_trip(v: int, n: nat, big_endian: bool)
    requires
        -(pow256(n) as int) <= 2 * v < pow256(n),
    ensures
        int_bytes(v, n, big_endian).len() == n,
        int_of(int_bytes(v, n, big_endian), big_endian) == v,
{
    if v < 0 {
        lemma_uint_round_trip((v + pow256(n)) as nat, n, big_endian);
    } else {
        lemma_uint_round_trip(v as nat, n, big_endian);
    }
}

/// `byteorder::ByteOrder::read_uint` of `byteorder::LittleEndian`: the first
/// `nbytes` bytes of `buf`, read as an unsigned number whose least significant
/// byte comes first. The outside function panics unless `1 <= nbytes <= 8`
/// and `nbytes <= buf.len()`.
#[verifier::external_body]
fn le_read_uint(buf: &[u8], nbytes: usize) -> (r: u64)
    requires
        1 <= nbytes <= 8,
        nbytes <= buf.len(),
    ensures
        r as nat == le_uint(buf@.subrange(0, nbytes as int)),
{
    <byteorder::LittleEndian as byteorder::ByteOrder>::read_uint(buf, nbytes)
}

/// `byteorder::ByteOrder::read_uint` of `byteorder::BigEndian`: the first
/// `nbytes` bytes of `buf`, read as an unsigned number whose most significant
/// byte comes first. The outside function panics unless `1 <= nbytes <= 8`
/// and `nbytes <= buf.len()`.
#[verifier::external_body]
fn be_read_uint(buf: &[u8], nbytes: usize) -> (r: u64)
    requires
        1 <= nbytes <= 8,
        nbytes <= buf.len(),
    ensures
        r as nat == be_uint(buf@.subrange(0, nbytes as int)),
{
    <byteorder::BigEndian as byteorder::ByteOrder>::read_uint(buf, nbytes)
}

/// `byteorder::ByteOrder::read_int` of `byteorder::LittleEndian`: the first
/// `nbytes` bytes of `buf`, least significant first, read in two's complement
/// and sign-extended to 64 bits. Panics as `read_uint` does.
#[verifier::external_body]
fn le_read_int(buf: &[u8], nbytes: usize) -> (r: i64)
    requires
        1 <= nbytes <= 8,
        nbytes <= buf.len(),
    ensures
        r as int == twos_complement(le_uint(buf@.subrange(0, nbytes as int)), nbytes as nat),
{
    <byteorder::LittleEndian as byteorder::ByteOrder>::read_int(buf, nbytes)
}

/// `byteorder::ByteOrder::read_int` of `byteorder::BigEndian`: the first
/// `nbytes` bytes of `buf`, most significant first, read in two's complement
/// and sign-extended to 64 bits. Panics as `read_uint` does.
#[verifier::external_body]
fn be_read_int(buf: &[u8], nbytes: usize) -> (r: i64)
    requires
        1 <= nbytes <= 8,
        nbytes <= buf.len(),
    ensures
        r as int == twos_complement(be_uint(buf@.subrange(0, nbytes as int)), nbytes as nat),
{
    <byteorder::BigEndian as byteorder::ByteOrder>::read_int(buf, nbytes)
}

/// Reads the `nbytes`-byte unsigned integer that starts at `pos`.
pub fn read_uint(data: &[u8], pos: usize, nbytes: usize, big_endian: bool) -> (r: u64)
    requires
        1 <= nbytes <= 8,
        pos + nbytes <= data.len(),
    ensures
        r as nat == uint_of(field(data@, pos as int, nbytes as int), big_endian),
        (r as nat) < pow256(nbytes as nat),
{
    let part = slice_subrange(data, pos, pos + nbytes);
    proof {
        assert(part@.subrange(0, nbytes as int) =~= field(data@, pos as int, nbytes as int));
        lemma_uint_bound(field(data@, pos as int, nbytes as int), big_endian);
    }
    if big_endian {
        be_read_uint(part, nbytes)
    } else {
        le_read_uint(part, nbytes)
    }
}

/// Reads the `nbytes`-byte two's complement integer that starts at `pos`.
pub fn read_int(data: &[u8], pos: usize, nbytes: usize, big_endian: bool) -> (r: i64)
    requires
        1 <= nbytes <= 8,
        pos + nbytes <= data.len(),
    ensures
        r as int == int_of(field(data@, pos as int, nbytes as int), big_endian),
        -(pow256(nbytes as nat) as int) <= 2 * (r as int) < pow256(nbytes as nat),
{
    let part = slice_subrange(data, pos, pos + nbytes);
    proof {
        assert(part@.subrange(0, nbytes as int) =~= field(data@, pos as int, nbytes as int));
        lemma_int_bound(field(data@, pos as int, nbytes as int), big_endian);
    }
    if big_endian {
        be_read_int(part, nbytes)
    } else {
        le_read_int(part, nbytes)
    }
}

/// Reads the little-endian `u16` at `pos`.
pub fn u16_le_at(data: &[u8], pos: usize) -> (r: u16)
    requires
        pos + 2 <= data.len(),
    ensures
        r as nat == le_uint(field(data@, pos as int, 2)),
        r == u16_at(data@, pos as int),
{
    proof {
        lemma_pow256_values();
    }
    read_uint(data, pos, 2, false) as u16
}

/// Reads the little-endian `u32` at `pos`.
pub fn u32_le_at(data: &[u8], pos: usize) -> (r: u32)
    requires
        pos + 4 <= data.len(),
    ensures
        r as nat == le_uint(field(data@, pos as int, 4)),
        r == u32_at(data@, pos as int),
{
    proof {
        lemma_pow256_values();
    }
    read_uint(data, pos, 4, false) as u32
}

/// Reads the little-endian `u64` at `pos`.
pub fn u64_le_at(data: &[u8], pos: usize) -> (r: u64)
    requires
        pos + 8 <= data.len(),
    ensures
        r as nat == le_uint(field(data@, pos as int, 8)),
        r == u64_at(data@, pos as int),
{
    read_uint(data, pos, 8, false)
}

/// Reads the little-endian `i16` at `pos`.
pub fn i16_le_at(data: &[u8], pos: usize) -> (r: i16)
    requires
        pos + 2 <= data.len(),
    ensures
        r as int == int_of(field(data@, pos as int, 2), false),
        r == i16_at(data@, pos as int),
{
    proof {
        lemma_pow256_values();
    }
    read_int(data, pos, 2, false) as i16
}

/// Reads the little-endian `i64` at `pos`.
pub fn i64_le_at(data: &[u8], pos: usize) -> (r: i64)
    requires
        pos + 8 <= data.len(),
    ensures
        r as int == int_of(field(data@, pos as int, 8), false),
        r == i64_at(data@, pos as int),
{
    read_int(data, pos, 8, false)
}

/// Copies the `N` bytes that start at `pos` into an array.
pub fn bytes_at<const N: usize>(data: &[u8], pos: usize) -> (r: [u8; N])
    requires
        pos + N <= data.len(),
    ensures
        r@ == field(data@, pos as int, N as int),
{
    let mut out: [u8; N] = [0u8; N];
    let mut i: usize = 0;
    while i < N
        invariant
            i <= N,
            pos + N <= data.len(),
            out@.len() == N,
            forall|k: int| 0 <= k < i ==> out@[k] == data@[pos + k],
        decreases N - i,
    {
        out[i] = data[pos + i];
        i += 1;
    }
    proof {
        assert(out@ =~= field(data@, pos as int, N as int));
    }
    out
}

/// Copies the `n` bytes that start at `pos` into a vector.
pub fn vec_at(data: &[u8], pos: usize, n: usize) -> (r: Vec<u8>)
    requires
        pos + n <= data.len(),
    ensures
        r@ == field(data@, pos as int, n as int),
{
    let mut out: Vec<u8> = Vec::with_capacity(n);
    let mut i: usize = 0;
    while i < n
        invariant
            i <= n,
            pos + n <= data.len(),
            out@ == data@.subrange(pos as int, pos + i),
        decreases n - i,
    {
        out.push(data[pos + i]);
        proof {
            assert(out@ =~= data@.subrange(pos as int, pos + i + 1));
        }
        i += 1;
    }
    out
}

/// The little-endian `u16` at `pos`.
pub open spec fn u16_at(data: Seq<u8>, pos: int) -> u16 {
    le_uint(field(data, pos, 2)) as u16
}

/// The little-endian `u32` at `pos`.
pub open spec fn u32_at(data: Seq<u8>, pos: int) -> u32 {
    le_uint(field(data, pos, 4)) as u32
}

/// The little-endian `u64` at `pos`.
pub open spec fn u64_at(data: Seq<u8>, pos: int) -> u64 {
    le_uint(field(data, pos, 8)) as u64
}

/// The little-endian `i16` at `pos`.
pub open spec fn i16_at(data: Seq<u8>, pos: int) -> i16 {
    int_of(field(data, pos, 2), false) as i16
}

/// The little-endian `i64` at `pos`.
pub open spec fn i64_at(data: Seq<u8>, pos: int) -> i64 {
    int_of(field(data, pos, 8), false) as i64
}

/// What is wrong with the block of `size` bytes that is expected at
/// `target` with the identifier `id`: too few bytes are left for it, or it
/// starts with another identifier. `None` where the block is there.
pub open spec fn block_error(data: Seq<u8>, target: u64, size: nat, id: Seq<u8>) -> Option<
    MdfError,
> {
    if target + size > data.len() {
        Some(
            MdfError::CorruptBlock {
                offset: target,
                expected: size as u64,
                actual: if target >= data.len() {
                    0
                } else {
                    (data.len() - target) as u64
                },
            },
        )
    } else if field(data, target as int, id.len() as int) != id {
        Some(MdfError::UnexpectedBlockType { offset: target })
    } else {
        None
    }
}

/// Checks that a block of `size` bytes with the identifier `id` lies at
/// `target`.
pub fn check_block(data: &[u8], target: u64, size: usize, id: &[u8]) -> (r: Result<(), MdfError>)
    requires
        id.len() <= size,
        size <= u32::MAX,
    ensures
        match block_error(data@, target, size as nat, id@) {
            Some(e) => r == Err::<(), MdfError>(e),
            None => r is Ok,
        },
        r is Ok ==> target + size <= data@.len() <= usize::MAX,
{
    let len = data.len();
    if target > len as u64 || size > len - target as usize {
        let actual: u64 = if target >= len as u64 {
            0
        } else {
            (len - target as usize) as u64
        };
        return Err(MdfError::CorruptBlock { offset: target, expected: size as u64, actual });
    }
    let start = target as usize;
    let mut i: usize = 0;
    while i < id.len()
        invariant
            i <= id.len(),
            id.len() <= size,
            start + size <= data.len(),
            start == target,
            forall|k: int| 0 <= k < i ==> data@[start + k] == id@[k],
        decreases id.len() - i,
    {
        if data[start + i] != id[i] {
            proof {
                assert(field(data@, target as int, id@.len() as int)[i as int] != id@[i as int]);
            }
            return Err(MdfError::UnexpectedBlockType { offset: target });
        }
        i += 1;
    }
    proof {
        assert(field(data@, target as int, id@.len() as int) =~= id@);
    }
    Ok(())
}

} // verus!
