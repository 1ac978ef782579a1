//! The decoded samples of one channel.

use vstd::prelude::*;

verus! {

/// How the samples of a channel are encoded, whatever their number of
/// dimensions.
#[derive(Debug, Clone, Copy, PartialEq, Eq, Structural)]
pub enum ElemKind {
    Int8,
    UInt8,
    Int16,
    UInt16,
    Float16,
    Int24,
    UInt24,
    Int32,
    UInt32,
    Float32,
    Int48,
    UInt48,
    Int64,
    UInt64,
    Float64,
    Complex16,
    Complex32,
    Complex64,
    StringSBC,
    StringUTF8,
    StringUTF16,
    VariableSizeByteArray,
    FixedSizeByteArray,
}

impl ElemKind {
    /// True for the kinds that hold integers in two's complement.
    pub open spec fn signed(self) -> bool {
        self is Int8 || self is Int16 || self is Int24 || self is Int32 || self is Int48
            || self is Int64
    }

    /// True for the kinds that hold integers.
    pub open spec fn integer(self) -> bool {
        self.signed() || self is UInt8 || self is UInt16 || self is UInt24 || self is UInt32
            || self is UInt48 || self is UInt64
    }

    /// True for the kinds that hold numbers: integers, floats and complex numbers.
    pub open spec fn numeric(self) -> bool {
        self.integer() || self is Float16 || self is Float32 || self is Float64
            || self is Complex16 || self is Complex32 || self is Complex64
    }

    /// True for the kinds that hold text.
    pub open spec fn text(self) -> bool {
        self is StringSBC || self is StringUTF8 || self is StringUTF16
    }

    /// The number of stored values that make up one sample: two for a complex
    /// number, one otherwise.
    pub open spec fn components(self) -> nat {
        if self is Complex16 || self is Complex32 || self is Complex64 {
            2
        } else {
            1
        }
    }

    /// The width in bytes of the integers that hold the samples of a numeric
    /// kind in memory, and 0 for the other kinds.
    pub open spec fn storage_bytes(self) -> nat {
        match self {
            ElemKind::Int8 | ElemKind::UInt8 => 1,
            ElemKind::Int16 | ElemKind::UInt16 | ElemKind::Float16 | ElemKind::Complex16 => 2,
            ElemKind::Int24 | ElemKind::UInt24 | ElemKind::Int32 | ElemKind::UInt32
            | ElemKind::Float32 | ElemKind::Complex32 => 4,
            ElemKind::Int48 | ElemKind::UInt48 | ElemKind::Int64 | ElemKind::UInt64
            | ElemKind::Float64 | ElemKind::Complex64 => 8,
            _ => 0,
        }
    }

    /// The width in bytes of the integers that hold the samples of a numeric
    /// kind in memory, and 0 for the other kinds.
    pub fn storage_width(&self) -> (r: u32)
        ensures
            r == self.storage_bytes(),
    {
        match self {
            ElemKind::Int8 | ElemKind::UInt8 => 1,
            ElemKind::Int16 | ElemKind::UInt16 | ElemKind::Float16 | ElemKind::Complex16 => 2,
            ElemKind::Int24 | ElemKind::UInt24 | ElemKind::Int32 | ElemKind::UInt32
            | ElemKind::Float32 | ElemKind::Complex32 => 4,
            ElemKind::Int48 | ElemKind::UInt48 | ElemKind::Int64 | ElemKind::UInt64
            | ElemKind::Float64 | ElemKind::Complex64 => 8,
            _ => 0,
        }
    }

    /// Tells whether the kind holds integers in two's complement.
    pub fn is_signed(&self) -> (r: bool)
        ensures
            r == self.signed(),
    {
        match self {
            ElemKind::Int8 | ElemKind::Int16 | ElemKind::Int24 | ElemKind::Int32
            | ElemKind::Int48 | ElemKind::Int64 => true,
            _ => false,
        }
    }

    /// Tells whether the kind holds integers.
    pub fn is_integer(&self) -> (r: bool)
        ensures
            r == self.integer(),
    {
        match self {
            ElemKind::Int8 | ElemKind::Int16 | ElemKind::Int24 | ElemKind::Int32
            | ElemKind::Int48 | ElemKind::Int64 | ElemKind::UInt8 | ElemKind::UInt16
            | ElemKind::UInt24 | ElemKind::UInt32 | ElemKind::UInt48 | ElemKind::UInt64 => true,
            _ => false,
        }
    }

    /// Tells whether the kind holds numbers.
    pub fn is_numeric(&self) -> (r: bool)
        ensures
            r == self.numeric(),
    {
        match self {
            ElemKind::StringSBC | ElemKind::StringUTF8 | ElemKind::StringUTF16
            | ElemKind::VariableSizeByteArray | ElemKind::FixedSizeByteArray => false,
            _ => true,
        }
    }

    /// Tells whether the kind holds text.
    pub fn is_text(&self) -> (r: bool)
        ensures
            r == self.text(),
    {
        match self {
            ElemKind::StringSBC | ElemKind::StringUTF8 | ElemKind::StringUTF16 => true,
            _ => false,
        }
    }
}

/// The values of a column of `i8` as integers.
pub open spec fn ints_i8(s: Seq<i8>) -> Seq<int> {
    Seq::new(s.len(), |i: int| s[i] as int)
}

/// The values of a column of `u8` as integers.
pub open spec fn ints_u8(s: Seq<u8>) -> Seq<int> {
    Seq::new(s.len(), |i: int| s[i] as int)
}

/// The values of a column of `i16` as integers.
pub open spec fn ints_i16(s: Seq<i16>) -> Seq<int> {
    Seq::new(s.len(), |i: int| s[i] as int)
}

/// The values of a column of `u16` as integers.
pub open spec fn ints_u16(s: Seq<u16>) -> Seq<int> {
    Seq::new(s.len(), |i: int| s[i] as int)
}

/// The values of a column of `i32` as integers.
pub open spec fn ints_i32(s: Seq<i32>) -> Seq<int> {
    Seq::new(s.len(), |i: int| s[i] as int)
}

/// The values of a column of `u32` as integers.
pub open spec fn ints_u32(s: Seq<u32>) -> Seq<int> {
    Seq::new(s.len(), |i: int| s[i] as int)
}

/// The values of a column of `i64` as integers.
pub open spec fn ints_i64(s: Seq<i64>) -> Seq<int> {
    Seq::new(s.len(), |i: int| s[i] as int)
}

/// The values of a column of `u64` as integers.
pub open spec fn ints_u64(s: Seq<u64>) -> Seq<int> {
    Seq::new(s.len(), |i: int| s[i] as int)
}

/// The texts of a column of strings.
pub open spec fn texts(s: Seq<String>) -> Seq<Seq<char>> {
    Seq::new(s.len(), |i: int| s[i]@)
}

/// The contents of a column of byte strings.
pub open spec fn byte_rows(s: Seq<Vec<u8>>) -> Seq<Seq<u8>> {
    Seq::new(s.len(), |i: int| s[i]@)
}

/// The product of the dimensions `shape`: the number of values that one
/// sample of an array channel holds.
pub open spec fn shape_product(shape: Seq<usize>) -> nat
    decreases shape.len(),
{
    if shape.len() == 0 {
        1
    } else {
        shape_product(shape.drop_last()) * (shape.last() as nat)
    }
}

/// The decoded samples of one channel: exactly one representation at a time.
///
/// Floats are held as the bits of their IEEE 754 encoding. An `ArrayD`
/// variant holds the values of all samples in row-major order, and the
/// dimensions of one sample.
#[derive(Debug, Clone)]
pub enum ChannelData {
    /// 8-bit signed integers.
    Int8(Vec<i8>),
    /// 8-bit unsigned integers.
    UInt8(Vec<u8>),
    /// 16-bit signed integers.
    Int16(Vec<i16>),
    /// 16-bit unsigned integers.
    UInt16(Vec<u16>),
    /// Half-precision floats, held as their IEEE 754 bits.
    Float16(Vec<u16>),
    /// Signed integers of up to 24 bits.
    Int24(Vec<i32>),
    /// Unsigned integers of up to 24 bits.
    UInt24(Vec<u32>),
    /// 32-bit signed integers.
    Int32(Vec<i32>),
    /// 32-bit unsigned integers.
    UInt32(Vec<u32>),
    /// Single-precision floats, held as their IEEE 754 bits.
    Float32(Vec<u32>),
    /// Signed integers of 40 or 48 bits.
    Int48(Vec<i64>),
    /// Unsigned integers of 40 or 48 bits.
    UInt48(Vec<u64>),
    /// Signed integers of 56 or 64 bits.
    Int64(Vec<i64>),
    /// Unsigned integers of 56 or 64 bits.
    UInt64(Vec<u64>),
    /// Double-precision floats, held as their IEEE 754 bits.
    Float64(Vec<u64>),
    /// Half-precision complex numbers: real and imaginary part in turn, held as their bits.
    Complex16(Vec<u16>),
    /// Single-precision complex numbers: real and imaginary part in turn, held as their bits.
    Complex32(Vec<u32>),
    /// Double-precision complex numbers: real and imaginary part in turn, held as their bits.
    Complex64(Vec<u64>),
    /// Text decoded from a single-byte code page.
    StringSBC(Vec<String>),
    /// Text decoded from UTF-8.
    StringUTF8(Vec<String>),
    /// Text decoded from UTF-16.
    StringUTF16(Vec<String>),
    /// Byte strings whose length differs from sample to sample.
    VariableSizeByteArray(Vec<Vec<u8>>),
    /// Byte strings of one length, one after the other, and that length.
    FixedSizeByteArray(Vec<u8>, usize),
    /// Arrays of 8-bit signed integers.
    ArrayDInt8(Vec<i8>, Vec<usize>),
    /// Arrays of 8-bit unsigned integers.
    ArrayDUInt8(Vec<u8>, Vec<usize>),
    /// Arrays of 16-bit signed integers.
    ArrayDInt16(Vec<i16>, Vec<usize>),
    /// Arrays of 16-bit unsigned integers.
    ArrayDUInt16(Vec<u16>, Vec<usize>),
    /// Arrays of half-precision floats.
    ArrayDFloat16(Vec<u16>, Vec<usize>),
    /// Arrays of signed integers of up to 24 bits.
    ArrayDInt24(Vec<i32>, Vec<usize>),
    /// Arrays of unsigned integers of up to 24 bits.
    ArrayDUInt24(Vec<u32>, Vec<usize>),
    /// Arrays of 32-bit signed integers.
    ArrayDInt32(Vec<i32>, Vec<usize>),
    /// Arrays of 32-bit unsigned integers.
    ArrayDUInt32(Vec<u32>, Vec<usize>),
    /// Arrays of single-precision floats.
    ArrayDFloat32(Vec<u32>, Vec<usize>),
    /// Arrays of signed integers of 40 or 48 bits.
    ArrayDInt48(Vec<i64>, Vec<usize>),
    /// Arrays of unsigned integers of 40 or 48 bits.
    ArrayDUInt48(Vec<u64>, Vec<usize>),
    /// Arrays of signed integers of 56 or 64 bits.
    ArrayDInt64(Vec<i64>, Vec<usize>),
    /// Arrays of unsigned integers of 56 or 64 bits.
    ArrayDUInt64(Vec<u64>, Vec<usize>),
    /// Arrays of double-precision floats.
    ArrayDFloat64(Vec<u64>, Vec<usize>),
    /// Arrays of half-precision complex numbers.
    ArrayDComplex16(Vec<u16>, Vec<usize>),
    /// Arrays of single-precision complex numbers.
    ArrayDComplex32(Vec<u32>, Vec<usize>),
    /// Arrays of double-precision complex numbers.
    ArrayDComplex64(Vec<u64>, Vec<usize>),
}

impl ChannelData {
    /// The encoding of the samples.
    pub open spec fn kind(&self) -> ElemKind {
        match self {
            ChannelData::Int8(_) | ChannelData::ArrayDInt8(_, _) => ElemKind::Int8,
            ChannelData::UInt8(_) | ChannelData::ArrayDUInt8(_, _) => ElemKind::UInt8,
            ChannelData::Int16(_) | ChannelData::ArrayDInt16(_, _) => ElemKind::Int16,
            ChannelData::UInt16(_) | ChannelData::ArrayDUInt16(_, _) => ElemKind::UInt16,
            ChannelData::Float16(_) | ChannelData::ArrayDFloat16(_, _) => ElemKind::Float16,
            ChannelData::Int24(_) | ChannelData::ArrayDInt24(_, _) => ElemKind::Int24,
            ChannelData::UInt24(_) | ChannelData::ArrayDUInt24(_, _) => ElemKind::UInt24,
            ChannelData::Int32(_) | ChannelData::ArrayDInt32(_, _) => ElemKind::Int32,
            ChannelData::UInt32(_) | ChannelData::ArrayDUInt32(_, _) => ElemKind::UInt32,
            ChannelData::Float32(_) | ChannelData::ArrayDFloat32(_, _) => ElemKind::Float32,
            ChannelData::Int48(_) | ChannelData::ArrayDInt48(_, _) => ElemKind::Int48,
            ChannelData::UInt48(_) | ChannelData::ArrayDUInt48(_, _) => ElemKind::UInt48,
            ChannelData::Int64(_) | ChannelData::ArrayDInt64(_, _) => ElemKind::Int64,
            ChannelData::UInt64(_) | ChannelData::ArrayDUInt64(_, _) => ElemKind::UInt64,
            ChannelData::Float64(_) | ChannelData::ArrayDFloat64(_, _) => ElemKind::Float64,
            ChannelData::Complex16(_) | ChannelData::ArrayDComplex16(_, _) => ElemKind::Complex16,
            ChannelData::Complex32(_) | ChannelData::ArrayDComplex32(_, _) => ElemKind::Complex32,
            ChannelData::Complex64(_) | ChannelData::ArrayDComplex64(_, _) => ElemKind::Complex64,
            ChannelData::StringSBC(_) => ElemKind::StringSBC,
            ChannelData::StringUTF8(_) => ElemKind::StringUTF8,
            ChannelData::StringUTF16(_) => ElemKind::StringUTF16,
            ChannelData::VariableSizeByteArray(_) => ElemKind::VariableSizeByteArray,
            ChannelData::FixedSizeByteArray(_, _) => ElemKind::FixedSizeByteArray,
        }
    }

    /// The dimensions of one sample of an array channel; `None` for the others.
    pub open spec fn shape(&self) -> Option<Seq<usize>> {
        match self {
            ChannelData::ArrayDInt8(_, s) => Some(s@),
            ChannelData::ArrayDUInt8(_, s) => Some(s@),
            ChannelData::ArrayDInt16(_, s) => Some(s@),
            ChannelData::ArrayDUInt16(_, s) => Some(s@),
            ChannelData::ArrayDFloat16(_, s) => Some(s@),
            ChannelData::ArrayDInt24(_, s) => Some(s@),
            ChannelData::ArrayDUInt24(_, s) => Some(s@),
            ChannelData::ArrayDInt32(_, s) => Some(s@),
            ChannelData::ArrayDUInt32(_, s) => Some(s@),
            ChannelData::ArrayDFloat32(_, s) => Some(s@),
            ChannelData::ArrayDInt48(_, s) => Some(s@),
            ChannelData::ArrayDUInt48(_, s) => Some(s@),
            ChannelData::ArrayDInt64(_, s) => Some(s@),
            ChannelData::ArrayDUInt64(_, s) => Some(s@),
            ChannelData::ArrayDFloat64(_, s) => Some(s@),
            ChannelData::ArrayDComplex16(_, s) => Some(s@),
            ChannelData::ArrayDComplex32(_, s) => Some(s@),
            ChannelData::ArrayDComplex64(_, s) => Some(s@),
            _ => None,
        }
    }

    /// The stored numbers in order: the samples of a numeric channel (floats
    /// by their bits), the bytes of a fixed-size byte array, and nothing for
    /// the other kinds.
    pub open spec fn ints(&self) -> Seq<int> {
        match self {
            ChannelData::Int8(v) | ChannelData::ArrayDInt8(v, _) => ints_i8(v@),
            ChannelData::UInt8(v) | ChannelData::ArrayDUInt8(v, _) => ints_u8(v@),
            ChannelData::Int16(v) | ChannelData::ArrayDInt16(v, _) => ints_i16(v@),
            ChannelData::UInt16(v) | ChannelData::ArrayDUInt16(v, _) => ints_u16(v@),
            ChannelData::Float16(v) | ChannelData::ArrayDFloat16(v, _) => ints_u16(v@),
            ChannelData::Int24(v) | ChannelData::ArrayDInt24(v, _) => ints_i32(v@),
            ChannelData::UInt24(v) | ChannelData::ArrayDUInt24(v, _) => ints_u32(v@),
            ChannelData::Int32(v) | ChannelData::ArrayDInt32(v, _) => ints_i32(v@),
            ChannelData::UInt32(v) | ChannelData::ArrayDUInt32(v, _) => ints_u32(v@),
            ChannelData::Float32(v) | ChannelData::ArrayDFloat32(v, _) => ints_u32(v@),
            ChannelData::Int48(v) | ChannelData::ArrayDInt48(v, _) => ints_i64(v@),
            ChannelData::UInt48(v) | ChannelData::ArrayDUInt48(v, _) => ints_u64(v@),
            ChannelData::Int64(v) | ChannelData::ArrayDInt64(v, _) => ints_i64(v@),
            ChannelData::UInt64(v) | ChannelData::ArrayDUInt64(v, _) => ints_u64(v@),
            ChannelData::Float64(v) | ChannelData::ArrayDFloat64(v, _) => ints_u64(v@),
            ChannelData::Complex16(v) | ChannelData::ArrayDComplex16(v, _) => ints_u16(v@),
            ChannelData::Complex32(v) | ChannelData::ArrayDComplex32(v, _) => ints_u32(v@),
            ChannelData::Complex64(v) | ChannelData::ArrayDComplex64(v, _) => ints_u64(v@),
            ChannelData::FixedSizeByteArray(v, _) => ints_u8(v@),
            _ => Seq::empty(),
        }
    }

    /// The samples of a text channel; nothing for the other kinds.
    pub open spec fn strings(&self) -> Seq<Seq<char>> {
        match self {
            ChannelData::StringSBC(v) | ChannelData::StringUTF8(v) | ChannelData::StringUTF16(v) => {
                texts(v@)
            },
            _ => Seq::empty(),
        }
    }

    /// The samples of a channel of variable-size byte arrays; nothing for the
    /// other kinds.
    pub open spec fn rows(&self) -> Seq<Seq<u8>> {
        match self {
            ChannelData::VariableSizeByteArray(v) => byte_rows(v@),
            _ => Seq::empty(),
        }
    }

    /// The length of one sample of a fixed-size byte array; 0 for the other kinds.
    pub open spec fn row_bytes(&self) -> nat {
        match self {
            ChannelData::FixedSizeByteArray(_, n) => *n as nat,
            _ => 0,
        }
    }

    /// The number of stored items: numbers, strings or byte strings.
    pub open spec fn spec_len(&self) -> nat {
        self.ints().len() + self.strings().len() + self.rows().len()
    }

    /// The encoding of the samples.
    pub fn elem_kind(&self) -> (r: ElemKind)
        ensures
            r == self.kind(),
    {
        match self {
            ChannelData::Int8(_) | ChannelData::ArrayDInt8(_, _) => ElemKind::Int8,
            ChannelData::UInt8(_) | ChannelData::ArrayDUInt8(_, _) => ElemKind::UInt8,
            ChannelData::Int16(_) | ChannelData::ArrayDInt16(_, _) => ElemKind::Int16,
            ChannelData::UInt16(_) | ChannelData::ArrayDUInt16(_, _) => ElemKind::UInt16,
            ChannelData::Float16(_) | ChannelData::ArrayDFloat16(_, _) => ElemKind::Float16,
            ChannelData::Int24(_) | ChannelData::ArrayDInt24(_, _) => ElemKind::Int24,
            ChannelData::UInt24(_) | ChannelData::ArrayDUInt24(_, _) => ElemKind::UInt24,
            ChannelData::Int32(_) | ChannelData::ArrayDInt32(_, _) => ElemKind::Int32,
            ChannelData::UInt32(_) | ChannelData::ArrayDUInt32(_, _) => ElemKind::UInt32,
            ChannelData::Float32(_) | ChannelData::ArrayDFloat32(_, _) => ElemKind::Float32,
            ChannelData::Int48(_) | ChannelData::ArrayDInt48(_, _) => ElemKind::Int48,
            ChannelData::UInt48(_) | ChannelData::ArrayDUInt48(_, _) => ElemKind::UInt48,
            ChannelData::Int64(_) | ChannelData::ArrayDInt64(_, _) => ElemKind::Int64,
            ChannelData::UInt64(_) | ChannelData::ArrayDUInt64(_, _) => ElemKind::UInt64,
            ChannelData::Float64(_) | ChannelData::ArrayDFloat64(_, _) => ElemKind::Float64,
            ChannelData::Complex16(_) | ChannelData::ArrayDComplex16(_, _) => ElemKind::Complex16,
            ChannelData::Complex32(_) | ChannelData::ArrayDComplex32(_, _) => ElemKind::Complex32,
            ChannelData::Complex64(_) | ChannelData::ArrayDComplex64(_, _) => ElemKind::Complex64,
            ChannelData::StringSBC(_) => ElemKind::StringSBC,
            ChannelData::StringUTF8(_) => ElemKind::StringUTF8,
            ChannelData::StringUTF16(_) => ElemKind::StringUTF16,
            ChannelData::VariableSizeByteArray(_) => ElemKind::VariableSizeByteArray,
            ChannelData::FixedSizeByteArray(_, _) => ElemKind::FixedSizeByteArray,
        }
    }

    /// Tells whether the samples are arrays.
    pub fn is_array(&self) -> (r: bool)
        ensures
            r == self.shape().is_some(),
    {
        match self {
            ChannelData::ArrayDInt8(_, _) => true,
            ChannelData::ArrayDUInt8(_, _) => true,
            ChannelData::ArrayDInt16(_, _) => true,
            ChannelData::ArrayDUInt16(_, _) => true,
            ChannelData::ArrayDFloat16(_, _) => true,
            ChannelData::ArrayDInt24(_, _) => true,
            ChannelData::ArrayDUInt24(_, _) => true,
            ChannelData::ArrayDInt32(_, _) => true,
            ChannelData::ArrayDUInt32(_, _) => true,
            ChannelData::ArrayDFloat32(_, _) => true,
            ChannelData::ArrayDInt48(_, _) => true,
            ChannelData::ArrayDUInt48(_, _) => true,
            ChannelData::ArrayDInt64(_, _) => true,
            ChannelData::ArrayDUInt64(_, _) => true,
            ChannelData::ArrayDFloat64(_, _) => true,
            ChannelData::ArrayDComplex16(_, _) => true,
            ChannelData::ArrayDComplex32(_, _) => true,
            ChannelData::ArrayDComplex64(_, _) => true,
            _ => false,
        }
    }

    /// The number of stored items: numbers, strings or byte strings.
    pub fn len(&self) -> (r: usize)
        ensures
            r == self.spec_len(),
    {
        match self {
            ChannelData::Int8(v) | ChannelData::ArrayDInt8(v, _) => v.len(),
            ChannelData::UInt8(v) | ChannelData::ArrayDUInt8(v, _) => v.len(),
            ChannelData::Int16(v) | ChannelData::ArrayDInt16(v, _) => v.len(),
            ChannelData::UInt16(v) | ChannelData::ArrayDUInt16(v, _) => v.len(),
            ChannelData::Float16(v) | ChannelData::ArrayDFloat16(v, _) => v.len(),
            ChannelData::Int24(v) | ChannelData::ArrayDInt24(v, _) => v.len(),
            ChannelData::UInt24(v) | ChannelData::ArrayDUInt24(v, _) => v.len(),
            ChannelData::Int32(v) | ChannelData::ArrayDInt32(v, _) => v.len(),
            ChannelData::UInt32(v) | ChannelData::ArrayDUInt32(v, _) => v.len(),
            ChannelData::Float32(v) | ChannelData::ArrayDFloat32(v, _) => v.len(),
            ChannelData::Int48(v) | ChannelData::ArrayDInt48(v, _) => v.len(),
            ChannelData::UInt48(v) | ChannelData::ArrayDUInt48(v, _) => v.len(),
            ChannelData::Int64(v) | ChannelData::ArrayDInt64(v, _) => v.len(),
            ChannelData::UInt64(v) | ChannelData::ArrayDUInt64(v, _) => v.len(),
            ChannelData::Float64(v) | ChannelData::ArrayDFloat64(v, _) => v.len(),
            ChannelData::Complex16(v) | ChannelData::ArrayDComplex16(v, _) => v.len(),
            ChannelData::Complex32(v) | ChannelData::ArrayDComplex32(v, _) => v.len(),
            ChannelData::Complex64(v) | ChannelData::ArrayDComplex64(v, _) => v.len(),
            ChannelData::StringSBC(v) | ChannelData::StringUTF8(v) | ChannelData::StringUTF16(v) => {
                v.len()
            },
            ChannelData::VariableSizeByteArray(v) => v.len(),
            ChannelData::FixedSizeByteArray(v, _) => v.len(),
        }
    }

    /// Tells whether nothing is stored.
    pub fn is_empty(&self) -> (r: bool)
        ensures
            r == (self.spec_len() == 0),
    {
        let n = self.len();
        n == 0
    }
}

impl Default for ChannelData {
    /// An empty column of `u8`.
    fn default() -> (r: Self)
        ensures
            r.kind() == ElemKind::UInt8,
            r.shape().is_none(),
            r.spec_len() == 0,
    {
        ChannelData::UInt8(Vec::new())
    }
}

/// A column of `n` zeros.
pub open spec fn zero_ints(n: nat) -> Seq<int> {
    Seq::new(n, |i: int| 0int)
}

/// The numbers from 0 up to `n`, without `n`.
pub open spec fn counting_ints(n: nat) -> Seq<int> {
    Seq::new(n, |i: int| i)
}

/// A column of `n` empty strings.
pub open spec fn empty_strings(n: nat) -> Seq<Seq<char>> {
    Seq::new(n, |i: int| Seq::<char>::empty())
}

/// A column of `n` byte strings of `width` zeros each.
pub open spec fn zero_rows(n: nat, width: nat) -> Seq<Seq<u8>> {
    Seq::new(n, |i: int| Seq::new(width, |j: int| 0u8))
}

/// A product of dimensions of which one is zero is zero.
proof fn lemma_product_with_zero(shape: Seq<usize>, i: int)
    requires
        0 <= i < shape.len(),
        shape[i] == 0,
    ensures
        shape_product(shape) == 0,
    decreases shape.len(),
{
    if i == shape.len() - 1 {
        assert(shape_product(shape.drop_last()) * 0 == 0) by (nonlinear_arith);
    } else {
        lemma_product_with_zero(shape.drop_last(), i);
        assert(0 * (shape.last() as nat) == 0) by (nonlinear_arith);
    }
}

/// Where no dimension is zero, the product of the first dimensions is at
/// least 1 and at most the product of all.
proof fn lemma_product_grows(shape: Seq<usize>, i: int)
    requires
        0 <= i <= shape.len(),
        forall|k: int| 0 <= k < shape.len() ==> shape[k] >= 1,
    ensures
        1 <= shape_product(shape.subrange(0, i)) <= shape_product(shape),
    decreases shape.len() - i,
{
    if i == shape.len() {
        assert(shape.subrange(0, i) =~= shape);
        lemma_product_positive(shape);
    } else {
        lemma_product_grows(shape, i + 1);
        let next = shape.subrange(0, i + 1);
        assert(next.drop_last() =~= shape.subrange(0, i));
        assert(next.last() == shape[i]);
        lemma_product_positive(shape.subrange(0, i));
        assert(shape_product(shape.subrange(0, i)) <= shape_product(shape.subrange(0, i)) * (
        shape[i] as nat)) by (nonlinear_arith)
            requires
                shape[i] >= 1,
        ;
    }
}

/// Where no dimension is zero, the product of the dimensions is at least 1.
proof fn lemma_product_positive(shape: Seq<usize>)
    requires
        forall|k: int| 0 <= k < shape.len() ==> shape[k] >= 1,
    ensures
        shape_product(shape) >= 1,
    decreases shape.len(),
{
    if shape.len() > 0 {
        lemma_product_positive(shape.drop_last());
        assert(shape_product(shape.drop_last()) * (shape.last() as nat) >= 1) by (nonlinear_arith)
            requires
                shape_product(shape.drop_last()) >= 1,
                shape.last() >= 1,
        ;
    }
}

/// Computes the product of the dimensions; `None` where it does not fit the
/// machine's word.
pub fn product_of(shape: &Vec<usize>) -> (r: Option<usize>)
    ensures
        r is Some <==> shape_product(shape@) <= usize::MAX,
        r is Some ==> r->0 == shape_product(shape@),
{
    let mut i: usize = 0;
    while i < shape.len()
        invariant
            i <= shape.len(),
            forall|k: int| 0 <= k < i ==> shape@[k] >= 1,
        decreases shape.len() - i,
    {
        if shape[i] == 0 {
            proof {
                lemma_product_with_zero(shape@, i as int);
            }
            return Some(0);
        }
        i += 1;
    }
    let mut acc: usize = 1;
    let mut j: usize = 0;
    proof {
        assert(shape@.subrange(0, 0) =~= Seq::<usize>::empty());
    }
    while j < shape.len()
        invariant
            j <= shape.len(),
            forall|k: int| 0 <= k < shape.len() ==> shape@[k] >= 1,
            acc == shape_product(shape@.subrange(0, j as int)),
        decreases shape.len() - j,
    {
        proof {
            assert(shape@.subrange(0, j + 1).drop_last() =~= shape@.subrange(0, j as int));
            lemma_product_grows(shape@, j + 1);
        }
        acc = match acc.checked_mul(shape[j]) {
            Some(x) => x,
            None => {
                return None;
            },
        };
        j += 1;
    }
    proof {
        assert(shape@.subrange(0, j as int) =~= shape@);
    }
    Some(acc)
}

/// The number of stored items of a column with the given representation
/// that holds `cycle_count` samples.
pub open spec fn stored_len(
    kind: ElemKind,
    shape: Option<Seq<usize>>,
    cycle_count: nat,
    n_bytes: nat,
) -> nat {
    if kind.numeric() {
        match shape {
            Some(s) => cycle_count * (kind.components() * shape_product(s)),
            None => cycle_count * kind.components(),
        }
    } else if kind is FixedSizeByteArray {
        cycle_count * n_bytes
    } else {
        cycle_count
    }
}

/// `data` is a column for `cycle_count` samples in which nothing is decoded
/// yet: zeros, empty strings, and byte strings of `n_bytes` zeros.
pub open spec fn is_zeroed(data: ChannelData, cycle_count: nat, n_bytes: nat) -> bool {
    let kind = data.kind();
    &&& data.ints() == if kind.numeric() || kind is FixedSizeByteArray {
        zero_ints(stored_len(kind, data.shape(), cycle_count, n_bytes))
    } else {
        Seq::<int>::empty()
    }
    &&& data.strings() == if kind.text() {
        empty_strings(cycle_count)
    } else {
        Seq::<Seq<char>>::empty()
    }
    &&& data.rows() == if kind is VariableSizeByteArray {
        zero_rows(cycle_count, n_bytes)
    } else {
        Seq::<Seq<u8>>::empty()
    }
    &&& data.row_bytes() == if kind is FixedSizeByteArray {
        n_bytes
    } else {
        0
    }
}

impl ChannelData {
    /// Computes the number of items that a column of this representation
    /// stores for `cycle_count` samples; `None` where that number does not
    /// fit the machine's word.
    pub fn stored_count(&self, cycle_count: u64, n_bytes: u32) -> (r: Option<usize>)
        ensures
            r is Some <==> stored_len(
                self.kind(),
                self.shape(),
                cycle_count as nat,
                n_bytes as nat,
            ) <= usize::MAX,
            r is Some ==> r->0 == stored_len(
                self.kind(),
                self.shape(),
                cycle_count as nat,
                n_bytes as nat,
            ),
    {
        let kind = self.elem_kind();
        let per: Option<usize> = if kind.is_numeric() {
            let comps: usize = match kind {
                ElemKind::Complex16 | ElemKind::Complex32 | ElemKind::Complex64 => 2,
                _ => 1,
            };
            match self.shape_dims() {
                Some(shape) => match product_of(shape) {
                    Some(p) => comps.checked_mul(p),
                    None => None,
                },
                None => Some(comps),
            }
        } else {
            match kind {
                ElemKind::FixedSizeByteArray => Some(n_bytes as usize),
                _ => Some(1),
            }
        };
        let ghost per_spec: nat = if kind.numeric() {
            match self.shape() {
                Some(s) => kind.components() * shape_product(s),
                None => kind.components(),
            }
        } else if kind is FixedSizeByteArray {
            n_bytes as nat
        } else {
            1
        };
        proof {
            assert(stored_len(self.kind(), self.shape(), cycle_count as nat, n_bytes as nat)
                == cycle_count * per_spec) by (nonlinear_arith)
                requires
                    stored_len(self.kind(), self.shape(), cycle_count as nat, n_bytes as nat) == (
                    if kind.numeric() || kind is FixedSizeByteArray {
                        cycle_count * per_spec
                    } else {
                        cycle_count as int
                    }),
                    !(kind.numeric() || kind is FixedSizeByteArray) ==> per_spec == 1,
            ;
        }
        if cycle_count == 0 {
            assert(cycle_count * per_spec == 0) by (nonlinear_arith)
                requires
                    cycle_count == 0,
            ;
            return Some(0);
        }
        match per {
            Some(p) => {
                assert(p == per_spec);
                if cycle_count > usize::MAX as u64 {
                    if p == 0 {
                        assert(cycle_count * per_spec == 0) by (nonlinear_arith)
                            requires
                                per_spec == 0,
                        ;
                        Some(0)
                    } else {
                        assert(cycle_count * per_spec > usize::MAX) by (nonlinear_arith)
                            requires
                                cycle_count > usize::MAX,
                                per_spec >= 1,
                        ;
                        None
                    }
                } else {
                    (cycle_count as usize).checked_mul(p)
                }
            },
            None => {
                assert(per_spec > usize::MAX) by {
                    let s = self.shape()->0;
                    assert(kind.components() * shape_product(s) >= shape_product(s))
                        by (nonlinear_arith)
                        requires
                            kind.components() >= 1,
                    ;
                }
                assert(cycle_count * per_spec > usize::MAX) by (nonlinear_arith)
                    requires
                        cycle_count >= 1,
                        per_spec > usize::MAX,
                ;
                None
            },
        }
    }

    /// The dimensions of one sample of an array channel; `None` for the others.
    pub fn shape_dims(&self) -> (r: Option<&Vec<usize>>)
        ensures
            r is Some <==> self.shape() is Some,
            r is Some ==> r->0@ == self.shape()->0,
    {
        match self {
            ChannelData::ArrayDInt8(_, s) => Some(s),
            ChannelData::ArrayDUInt8(_, s) => Some(s),
            ChannelData::ArrayDInt16(_, s) => Some(s),
            ChannelData::ArrayDUInt16(_, s) => Some(s),
            ChannelData::ArrayDFloat16(_, s) => Some(s),
            ChannelData::ArrayDInt24(_, s) => Some(s),
            ChannelData::ArrayDUInt24(_, s) => Some(s),
            ChannelData::ArrayDInt32(_, s) => Some(s),
            ChannelData::ArrayDUInt32(_, s) => Some(s),
            ChannelData::ArrayDFloat32(_, s) => Some(s),
            ChannelData::ArrayDInt48(_, s) => Some(s),
            ChannelData::ArrayDUInt48(_, s) => Some(s),
            ChannelData::ArrayDInt64(_, s) => Some(s),
            ChannelData::ArrayDUInt64(_, s) => Some(s),
            ChannelData::ArrayDFloat64(_, s) => Some(s),
            ChannelData::ArrayDComplex16(_, s) => Some(s),
            ChannelData::ArrayDComplex32(_, s) => Some(s),
            ChannelData::ArrayDComplex64(_, s) => Some(s),
            _ => None,
        }
    }

    /// A column of the same representation as `self` for `cycle_count`
    /// samples, in which nothing is decoded yet.
    pub fn zeros(&self, cycle_count: u64, n_bytes: u32) -> (r: ChannelData)
        requires
            stored_len(self.kind(), self.shape(), cycle_count as nat, n_bytes as nat)
                <= usize::MAX,
            cycle_count <= usize::MAX,
        ensures
            r.kind() == self.kind(),
            r.shape() == self.shape(),
            is_zeroed(r, cycle_count as nat, n_bytes as nat),
    {
        let count = match self.stored_count(cycle_count, n_bytes) {
            Some(c) => c,
            None => 0,
        };
        let r = match self {
            ChannelData::Int8(_) => ChannelData::Int8(vec![0i8; count]),
            ChannelData::UInt8(_) => ChannelData::UInt8(vec![0u8; count]),
            ChannelData::Int16(_) => ChannelData::Int16(vec![0i16; count]),
            ChannelData::UInt16(_) => ChannelData::UInt16(vec![0u16; count]),
            ChannelData::Float16(_) => ChannelData::Float16(vec![0u16; count]),
            ChannelData::Int24(_) => ChannelData::Int24(vec![0i32; count]),
            ChannelData::UInt24(_) => ChannelData::UInt24(vec![0u32; count]),
            ChannelData::Int32(_) => ChannelData::Int32(vec![0i32; count]),
            ChannelData::UInt32(_) => ChannelData::UInt32(vec![0u32; count]),
            ChannelData::Float32(_) => ChannelData::Float32(vec![0u32; count]),
            ChannelData::Int48(_) => ChannelData::Int48(vec![0i64; count]),
            ChannelData::UInt48(_) => ChannelData::UInt48(vec![0u64; count]),
            ChannelData::Int64(_) => ChannelData::Int64(vec![0i64; count]),
            ChannelData::UInt64(_) => ChannelData::UInt64(vec![0u64; count]),
            ChannelData::Float64(_) => ChannelData::Float64(vec![0u64; count]),
            ChannelData::Complex16(_) => ChannelData::Complex16(vec![0u16; count]),
            ChannelData::Complex32(_) => ChannelData::Complex32(vec![0u32; count]),
            ChannelData::Complex64(_) => ChannelData::Complex64(vec![0u64; count]),
            ChannelData::ArrayDInt8(_, shape) => ChannelData::ArrayDInt8(vec![0i8; count], shape.clone()),
            ChannelData::ArrayDUInt8(_, shape) => ChannelData::ArrayDUInt8(vec![0u8; count], shape.clone()),
            ChannelData::ArrayDInt16(_, shape) => ChannelData::ArrayDInt16(vec![0i16; count], shape.clone()),
            ChannelData::ArrayDUInt16(_, shape) => ChannelData::ArrayDUInt16(vec![0u16; count], shape.clone()),
            ChannelData::ArrayDFloat16(_, shape) => ChannelData::ArrayDFloat16(vec![0u16; count], shape.clone()),
            ChannelData::ArrayDInt24(_, shape) => ChannelData::ArrayDInt24(vec![0i32; count], shape.clone()),
            ChannelData::ArrayDUInt24(_, shape) => ChannelData::ArrayDUInt24(vec![0u32; count], shape.clone()),
            ChannelData::ArrayDInt32(_, shape) => ChannelData::ArrayDInt32(vec![0i32; count], shape.clone()),
            ChannelData::ArrayDUInt32(_, shape) => ChannelData::ArrayDUInt32(vec![0u32; count], shape.clone()),
            ChannelData::ArrayDFloat32(_, shape) => ChannelData::ArrayDFloat32(vec![0u32; count], shape.clone()),
            ChannelData::ArrayDInt48(_, shape) => ChannelData::ArrayDInt48(vec![0i64; count], shape.clone()),
            ChannelData::ArrayDUInt48(_, shape) => ChannelData::ArrayDUInt48(vec![0u64; count], shape.clone()),
            ChannelData::ArrayDInt64(_, shape) => ChannelData::ArrayDInt64(vec![0i64; count], shape.clone()),
            ChannelData::ArrayDUInt64(_, shape) => ChannelData::ArrayDUInt64(vec![0u64; count], shape.clone()),
            ChannelData::ArrayDFloat64(_, shape) => ChannelData::ArrayDFloat64(vec![0u64; count], shape.clone()),
            ChannelData::ArrayDComplex16(_, shape) => ChannelData::ArrayDComplex16(vec![0u16; count], shape.clone()),
            ChannelData::ArrayDComplex32(_, shape) => ChannelData::ArrayDComplex32(vec![0u32; count], shape.clone()),
            ChannelData::ArrayDComplex64(_, shape) => ChannelData::ArrayDComplex64(vec![0u64; count], shape.clone()),
            ChannelData::StringSBC(_) => ChannelData::StringSBC(
                vec![String::new(); cycle_count as usize],
            ),
            ChannelData::StringUTF8(_) => ChannelData::StringUTF8(
                vec![String::new(); cycle_count as usize],
            ),
            ChannelData::StringUTF16(_) => ChannelData::StringUTF16(
                vec![String::new(); cycle_count as usize],
            ),
            ChannelData::VariableSizeByteArray(_) => ChannelData::VariableSizeByteArray(
                zeroed_rows(cycle_count as usize, n_bytes as usize),
            ),
            ChannelData::FixedSizeByteArray(_, _) => ChannelData::FixedSizeByteArray(
                vec![0u8; count],
                n_bytes as usize,
            ),
        };
        proof {
            let kind = self.kind();
            if kind.numeric() || kind is FixedSizeByteArray {
                assert(r.ints() =~= zero_ints(count as nat));
            }
            if kind.text() {
                assert(r.strings() =~= empty_strings(cycle_count as nat));
            }
        }
        r
    }
}

/// Makes `n` byte strings of `width` zeros each.
fn zeroed_rows(n: usize, width: usize) -> (r: Vec<Vec<u8>>)
    ensures
        byte_rows(r@) == zero_rows(n as nat, width as nat),
{
    let mut rows: Vec<Vec<u8>> = Vec::with_capacity(n);
    let mut i: usize = 0;
    while i < n
        invariant
            i <= n,
            rows@.len() == i,
            forall|k: int| 0 <= k < i ==> #[trigger] rows@[k]@ == Seq::new(width as nat, |j: int| 0u8),
        decreases n - i,
    {
        let row = vec![0u8; width];
        proof {
            assert(row@ =~= Seq::new(width as nat, |j: int| 0u8));
        }
        rows.push(row);
        i += 1;
    }
    proof {
        assert(byte_rows(rows@) =~= zero_rows(n as nat, width as nat));
    }
    rows
}

/// The representation in which the values of a channel are stored, by the
/// channel's type, raw data type code and number of bytes.
///
/// Integers take the narrowest column that holds `n_bytes` bytes; data types
/// 0 and 1 are unsigned, 2 and 3 signed, 4 and 5 floats, 15 and 16 complex
/// numbers, 6 to 9 text, and all others byte arrays: of variable size for a
/// channel of variable length (type 1), else of fixed size.
pub open spec fn kind_of(cn_type: u8, cn_data_type: u8, n_bytes: u32) -> ElemKind {
    if cn_data_type == 0 || cn_data_type == 1 {
        if n_bytes <= 1 {
            ElemKind::UInt8
        } else if n_bytes == 2 {
            ElemKind::UInt16
        } else if n_bytes == 3 {
            ElemKind::UInt24
        } else if n_bytes == 4 {
            ElemKind::UInt32
        } else if n_bytes <= 6 {
            ElemKind::UInt48
        } else {
            ElemKind::UInt64
        }
    } else if cn_data_type == 2 || cn_data_type == 3 {
        if n_bytes <= 1 {
            ElemKind::Int8
        } else if n_bytes == 2 {
            ElemKind::Int16
        } else if n_bytes == 3 {
            ElemKind::Int24
        } else if n_bytes == 4 {
            ElemKind::Int32
        } else if n_bytes <= 6 {
            ElemKind::Int48
        } else {
            ElemKind::Int64
        }
    } else if cn_data_type == 4 || cn_data_type == 5 {
        if n_bytes <= 2 {
            ElemKind::Float16
        } else if n_bytes <= 4 {
            ElemKind::Float32
        } else {
            ElemKind::Float64
        }
    } else if cn_data_type == 15 || cn_data_type == 16 {
        if n_bytes <= 4 {
            ElemKind::Complex16
        } else if n_bytes <= 8 {
            ElemKind::Complex32
        } else {
            ElemKind::Complex64
        }
    } else if cn_data_type == 6 {
        ElemKind::StringSBC
    } else if cn_data_type == 7 {
        ElemKind::StringUTF8
    } else if cn_data_type == 8 || cn_data_type == 9 {
        ElemKind::StringUTF16
    } else if cn_type == 1 {
        ElemKind::VariableSizeByteArray
    } else {
        ElemKind::FixedSizeByteArray
    }
}

/// Computes the representation in which the values of a channel are stored.
pub fn elem_kind_of(cn_type: u8, cn_data_type: u8, n_bytes: u32) -> (r: ElemKind)
    ensures
        r == kind_of(cn_type, cn_data_type, n_bytes),
{
    if cn_data_type == 0 || cn_data_type == 1 {
        if n_bytes <= 1 {
            ElemKind::UInt8
        } else if n_bytes == 2 {
            ElemKind::UInt16
        } else if n_bytes == 3 {
            ElemKind::UInt24
        } else if n_bytes == 4 {
            ElemKind::UInt32
        } else if n_bytes <= 6 {
            ElemKind::UInt48
        } else {
            ElemKind::UInt64
        }
    } else if cn_data_type == 2 || cn_data_type == 3 {
        if n_bytes <= 1 {
            ElemKind::Int8
        } else if n_bytes == 2 {
            ElemKind::Int16
        } else if n_bytes == 3 {
            ElemKind::Int24
        } else if n_bytes == 4 {
            ElemKind::Int32
        } else if n_bytes <= 6 {
            ElemKind::Int48
        } else {
            ElemKind::Int64
        }
    } else if cn_data_type == 4 || cn_data_type == 5 {
        if n_bytes <= 2 {
            ElemKind::Float16
        } else if n_bytes <= 4 {
            ElemKind::Float32
        } else {
            ElemKind::Float64
        }
    } else if cn_data_type == 15 || cn_data_type == 16 {
        if n_bytes <= 4 {
            ElemKind::Complex16
        } else if n_bytes <= 8 {
            ElemKind::Complex32
        } else {
            ElemKind::Complex64
        }
    } else if cn_data_type == 6 {
        ElemKind::StringSBC
    } else if cn_data_type == 7 {
        ElemKind::StringUTF8
    } else if cn_data_type == 8 || cn_data_type == 9 {
        ElemKind::StringUTF16
    } else if cn_type == 1 {
        ElemKind::VariableSizeByteArray
    } else {
        ElemKind::FixedSizeByteArray
    }
}

/// An empty column of scalar samples of the given kind.
pub fn empty_scalar(kind: ElemKind) -> (r: ChannelData)
    ensures
        r.kind() == kind,
        r.shape() is None,
        r.spec_len() == 0,
{
    match kind {
        ElemKind::Int8 => ChannelData::Int8(Vec::new()),
        ElemKind::UInt8 => ChannelData::UInt8(Vec::new()),
        ElemKind::Int16 => ChannelData::Int16(Vec::new()),
        ElemKind::UInt16 => ChannelData::UInt16(Vec::new()),
        ElemKind::Float16 => ChannelData::Float16(Vec::new()),
        ElemKind::Int24 => ChannelData::Int24(Vec::new()),
        ElemKind::UInt24 => ChannelData::UInt24(Vec::new()),
        ElemKind::Int32 => ChannelData::Int32(Vec::new()),
        ElemKind::UInt32 => ChannelData::UInt32(Vec::new()),
        ElemKind::Float32 => ChannelData::Float32(Vec::new()),
        ElemKind::Int48 => ChannelData::Int48(Vec::new()),
        ElemKind::UInt48 => ChannelData::UInt48(Vec::new()),
        ElemKind::Int64 => ChannelData::Int64(Vec::new()),
        ElemKind::UInt64 => ChannelData::UInt64(Vec::new()),
        ElemKind::Float64 => ChannelData::Float64(Vec::new()),
        ElemKind::Complex16 => ChannelData::Complex16(Vec::new()),
        ElemKind::Complex32 => ChannelData::Complex32(Vec::new()),
        ElemKind::Complex64 => ChannelData::Complex64(Vec::new()),
        ElemKind::StringSBC => ChannelData::StringSBC(Vec::new()),
        ElemKind::StringUTF8 => ChannelData::StringUTF8(Vec::new()),
        ElemKind::StringUTF16 => ChannelData::StringUTF16(Vec::new()),
        ElemKind::VariableSizeByteArray => ChannelData::VariableSizeByteArray(Vec::new()),
        ElemKind::FixedSizeByteArray => ChannelData::FixedSizeByteArray(Vec::new(), 0),
    }
}

/// An empty column of array samples of the given kind and dimensions.
/// Kinds that are not numeric have no arrays: they give a scalar column.
pub fn empty_array(kind: ElemKind, shape: Vec<usize>) -> (r: ChannelData)
    ensures
        r.kind() == kind,
        kind.numeric() ==> r.shape() == Some(shape@),
        !kind.numeric() ==> r.shape() is None,
        r.spec_len() == 0,
{
    match kind {
        ElemKind::Int8 => ChannelData::ArrayDInt8(Vec::new(), shape),
        ElemKind::UInt8 => ChannelData::ArrayDUInt8(Vec::new(), shape),
        ElemKind::Int16 => ChannelData::ArrayDInt16(Vec::new(), shape),
        ElemKind::UInt16 => ChannelData::ArrayDUInt16(Vec::new(), shape),
        ElemKind::Float16 => ChannelData::ArrayDFloat16(Vec::new(), shape),
        ElemKind::Int24 => ChannelData::ArrayDInt24(Vec::new(), shape),
        ElemKind::UInt24 => ChannelData::ArrayDUInt24(Vec::new(), shape),
        ElemKind::Int32 => ChannelData::ArrayDInt32(Vec::new(), shape),
        ElemKind::UInt32 => ChannelData::ArrayDUInt32(Vec::new(), shape),
        ElemKind::Float32 => ChannelData::ArrayDFloat32(Vec::new(), shape),
        ElemKind::Int48 => ChannelData::ArrayDInt48(Vec::new(), shape),
        ElemKind::UInt48 => ChannelData::ArrayDUInt48(Vec::new(), shape),
        ElemKind::Int64 => ChannelData::ArrayDInt64(Vec::new(), shape),
        ElemKind::UInt64 => ChannelData::ArrayDUInt64(Vec::new(), shape),
        ElemKind::Float64 => ChannelData::ArrayDFloat64(Vec::new(), shape),
        ElemKind::Complex16 => ChannelData::ArrayDComplex16(Vec::new(), shape),
        ElemKind::Complex32 => ChannelData::ArrayDComplex32(Vec::new(), shape),
        ElemKind::Complex64 => ChannelData::ArrayDComplex64(Vec::new(), shape),
        ElemKind::StringSBC => ChannelData::StringSBC(Vec::new()),
        ElemKind::StringUTF8 => ChannelData::StringUTF8(Vec::new()),
        ElemKind::StringUTF16 => ChannelData::StringUTF16(Vec::new()),
        ElemKind::VariableSizeByteArray => ChannelData::VariableSizeByteArray(Vec::new()),
        ElemKind::FixedSizeByteArray => ChannelData::FixedSizeByteArray(Vec::new(), 0),
    }
}

/// An empty column of the representation that a channel's type, raw data
/// type code and number of bytes call for.
pub fn data_type_init(cn_type: u8, cn_data_type: u8, n_bytes: u32, is_array: bool) -> (r:
    ChannelData)
    ensures
        r.kind() == kind_of(cn_type, cn_data_type, n_bytes),
        r.shape() is Some <==> is_array && r.kind().numeric(),
        r.spec_len() == 0,
{
    let kind = elem_kind_of(cn_type, cn_data_type, n_bytes);
    if is_array {
        empty_array(kind, Vec::new())
    } else {
        empty_scalar(kind)
    }
}

/// The numbers from 0 up to `n`, without `n`, as a column of `u64`.
fn counting_column(n: usize) -> (r: Vec<u64>)
    ensures
        ints_u64(r@) == counting_ints(n as nat),
{
    let mut v: Vec<u64> = Vec::with_capacity(n);
    let mut i: usize = 0;
    while i < n
        invariant
            i <= n,
            v@.len() == i,
            forall|k: int| 0 <= k < i ==> v@[k] == k,
        decreases n - i,
    {
        v.push(i as u64);
        i += 1;
    }
    proof {
        assert(ints_u64(v@) =~= counting_ints(n as nat));
    }
    v
}

/// True for the channel types whose values are not stored: the virtual
/// master (3) and virtual data (6) channels, whose value is the index of the
/// sample.
pub open spec fn virtual_type(cn_type: u8) -> bool {
    cn_type == 3 || cn_type == 6
}

/// Makes the column of a channel for `cycle_count` samples.
///
/// A virtual channel gets the numbers from 0 on as 64-bit unsigned integers.
/// Any other channel gets a zeroed column of the representation that its data
/// type and number of bytes call for.
pub fn data_init(cn_type: u8, cn_data_type: u8, n_bytes: u32, cycle_count: u64) -> (r:
    ChannelData)
    requires
        cycle_count * (if n_bytes > 2 {
            n_bytes as nat
        } else {
            2
        }) <= usize::MAX,
    ensures
        r.shape() is None,
        virtual_type(cn_type) ==> r.kind() == ElemKind::UInt64 && r.ints() == counting_ints(
            cycle_count as nat,
        ),
        !virtual_type(cn_type) ==> r.kind() == kind_of(cn_type, cn_data_type, n_bytes)
            && is_zeroed(r, cycle_count as nat, n_bytes as nat),
{
    proof {
        assert(cycle_count <= usize::MAX && cycle_count * 2 <= usize::MAX && cycle_count * n_bytes
            <= usize::MAX) by (nonlinear_arith)
            requires
                cycle_count * (if n_bytes > 2 {
                    n_bytes as nat
                } else {
                    2
                }) <= usize::MAX,
        ;
    }
    if cn_type == 3 || cn_type == 6 {
        ChannelData::UInt64(counting_column(cycle_count as usize))
    } else {
        let model = data_type_init(cn_type, cn_data_type, n_bytes, false);
        proof {
            assert(cycle_count * 1 == cycle_count) by (nonlinear_arith);
        }
        model.zeros(cycle_count, n_bytes)
    }
}

} // verus!
