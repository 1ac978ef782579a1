//! Errors of the metadata and data decoders.

use vstd::prelude::*;

verus! {

/// What can go wrong while a file is decoded.
///
/// `CorruptBlock`, `UnexpectedBlockType` and `MalformedDate` are structural:
/// every later offset depends on the block that failed, so no partial result
/// is handed out. `UnsupportedEncoding` concerns one channel only, and
/// `MalformedComment` one comment block.
#[derive(Debug, Clone, Copy, PartialEq, Eq, Structural)]
pub enum MdfError {
    /// The block at `offset` needs `expected` bytes and only `actual` are there.
    CorruptBlock { offset: u64, expected: u64, actual: u64 },
    /// The block at `offset` does not start with the identifier that its
    /// referrer announces, or a chain of blocks runs in a circle through it.
    UnexpectedBlockType { offset: u64 },
    /// The date or time text of the header block at `offset` is not of the
    /// form `DD:MM:YYYY` / `HH:MM:SS`, or names no instant after 1970.
    MalformedDate { offset: u64 },
    /// A raw data type or conversion that the decoder does not implement.
    UnsupportedEncoding,
    /// A comment block whose XML cannot be parsed.
    MalformedComment,
}

impl MdfError {
    /// True for the errors that end the parse of a whole file.
    pub open spec fn fatal(self) -> bool {
        self is CorruptBlock || self is UnexpectedBlockType || self is MalformedDate
    }

    /// Tells whether the error ends the parse of the whole file, or concerns
    /// one channel or comment only.
    pub fn is_fatal(&self) -> (r: bool)
        ensures
            r == self.fatal(),
    {
        match self {
            MdfError::CorruptBlock { .. } => true,
            MdfError::UnexpectedBlockType { .. } => true,
            MdfError::MalformedDate { .. } => true,
            MdfError::UnsupportedEncoding => false,
            MdfError::MalformedComment => false,
        }
    }
}

} // verus!
