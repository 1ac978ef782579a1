//! Decoding of the raw records of a file into typed columns.

pub mod bit_field;
pub mod channel_data;
pub mod conversions4;
pub mod data_blocks;
pub mod data_read4;
pub mod group_layout;
pub mod mdfreader3;
pub mod mdfreader4;
pub mod record_layout;
pub mod streamed;
pub mod unsorted;

use vstd::prelude::*;

verus! {

/// Where the samples of a channel are found once they are handed out in
/// chunks of arrays.
#[derive(Debug, Default, Clone, Copy, PartialEq, Eq, Structural)]
pub struct ChannelIndexes {
    /// The index of the chunk.
    pub chunk_index: usize,
    /// The index of the array in the chunk.
    pub array_index: usize,
    /// The index of the field in the schema.
    pub field_index: usize,
}

} // verus!
