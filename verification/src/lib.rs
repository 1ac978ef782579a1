//! Decoder for ASAM MDF measurement files, versions 3.x and 4.x.
//!
//! The crate works on bytes that are already in memory: the metadata blocks
//! of a file are parsed into a graph keyed by file offset, and raw records are
//! decoded into typed columns. Every function carries a contract that Verus
//! proves.

pub mod bytes;
pub mod error;
pub mod mdfinfo;
pub mod mdfreader;
pub mod text;
