//! Metadata blocks of MDF version 3.x.
//!
//! A 3.x block starts with a two-byte identifier and a two-byte length. All
//! numbers are read least significant byte first, and links are offsets from
//! the start of the file, 0 standing for none.

use crate::bytes::block_error;
use crate::bytes::bytes_at;
use crate::bytes::check_block;
use crate::bytes::field;
use crate::bytes::i16_at;
use crate::bytes::i16_le_at;
use crate::bytes::u16_at;
use crate::bytes::u16_le_at;
use crate::bytes::u32_at;
use crate::bytes::u32_le_at;
use crate::bytes::u64_at;
use crate::bytes::u64_le_at;
use crate::error::MdfError;
use crate::mdfinfo::channel_db3::ChannelId3;
use crate::mdfinfo::channel_db3::ChannelNamesSet3;
use crate::mdfinfo::IdBlock;
use crate::mdfreader::channel_data::data_type_init;
use crate::mdfreader::channel_data::kind_of;
use crate::mdfreader::channel_data::ChannelData;
use crate::mdfreader::data_read4::is_listed;
use crate::mdfreader::data_read4::name_listed;
use crate::text::decode_latin1;
use crate::text::latin1_string;
use crate::text::latin1_text;
use crate::text::trim_end;
use std::collections::HashMap;
use vstd::prelude::*;

verus! {

/// The 4.x data type code that stands for a 3.x data type code.
pub open spec fn data_type_3to4(mdf3_datatype: u16) -> u8 {
    match mdf3_datatype {
        0 => 0,
        1 => 2,
        2 => 4,
        3 => 4,
        7 => 6,
        8 => 10,
        9 => 1,
        10 => 3,
        11 => 5,
        12 => 5,
        13 => 0,
        14 => 2,
        15 => 4,
        16 => 4,
        _ => 13,
    }
}

/// Maps a 3.x data type code to the 4.x code of the same encoding, so that one
/// decoder serves both versions. Codes that 3.x does not define map to 13.
pub fn convert_data_type_3to4(mdf3_datatype: u16) -> (r: u8)
    ensures
        r == data_type_3to4(mdf3_datatype),
{
    match mdf3_datatype {
        0 => 0,
        1 => 2,
        2 => 4,
        3 => 4,
        7 => 6,
        8 => 10,
        9 => 1,
        10 => 3,
        11 => 5,
        12 => 5,
        13 => 0,
        14 => 2,
        15 => 4,
        16 => 4,
        _ => 13,
    }
}

/// The identifier of a header block.
pub open spec fn id_hd() -> Seq<u8> {
    seq![0x48u8, 0x44u8]
}

/// The identifier of a text block.
pub open spec fn id_tx() -> Seq<u8> {
    seq![0x54u8, 0x58u8]
}

/// The identifier of a data group block.
pub open spec fn id_dg() -> Seq<u8> {
    seq![0x44u8, 0x47u8]
}

/// The identifier of a channel group block.
pub open spec fn id_cg() -> Seq<u8> {
    seq![0x43u8, 0x47u8]
}

/// The identifier of a channel block.
pub open spec fn id_cn() -> Seq<u8> {
    seq![0x43u8, 0x4eu8]
}

/// The identifier of a conversion block.
pub open spec fn id_cc() -> Seq<u8> {
    seq![0x43u8, 0x43u8]
}

/// The identifier of a channel extension block.
pub open spec fn id_ce() -> Seq<u8> {
    seq![0x43u8, 0x45u8]
}

/// Makes the two-byte identifier of a block.
fn block_id(first: u8, second: u8) -> (r: [u8; 2])
    ensures
        r@ == seq![first, second],
{
    let r = [first, second];
    proof {
        assert(r@ =~= seq![first, second]);
    }
    r
}

/// The start of every 3.x block.
#[derive(Debug, Default, Clone, Copy, PartialEq, Eq)]
pub struct Blockheader3 {
    /// The identifier of the block's type, two letters.
    pub hdr_id: [u8; 2],
    /// The length of the block in bytes, these four included.
    pub hdr_len: u16,
}

/// `h` is the block header that the four bytes at `pos` hold.
pub open spec fn is_block_header3(h: Blockheader3, data: Seq<u8>, pos: int) -> bool {
    &&& h.hdr_id@ == field(data, pos, 2)
    &&& h.hdr_len == u16_at(data, pos + 2)
}

/// Reads the header of the block at `pos`.
pub fn parse_block_header(data: &[u8], pos: usize) -> (h: Blockheader3)
    requires
        pos + 4 <= data.len(),
    ensures
        is_block_header3(h, data@, pos as int),
{
    Blockheader3 { hdr_id: bytes_at::<2>(data, pos), hdr_len: u16_le_at(data, pos + 2) }
}

/// The data group block (DG): one group of records that share a data block.
#[derive(Debug, Clone, Copy, PartialEq, Eq)]
pub struct Dg3Block {
    pub dg_id: [u8; 2],
    /// The length of the block in bytes.
    pub dg_len: u16,
    /// Link to the next data group block; 0 at the end.
    pub dg_dg_next: u32,
    /// Link to the first channel group block; 0 if none.
    pub dg_cg_first: u32,
    /// Link to the trigger block; 0 if none.
    pub dg_tr: u32,
    /// Link to the records; 0 if none.
    pub dg_data: u32,
    /// The number of channel groups.
    pub dg_n_cg: u16,
    /// The number of bytes of the record id before each record: 0, 1 or 2.
    pub dg_n_record_ids: u16,
}

/// The size of a data group block as it is read.
pub const DG3_SIZE: usize = 24;

/// `b` is the data group block that the bytes at `pos` hold.
pub open spec fn is_dg3_block(b: Dg3Block, data: Seq<u8>, pos: int) -> bool {
    &&& b.dg_id@ == field(data, pos, 2)
    &&& b.dg_len == u16_at(data, pos + 2)
    &&& b.dg_dg_next == u32_at(data, pos + 4)
    &&& b.dg_cg_first == u32_at(data, pos + 8)
    &&& b.dg_tr == u32_at(data, pos + 12)
    &&& b.dg_data == u32_at(data, pos + 16)
    &&& b.dg_n_cg == u16_at(data, pos + 20)
    &&& b.dg_n_record_ids == u16_at(data, pos + 22)
}

/// Reads the data group block at `target`. Returns the block and the offset
/// of the byte after it.
pub fn parse_dg3_block(data: &[u8], target: u32) -> (r: Result<(Dg3Block, i64), MdfError>)
    ensures
        match block_error(data@, target as u64, DG3_SIZE as nat, id_dg()) {
            Some(e) => r == Err::<(Dg3Block, i64), MdfError>(e),
            None => r is Ok && is_dg3_block(r->Ok_0.0, data@, target as int) && r->Ok_0.1
                == target + DG3_SIZE,
        },
{
    let id = block_id(0x44, 0x47);
    match check_block(data, target as u64, DG3_SIZE, vstd::array::array_as_slice(&id)) {
        Err(e) => {
            return Err(e);
        },
        Ok(()) => {},
    }
    assert(block_error(data@, target as u64, DG3_SIZE as nat, id_dg()) is None);
    assert(target + DG3_SIZE <= data@.len());
    let pos = target as usize;
    let block = Dg3Block {
        dg_id: bytes_at::<2>(data, pos),
        dg_len: u16_le_at(data, pos + 2),
        dg_dg_next: u32_le_at(data, pos + 4),
        dg_cg_first: u32_le_at(data, pos + 8),
        dg_tr: u32_le_at(data, pos + 12),
        dg_data: u32_le_at(data, pos + 16),
        dg_n_cg: u16_le_at(data, pos + 20),
        dg_n_record_ids: u16_le_at(data, pos + 22),
    };
    Ok((block, target as i64 + DG3_SIZE as i64))
}

/// The channel group block (CG): the channels that share one record layout.
#[derive(Debug, Copy, Clone, Default, PartialEq, Eq)]
pub struct Cg3Block {
    pub cg_id: [u8; 2],
    /// The length of the block in bytes.
    pub cg_len: u16,
    /// Link to the next channel group block; 0 at the end.
    pub cg_cg_next: u32,
    /// Link to the first channel block; 0 if none.
    pub cg_cn_first: u32,
    /// Link to the group's comment; 0 if none.
    pub cg_comment: u32,
    /// The identifier that precedes the records of this group.
    pub cg_record_id: u16,
    /// The number of channels.
    pub cg_n_channels: u16,
    /// The size of a record in bytes, without the record id.
    pub cg_data_bytes: u16,
    /// The number of records of this group in the data block.
    pub cg_cycle_count: u32,
    /// Link to the first sample reduction block; 0 if none.
    pub cg_sr: u32,
}

/// The size of a channel group block as it is read.
pub const CG3_SIZE: usize = 30;

/// `b` is the channel group block that the bytes at `pos` hold.
pub open spec fn is_cg3_block(b: Cg3Block, data: Seq<u8>, pos: int) -> bool {
    &&& b.cg_id@ == field(data, pos, 2)
    &&& b.cg_len == u16_at(data, pos + 2)
    &&& b.cg_cg_next == u32_at(data, pos + 4)
    &&& b.cg_cn_first == u32_at(data, pos + 8)
    &&& b.cg_comment == u32_at(data, pos + 12)
    &&& b.cg_record_id == u16_at(data, pos + 16)
    &&& b.cg_n_channels == u16_at(data, pos + 18)
    &&& b.cg_data_bytes == u16_at(data, pos + 20)
    &&& b.cg_cycle_count == u32_at(data, pos + 22)
    &&& b.cg_sr == u32_at(data, pos + 26)
}

/// Reads the fields of the channel group block at `pos`.
fn read_cg3_block(data: &[u8], pos: usize) -> (b: Cg3Block)
    requires
        pos + CG3_SIZE <= data.len(),
    ensures
        is_cg3_block(b, data@, pos as int),
{
    Cg3Block {
        cg_id: bytes_at::<2>(data, pos),
        cg_len: u16_le_at(data, pos + 2),
        cg_cg_next: u32_le_at(data, pos + 4),
        cg_cn_first: u32_le_at(data, pos + 8),
        cg_comment: u32_le_at(data, pos + 12),
        cg_record_id: u16_le_at(data, pos + 16),
        cg_n_channels: u16_le_at(data, pos + 18),
        cg_data_bytes: u16_le_at(data, pos + 20),
        cg_cycle_count: u32_le_at(data, pos + 22),
        cg_sr: u32_le_at(data, pos + 26),
    }
}

/// The first part of a channel block (CN): links, type and short name.
#[derive(Debug, PartialEq, Eq, Default, Clone, Copy)]
pub struct Cn3Block1 {
    pub cn_id: [u8; 2],
    /// The length of the block in bytes.
    pub cn_len: u16,
    /// Link to the next channel block; 0 at the end.
    pub cn_cn_next: u32,
    /// Link to the conversion block; 0 if none.
    pub cn_cc_conversion: u32,
    /// Link to the channel extension block; 0 if none.
    pub cn_ce_source: u32,
    /// Link to the dependency block; 0 if none.
    pub cn_cd_source: u32,
    /// Link to the channel's comment; 0 if none.
    pub cn_tx_comment: u32,
    /// 0 for a data channel, 1 for a time channel.
    pub cn_type: u16,
    /// The short name of the signal, padded with NUL.
    pub cn_short_name: [u8; 32],
}

/// The second part of a channel block: where the value lies in the record
/// and how it is encoded. Floats are held as the bits of their encoding.
#[derive(Debug, PartialEq, Eq, Default, Clone, Copy)]
pub struct Cn3Block2 {
    /// The first bit of the value in the record.
    pub cn_bit_offset: u16,
    /// The number of bits of the value.
    pub cn_bit_count: u16,
    /// The raw data type code.
    pub cn_data_type: u16,
    /// True where the value range is valid.
    pub cn_valid_range_flags: u16,
    /// The least raw value that occurred, as the bits of a double.
    pub cn_val_range_min: u64,
    /// The greatest raw value that occurred, as the bits of a double.
    pub cn_val_range_max: u64,
    /// The sampling rate in seconds, as the bits of a double.
    pub cn_sampling_rate: u64,
    /// Link to the long name of the signal; 0 if none.
    pub cn_tx_long_name: u32,
    /// Link to the display name of the signal; 0 if none.
    pub cn_tx_display_name: u32,
    /// An additional offset of the value in bytes.
    pub cn_byte_offset: u16,
}

/// The size of a channel block as it is read.
pub const CN3_SIZE: usize = 228;

/// `b` is the first part of the channel block that the bytes at `pos` hold.
pub open spec fn is_cn3_block1(b: Cn3Block1, data: Seq<u8>, pos: int) -> bool {
    &&& b.cn_id@ == field(data, pos, 2)
    &&& b.cn_len == u16_at(data, pos + 2)
    &&& b.cn_cn_next == u32_at(data, pos + 4)
    &&& b.cn_cc_conversion == u32_at(data, pos + 8)
    &&& b.cn_ce_source == u32_at(data, pos + 12)
    &&& b.cn_cd_source == u32_at(data, pos + 16)
    &&& b.cn_tx_comment == u32_at(data, pos + 20)
    &&& b.cn_type == u16_at(data, pos + 24)
    &&& b.cn_short_name@ == field(data, pos + 26, 32)
}

/// `b` is the second part of the channel block that starts at `pos`.
pub open spec fn is_cn3_block2(b: Cn3Block2, data: Seq<u8>, pos: int) -> bool {
    &&& b.cn_bit_offset == u16_at(data, pos + 186)
    &&& b.cn_bit_count == u16_at(data, pos + 188)
    &&& b.cn_data_type == u16_at(data, pos + 190)
    &&& b.cn_valid_range_flags == u16_at(data, pos + 192)
    &&& b.cn_val_range_min == u64_at(data, pos + 194)
    &&& b.cn_val_range_max == u64_at(data, pos + 202)
    &&& b.cn_sampling_rate == u64_at(data, pos + 210)
    &&& b.cn_tx_long_name == u32_at(data, pos + 218)
    &&& b.cn_tx_display_name == u32_at(data, pos + 222)
    &&& b.cn_byte_offset == u16_at(data, pos + 226)
}

/// Reads the first part of the channel block at `pos`.
fn read_cn3_block1(data: &[u8], pos: usize) -> (b: Cn3Block1)
    requires
        pos + CN3_SIZE <= data.len(),
    ensures
        is_cn3_block1(b, data@, pos as int),
{
    Cn3Block1 {
        cn_id: bytes_at::<2>(data, pos),
        cn_len: u16_le_at(data, pos + 2),
        cn_cn_next: u32_le_at(data, pos + 4),
        cn_cc_conversion: u32_le_at(data, pos + 8),
        cn_ce_source: u32_le_at(data, pos + 12),
        cn_cd_source: u32_le_at(data, pos + 16),
        cn_tx_comment: u32_le_at(data, pos + 20),
        cn_type: u16_le_at(data, pos + 24),
        cn_short_name: bytes_at::<32>(data, pos + 26),
    }
}

/// Reads the second part of the channel block at `pos`.
fn read_cn3_block2(data: &[u8], pos: usize) -> (b: Cn3Block2)
    requires
        pos + CN3_SIZE <= data.len(),
    ensures
        is_cn3_block2(b, data@, pos as int),
{
    Cn3Block2 {
        cn_bit_offset: u16_le_at(data, pos + 186),
        cn_bit_count: u16_le_at(data, pos + 188),
        cn_data_type: u16_le_at(data, pos + 190),
        cn_valid_range_flags: u16_le_at(data, pos + 192),
        cn_val_range_min: u64_le_at(data, pos + 194),
        cn_val_range_max: u64_le_at(data, pos + 202),
        cn_sampling_rate: u64_le_at(data, pos + 210),
        cn_tx_long_name: u32_le_at(data, pos + 218),
        cn_tx_display_name: u32_le_at(data, pos + 222),
        cn_byte_offset: u16_le_at(data, pos + 226),
    }
}

/// The fixed part of a conversion block (CC). Floats are held as the bits of
/// their encoding.
#[derive(Debug, Clone, Copy, PartialEq, Eq)]
pub struct Cc3Block {
    pub cc_id: [u8; 2],
    /// The length of the block in bytes.
    pub cc_len: u16,
    /// True where the physical value range is valid.
    pub cc_valid_range_flags: u16,
    /// The least physical value that occurred, as the bits of a double.
    pub cc_val_range_min: u64,
    /// The greatest physical value that occurred, as the bits of a double.
    pub cc_val_range_max: u64,
    /// The physical unit, padded with NUL.
    pub cc_unit: [u8; 20],
    /// The type of the conversion.
    pub cc_type: u16,
    /// The number of parameters or table rows; its meaning depends on the type.
    pub cc_size: u16,
}

/// The size of the fixed part of a conversion block.
pub const CC3_SIZE: usize = 46;

/// `b` is the fixed part of the conversion block that the bytes at `pos` hold.
pub open spec fn is_cc3_block(b: Cc3Block, data: Seq<u8>, pos: int) -> bool {
    &&& b.cc_id@ == field(data, pos, 2)
    &&& b.cc_len == u16_at(data, pos + 2)
    &&& b.cc_valid_range_flags == u16_at(data, pos + 4)
    &&& b.cc_val_range_min == u64_at(data, pos + 6)
    &&& b.cc_val_range_max == u64_at(data, pos + 14)
    &&& b.cc_unit@ == field(data, pos + 22, 20)
    &&& b.cc_type == u16_at(data, pos + 42)
    &&& b.cc_size == u16_at(data, pos + 44)
}

/// Reads the fixed part of the conversion block at `pos`.
fn read_cc3_block(data: &[u8], pos: usize) -> (b: Cc3Block)
    requires
        pos + CC3_SIZE <= data.len(),
    ensures
        is_cc3_block(b, data@, pos as int),
{
    Cc3Block {
        cc_id: bytes_at::<2>(data, pos),
        cc_len: u16_le_at(data, pos + 2),
        cc_valid_range_flags: u16_le_at(data, pos + 4),
        cc_val_range_min: u64_le_at(data, pos + 6),
        cc_val_range_max: u64_le_at(data, pos + 14),
        cc_unit: bytes_at::<20>(data, pos + 22),
        cc_type: u16_le_at(data, pos + 42),
        cc_size: u16_le_at(data, pos + 44),
    }
}

/// The header block (HD) as it lies in the file.
#[derive(Debug, PartialEq, Eq, Clone, Copy)]
pub struct Hd3Block {
    pub hd_id: [u8; 2],
    /// The length of the block in bytes.
    pub hd_len: u16,
    /// Link to the first data group block; 0 if none.
    pub hd_dg_first: u32,
    /// Link to the file's comment; 0 if none.
    pub hd_md_comment: u32,
    /// Link to the program block; 0 if none.
    pub hd_pr: u32,
    /// The number of data groups.
    pub hd_n_datagroups: u16,
    /// The date at which the recording started, as `DD:MM:YYYY`.
    pub hd_date: [u8; 10],
    /// The time at which the recording started, as `HH:MM:SS`.
    pub hd_time: [u8; 8],
    /// The author's name.
    pub hd_author: [u8; 32],
    /// The name of the organisation or department.
    pub hd_organization: [u8; 32],
    /// The name of the project.
    pub hd_project: [u8; 32],
    /// The subject or measurement object.
    pub hd_subject: [u8; 32],
}

/// The size of the header block up to version 3.1.
pub const HD3_SIZE: usize = 164;

/// `b` is the header block that the bytes at `pos` hold.
pub open spec fn is_hd3_block(b: Hd3Block, data: Seq<u8>, pos: int) -> bool {
    &&& b.hd_id@ == field(data, pos, 2)
    &&& b.hd_len == u16_at(data, pos + 2)
    &&& b.hd_dg_first == u32_at(data, pos + 4)
    &&& b.hd_md_comment == u32_at(data, pos + 8)
    &&& b.hd_pr == u32_at(data, pos + 12)
    &&& b.hd_n_datagroups == u16_at(data, pos + 16)
    &&& b.hd_date@ == field(data, pos + 18, 10)
    &&& b.hd_time@ == field(data, pos + 28, 8)
    &&& b.hd_author@ == field(data, pos + 36, 32)
    &&& b.hd_organization@ == field(data, pos + 68, 32)
    &&& b.hd_project@ == field(data, pos + 100, 32)
    &&& b.hd_subject@ == field(data, pos + 132, 32)
}

/// Reads the header block at `pos`.
pub fn read_hd3_block(data: &[u8], pos: usize) -> (b: Hd3Block)
    requires
        pos + HD3_SIZE <= data.len(),
    ensures
        is_hd3_block(b, data@, pos as int),
{
    Hd3Block {
        hd_id: bytes_at::<2>(data, pos),
        hd_len: u16_le_at(data, pos + 2),
        hd_dg_first: u32_le_at(data, pos + 4),
        hd_md_comment: u32_le_at(data, pos + 8),
        hd_pr: u32_le_at(data, pos + 12),
        hd_n_datagroups: u16_le_at(data, pos + 16),
        hd_date: bytes_at::<10>(data, pos + 18),
        hd_time: bytes_at::<8>(data, pos + 28),
        hd_author: bytes_at::<32>(data, pos + 36),
        hd_organization: bytes_at::<32>(data, pos + 68),
        hd_project: bytes_at::<32>(data, pos + 100),
        hd_subject: bytes_at::<32>(data, pos + 132),
    }
}

/// What version 3.2 adds to the header block.
#[derive(Debug, PartialEq, Eq, Clone, Copy)]
pub struct Hd3Block32 {
    /// The time at which the recording started, in nanoseconds since 1970.
    pub hd_start_time_ns: u64,
    /// The offset of the local time from UTC, in hours.
    pub hd_time_offset: i16,
    /// The quality class of the time.
    pub hd_time_quality: u16,
    /// The name of the timer or time source.
    pub hd_time_identifier: [u8; 32],
}

/// The size of what version 3.2 adds to the header block.
pub const HD3_32_SIZE: usize = 44;

/// `b` is the addition to the header block that the bytes at `pos` hold.
pub open spec fn is_hd3_block32(b: Hd3Block32, data: Seq<u8>, pos: int) -> bool {
    &&& b.hd_start_time_ns == u64_at(data, pos)
    &&& b.hd_time_offset == i16_at(data, pos + 8)
    &&& b.hd_time_quality == u16_at(data, pos + 10)
    &&& b.hd_time_identifier@ == field(data, pos + 12, 32)
}

/// Reads the addition of version 3.2 to the header block at `pos`.
pub fn read_hd3_block32(data: &[u8], pos: usize) -> (b: Hd3Block32)
    requires
        pos + HD3_32_SIZE <= data.len(),
    ensures
        is_hd3_block32(b, data@, pos as int),
{
    Hd3Block32 {
        hd_start_time_ns: u64_le_at(data, pos),
        hd_time_offset: i16_le_at(data, pos + 8),
        hd_time_quality: u16_le_at(data, pos + 10),
        hd_time_identifier: bytes_at::<32>(data, pos + 12),
    }
}

/// What is wrong with the text block (TX) at `target`; `None` where its text
/// can be read.
pub open spec fn tx_error(data: Seq<u8>, target: u32) -> Option<MdfError> {
    match block_error(data, target as u64, 4, id_tx()) {
        Some(e) => Some(e),
        None => {
            let len = u16_at(data, target + 2);
            if len < 4 {
                Some(MdfError::CorruptBlock { offset: target as u64, expected: 4, actual: len as u64 })
            } else if target + len > data.len() {
                Some(
                    MdfError::CorruptBlock {
                        offset: target as u64,
                        expected: len as u64,
                        actual: (data.len() - target) as u64,
                    },
                )
            } else {
                None
            }
        },
    }
}

/// The text of the text block at `target`: what follows the block's header,
/// read as ISO 8859-1, without the NUL padding at its end.
pub open spec fn tx_text(data: Seq<u8>, target: u32) -> Seq<char> {
    trim_end(latin1_text(field(data, target + 4, u16_at(data, target + 2) - 4)), '\0')
}

/// Reads the text block at `target`. Returns the block's header, its text
/// and the offset of the byte after the block.
pub fn parse_tx(data: &[u8], target: u32) -> (r: Result<(Blockheader3, String, i64), MdfError>)
    ensures
        match tx_error(data@, target) {
            Some(e) => r == Err::<(Blockheader3, String, i64), MdfError>(e),
            None => {
                &&& r is Ok
                &&& is_block_header3(r->Ok_0.0, data@, target as int)
                &&& r->Ok_0.1@ == tx_text(data@, target)
                &&& r->Ok_0.2 == target + u16_at(data@, target + 2)
            },
        },
{
    let id = block_id(0x54, 0x58);
    match check_block(data, target as u64, 4, vstd::array::array_as_slice(&id)) {
        Err(e) => {
            return Err(e);
        },
        Ok(()) => {},
    }
    assert(block_error(data@, target as u64, 4, id_tx()) is None);
    let pos = target as usize;
    let block_header = parse_block_header(data, pos);
    let len = block_header.hdr_len as usize;
    if len < 4 {
        return Err(
            MdfError::CorruptBlock { offset: target as u64, expected: 4, actual: len as u64 },
        );
    }
    if len > data.len() - pos {
        return Err(
            MdfError::CorruptBlock {
                offset: target as u64,
                expected: len as u64,
                actual: (data.len() - pos) as u64,
            },
        );
    }
    let raw = vstd::slice::slice_subrange(data, pos + 4, pos + len);
    proof {
        assert(raw@ =~= field(data@, target + 4, len - 4));
    }
    let comment = latin1_string(raw);
    Ok((block_header, comment, target as i64 + len as i64))
}

/// True for the ASCII digits.
pub open spec fn is_digit(b: u8) -> bool {
    0x30 <= b <= 0x39
}

/// The number that a run of ASCII digits stands for.
pub open spec fn digits_value(s: Seq<u8>) -> nat
    decreases s.len(),
{
    if s.len() == 0 {
        0
    } else {
        digits_value(s.drop_last()) * 10 + (s.last() - 0x30) as nat
    }
}

/// True for a run of at least one ASCII digit.
pub open spec fn all_digits(s: Seq<u8>) -> bool {
    s.len() > 0 && forall|i: int| 0 <= i < s.len() ==> is_digit(#[trigger] s[i])
}

/// The number that `s` stands for: digits, after a plus sign or none, that
/// make a number of at most `max`.
pub open spec fn unsigned_number(s: Seq<u8>, max: nat) -> Option<nat> {
    let body = if s.len() > 0 && s[0] == 0x2b {
        s.drop_first()
    } else {
        s
    };
    if all_digits(body) && digits_value(body) <= max {
        Some(digits_value(body))
    } else {
        None
    }
}

/// The 32-bit signed number that `s` stands for: digits after a sign or none.
pub open spec fn signed_number(s: Seq<u8>) -> Option<int> {
    if s.len() > 0 && s[0] == 0x2d {
        match unsigned_digits(s.drop_first(), 0x8000_0000) {
            Some(v) => Some(-(v as int)),
            None => None,
        }
    } else {
        match unsigned_number(s, 0x7fff_ffff) {
            Some(v) => Some(v as int),
            None => None,
        }
    }
}

/// The number that a run of digits without a sign stands for, if it is at
/// most `max`.
pub open spec fn unsigned_digits(s: Seq<u8>, max: nat) -> Option<nat> {
    if all_digits(s) && digits_value(s) <= max {
        Some(digits_value(s))
    } else {
        None
    }
}

/// The place of the first colon of `s` at or after `from`; the length of `s`
/// where there is none.
pub open spec fn colon_at(s: Seq<u8>, from: int) -> int
    decreases s.len() - from,
{
    if from >= s.len() || from < 0 {
        s.len() as int
    } else if s[from] == 0x3a {
        from
    } else {
        colon_at(s, from + 1)
    }
}

/// Three numbers that were read from a text of the form `A:B:C`.
#[derive(Debug, Clone, Copy, PartialEq, Eq, Structural)]
pub struct ThreeNumbers {
    pub first: u32,
    pub second: u32,
    pub third: i32,
}

/// The three numbers that a text of the form `A:B:C` holds, the third one
/// signed where `third_signed`. `None` where the text has fewer than three
/// parts or a part is no number of 32 bits. What follows a third colon is
/// ignored.
pub open spec fn three_numbers(s: Seq<u8>, third_signed: bool) -> Option<ThreeNumbers> {
    let c1 = colon_at(s, 0);
    let c2 = colon_at(s, c1 + 1);
    let c3 = colon_at(s, c2 + 1);
    if c1 >= s.len() || c2 >= s.len() {
        None
    } else {
        let third = if third_signed {
            signed_number(s.subrange(c2 + 1, c3))
        } else {
            match unsigned_number(s.subrange(c2 + 1, c3), 0xffff_ffff) {
                Some(v) => Some(v as int),
                None => None,
            }
        };
        match (
            unsigned_number(s.subrange(0, c1), 0xffff_ffff),
            unsigned_number(s.subrange(c1 + 1, c2), 0xffff_ffff),
            third,
        ) {
            (Some(a), Some(b), Some(c)) => Some(
                ThreeNumbers { first: a as u32, second: b as u32, third: c as i32 },
            ),
            _ => None,
        }
    }
}

/// The value of the digits read so far is no larger than that of all.
proof fn lemma_digits_prefix(s: Seq<u8>, k: int)
    requires
        0 <= k <= s.len(),
    ensures
        digits_value(s.subrange(0, k)) <= digits_value(s),
    decreases s.len() - k,
{
    if k < s.len() {
        lemma_digits_prefix(s, k + 1);
        assert(s.subrange(0, k + 1).drop_last() =~= s.subrange(0, k));
    } else {
        assert(s.subrange(0, k) =~= s);
    }
}

/// Reads a run of digits without a sign as a number of at most `max`.
fn parse_digits(s: &[u8], from: usize, to: usize, max: u64) -> (r: Option<u64>)
    requires
        from <= to <= s.len(),
        max <= 0xffff_ffff,
    ensures
        r is Some <==> unsigned_digits(s@.subrange(from as int, to as int), max as nat) is Some,
        r is Some ==> r->0 == unsigned_digits(s@.subrange(from as int, to as int), max as nat)->0,
{
    let ghost body = s@.subrange(from as int, to as int);
    if from == to {
        return None;
    }
    let mut acc: u64 = 0;
    let mut i: usize = from;
    while i < to
        invariant
            from <= i <= to <= s.len(),
            max <= 0xffff_ffff,
            body == s@.subrange(from as int, to as int),
            acc == digits_value(body.subrange(0, i - from)),
            acc <= max,
            forall|k: int| 0 <= k < i - from ==> is_digit(#[trigger] body[k]),
        decreases to - i,
    {
        let b = s[i];
        if b < 0x30 || b > 0x39 {
            proof {
                assert(!is_digit(body[i - from]));
            }
            return None;
        }
        proof {
            assert(body.subrange(0, i - from + 1).drop_last() =~= body.subrange(0, i - from));
            lemma_digits_prefix(body, i - from + 1);
        }
        acc = acc * 10 + (b - 0x30) as u64;
        if acc > max {
            return None;
        }
        i += 1;
    }
    proof {
        assert(body.subrange(0, i - from) =~= body);
    }
    Some(acc)
}

/// Reads digits after a plus sign or none as a number of at most `max`.
fn parse_unsigned(s: &[u8], from: usize, to: usize, max: u64) -> (r: Option<u64>)
    requires
        from <= to <= s.len(),
        max <= 0xffff_ffff,
    ensures
        r is Some <==> unsigned_number(s@.subrange(from as int, to as int), max as nat) is Some,
        r is Some ==> r->0 == unsigned_number(s@.subrange(from as int, to as int), max as nat)->0,
{
    let ghost part = s@.subrange(from as int, to as int);
    if from < to && s[from] == 0x2b {
        proof {
            assert(part.drop_first() =~= s@.subrange(from + 1, to as int));
        }
        parse_digits(s, from + 1, to, max)
    } else {
        parse_digits(s, from, to, max)
    }
}

/// Reads digits after a sign or none as a signed number of 32 bits.
fn parse_signed(s: &[u8], from: usize, to: usize) -> (r: Option<i64>)
    requires
        from <= to <= s.len(),
    ensures
        r is Some <==> signed_number(s@.subrange(from as int, to as int)) is Some,
        r is Some ==> r->0 == signed_number(s@.subrange(from as int, to as int))->0,
{
    let ghost part = s@.subrange(from as int, to as int);
    if from < to && s[from] == 0x2d {
        proof {
            assert(part.drop_first() =~= s@.subrange(from + 1, to as int));
        }
        match parse_digits(s, from + 1, to, 0x8000_0000) {
            Some(v) => Some(-(v as i64)),
            None => None,
        }
    } else {
        match parse_unsigned(s, from, to, 0x7fff_ffff) {
            Some(v) => Some(v as i64),
            None => None,
        }
    }
}

/// Finds the first colon of `s` at or after `from`.
fn find_colon(s: &[u8], from: usize) -> (r: usize)
    requires
        from <= s.len(),
    ensures
        r == colon_at(s@, from as int),
        from <= r <= s.len(),
{
    let mut i: usize = from;
    while i < s.len() && s[i] != 0x3a
        invariant
            from <= i <= s.len(),
            colon_at(s@, from as int) == colon_at(s@, i as int),
        decreases s.len() - i,
    {
        i += 1;
    }
    i
}

/// Reads the three numbers of a text of the form `A:B:C`.
pub fn parse_three_numbers(s: &[u8], third_signed: bool) -> (r: Option<ThreeNumbers>)
    ensures
        r == three_numbers(s@, third_signed),
{
    let c1 = find_colon(s, 0);
    if c1 >= s.len() {
        return None;
    }
    let c2 = find_colon(s, c1 + 1);
    if c2 >= s.len() {
        return None;
    }
    let c3 = find_colon(s, c2 + 1);
    let a = match parse_unsigned(s, 0, c1, 0xffff_ffff) {
        Some(v) => v,
        None => {
            return None;
        },
    };
    let b = match parse_unsigned(s, c1 + 1, c2, 0xffff_ffff) {
        Some(v) => v,
        None => {
            return None;
        },
    };
    if third_signed {
        match parse_signed(s, c2 + 1, c3) {
            Some(c) => Some(ThreeNumbers { first: a as u32, second: b as u32, third: c as i32 }),
            None => None,
        }
    } else {
        match parse_unsigned(s, c2 + 1, c3, 0xffff_ffff) {
            Some(c) => Some(
                ThreeNumbers {
                    first: a as u32,
                    second: b as u32,
                    third: #[verifier::truncate] (c as i32),
                },
            ),
            None => None,
        }
    }
}

/// A date of the calendar.
#[derive(Debug, Clone, Copy, PartialEq, Eq, Structural)]
pub struct Hd3Date {
    pub day: u32,
    pub month: u32,
    pub year: i32,
}

/// A time of day.
#[derive(Debug, Clone, Copy, PartialEq, Eq, Structural)]
pub struct Hd3Time {
    pub hour: u32,
    pub minute: u32,
    pub second: u32,
}

/// The header of a 3.x file: the header block with its texts decoded.
#[derive(Debug, Clone)]
pub struct Hd3 {
    pub hd_id: [u8; 2],
    /// The length of the block in bytes.
    pub hd_len: u16,
    /// Link to the first data group block; 0 if none.
    pub hd_dg_first: u32,
    /// Link to the file's comment; 0 if none.
    pub hd_md_comment: u32,
    /// Link to the program block; 0 if none.
    pub hd_pr: u32,
    /// The number of data groups.
    pub hd_n_datagroups: u16,
    /// The date at which the recording started.
    pub hd_date: Hd3Date,
    /// The time at which the recording started.
    pub hd_time: Hd3Time,
    /// The author's name.
    pub hd_author: String,
    /// The name of the organisation or department.
    pub hd_organization: String,
    /// The name of the project.
    pub hd_project: String,
    /// The subject or measurement object.
    pub hd_subject: String,
    /// The time at which the recording started, in nanoseconds since 1970.
    pub hd_start_time_ns: Option<u64>,
    /// The offset of the local time from UTC, in hours; from version 3.2 on.
    pub hd_time_offset: Option<i16>,
    /// The quality class of the time; from version 3.2 on.
    pub hd_time_quality: Option<u16>,
    /// The name of the timer or time source; from version 3.2 on.
    pub hd_time_identifier: Option<String>,
}

/// The offset of the header block: it follows the identification block.
pub const HD3_POSITION: usize = 64;

/// The nanoseconds from the start of 1970 to the given date and time of
/// the proleptic Gregorian calendar, as `chrono` computes them. `None` where
/// there is no such date or time, or the number does not fit 64 bits.
pub uninterp spec fn utc_timestamp_nanos(
    year: i32,
    month: u32,
    day: u32,
    hour: u32,
    minute: u32,
    second: u32,
) -> Option<i64>;

/// `chrono::NaiveDate::from_ymd_opt`, `NaiveDate::and_hms_opt`,
/// `NaiveDateTime::and_utc` and `DateTime::timestamp_nanos_opt`: the
/// nanoseconds since 1970 of a date and time taken as UTC. None of them
/// panics; each gives `None` on what it cannot represent. The result is
/// named, not described.
#[verifier::external_body]
fn timestamp_nanos_of(year: i32, month: u32, day: u32, hour: u32, minute: u32, second: u32) -> (r:
    Option<i64>)
    ensures
        r == utc_timestamp_nanos(year, month, day, hour, minute, second),
{
    match chrono::NaiveDate::from_ymd_opt(year, month, day) {
        Some(date) => match date.and_hms_opt(hour, minute, second) {
            Some(date_time) => date_time.and_utc().timestamp_nanos_opt(),
            None => None,
        },
        None => None,
    }
}

/// The start of a recording in nanoseconds since 1970, from the result of
/// the calendar computation: there must be one, and it must not lie before
/// 1970.
pub open spec fn start_time_of(nanos: Option<i64>) -> Option<u64> {
    match nanos {
        Some(n) => if n >= 0 {
            Some(n as u64)
        } else {
            None
        },
        None => None,
    }
}

/// Turns the result of the calendar computation into the start of a
/// recording.
pub fn start_time_from(nanos: Option<i64>) -> (r: Option<u64>)
    ensures
        r == start_time_of(nanos),
{
    match nanos {
        Some(n) => if n >= 0 {
            Some(n as u64)
        } else {
            None
        },
        None => None,
    }
}

/// What is wrong with the header block of a file of version `ver`; `None`
/// where it can be read.
pub open spec fn hd3_error(data: Seq<u8>, ver: u16) -> Option<MdfError> {
    let pos = HD3_POSITION as int;
    match block_error(data, HD3_POSITION as u64, HD3_SIZE as nat, id_hd()) {
        Some(e) => Some(e),
        None => {
            let date = three_numbers(field(data, pos + 18, 10), true);
            let time = three_numbers(field(data, pos + 28, 8), false);
            if date is None || time is None {
                Some(MdfError::MalformedDate { offset: HD3_POSITION as u64 })
            } else if ver >= 320 {
                block_error(
                    data,
                    HD3_POSITION as u64,
                    (HD3_SIZE + HD3_32_SIZE) as nat,
                    id_hd(),
                )
            } else if start_time_of(
                utc_timestamp_nanos(
                    date->0.third,
                    date->0.second,
                    date->0.first,
                    time->0.first,
                    time->0.second,
                    time->0.third as u32,
                ),
            ) is None {
                Some(MdfError::MalformedDate { offset: HD3_POSITION as u64 })
            } else {
                None
            }
        },
    }
}

/// `hd` is the header that a file of version `ver` holds.
pub open spec fn is_hd3(hd: Hd3, data: Seq<u8>, ver: u16) -> bool {
    let pos = HD3_POSITION as int;
    let date = three_numbers(field(data, pos + 18, 10), true)->0;
    let time = three_numbers(field(data, pos + 28, 8), false)->0;
    &&& hd.hd_id@ == field(data, pos, 2)
    &&& hd.hd_len == u16_at(data, pos + 2)
    &&& hd.hd_dg_first == u32_at(data, pos + 4)
    &&& hd.hd_md_comment == u32_at(data, pos + 8)
    &&& hd.hd_pr == u32_at(data, pos + 12)
    &&& hd.hd_n_datagroups == u16_at(data, pos + 16)
    &&& hd.hd_date == (Hd3Date { day: date.first, month: date.second, year: date.third })
    &&& hd.hd_time == (Hd3Time {
        hour: time.first,
        minute: time.second,
        second: time.third as u32,
    })
    &&& hd.hd_author@ == latin1_text(field(data, pos + 36, 32))
    &&& hd.hd_organization@ == latin1_text(field(data, pos + 68, 32))
    &&& hd.hd_project@ == latin1_text(field(data, pos + 100, 32))
    &&& hd.hd_subject@ == latin1_text(field(data, pos + 132, 32))
    &&& if ver >= 320 {
        &&& hd.hd_start_time_ns == Some(u64_at(data, pos + 164))
        &&& hd.hd_time_offset == Some(i16_at(data, pos + 172))
        &&& hd.hd_time_quality == Some(u16_at(data, pos + 174))
        &&& hd.hd_time_identifier is Some
        &&& hd.hd_time_identifier->0@ == latin1_text(field(data, pos + 176, 32))
    } else {
        &&& hd.hd_start_time_ns == start_time_of(
            utc_timestamp_nanos(
                date.third,
                date.second,
                date.first,
                time.first,
                time.second,
                time.third as u32,
            ),
        )
        &&& hd.hd_time_offset is None
        &&& hd.hd_time_quality is None
        &&& hd.hd_time_identifier is None
    }
}

/// Reads the header block, which follows the identification block, of a file
/// of version `ver`. Returns the header and the offset of the byte after it.
///
/// From version 3.2 on the block holds the start of the recording in
/// nanoseconds; for older files it is computed from the date and time.
pub fn hd3_parser(data: &[u8], ver: u16) -> (r: Result<(Hd3, i64), MdfError>)
    ensures
        match hd3_error(data@, ver) {
            Some(e) => r == Err::<(Hd3, i64), MdfError>(e),
            None => {
                &&& r is Ok
                &&& is_hd3(r->Ok_0.0, data@, ver)
                &&& r->Ok_0.1 == if ver >= 320 {
                    272i64
                } else {
                    228i64
                }
            },
        },
{
    let id = block_id(0x48, 0x44);
    match check_block(data, HD3_POSITION as u64, HD3_SIZE, vstd::array::array_as_slice(&id)) {
        Err(e) => {
            return Err(e);
        },
        Ok(()) => {},
    }
    assert(block_error(data@, HD3_POSITION as u64, HD3_SIZE as nat, id_hd()) is None);
    let block = read_hd3_block(data, HD3_POSITION);
    let date = match parse_three_numbers(vstd::array::array_as_slice(&block.hd_date), true) {
        Some(d) => d,
        None => {
            return Err(MdfError::MalformedDate { offset: HD3_POSITION as u64 });
        },
    };
    let time = match parse_three_numbers(vstd::array::array_as_slice(&block.hd_time), false) {
        Some(t) => t,
        None => {
            return Err(MdfError::MalformedDate { offset: HD3_POSITION as u64 });
        },
    };
    let hd_date = Hd3Date { day: date.first, month: date.second, year: date.third };
    let hd_time = Hd3Time { hour: time.first, minute: time.second, second: time.third as u32 };
    let hd_author = decode_latin1(vstd::array::array_as_slice(&block.hd_author));
    let hd_organization = decode_latin1(vstd::array::array_as_slice(&block.hd_organization));
    let hd_project = decode_latin1(vstd::array::array_as_slice(&block.hd_project));
    let hd_subject = decode_latin1(vstd::array::array_as_slice(&block.hd_subject));
    let hd_start_time_ns: Option<u64>;
    let hd_time_offset: Option<i16>;
    let hd_time_quality: Option<u16>;
    let hd_time_identifier: Option<String>;
    let position: i64;
    if ver >= 320 {
        match check_block(
            data,
            HD3_POSITION as u64,
            HD3_SIZE + HD3_32_SIZE,
            vstd::array::array_as_slice(&id),
        ) {
            Err(e) => {
                return Err(e);
            },
            Ok(()) => {},
        }
        assert(block_error(
            data@,
            HD3_POSITION as u64,
            (HD3_SIZE + HD3_32_SIZE) as nat,
            id_hd(),
        ) is None);
        let more = read_hd3_block32(data, HD3_POSITION + HD3_SIZE);
        hd_start_time_ns = Some(more.hd_start_time_ns);
        hd_time_offset = Some(more.hd_time_offset);
        hd_time_quality = Some(more.hd_time_quality);
        hd_time_identifier = Some(
            decode_latin1(vstd::array::array_as_slice(&more.hd_time_identifier)),
        );
        position = 272;
    } else {
        let nanos = timestamp_nanos_of(
            hd_date.year,
            hd_date.month,
            hd_date.day,
            hd_time.hour,
            hd_time.minute,
            hd_time.second,
        );
        match start_time_from(nanos) {
            Some(t) => {
                hd_start_time_ns = Some(t);
            },
            None => {
                return Err(MdfError::MalformedDate { offset: HD3_POSITION as u64 });
            },
        }
        hd_time_offset = None;
        hd_time_quality = None;
        hd_time_identifier = None;
        position = 228;
    }
    Ok(
        (
            Hd3 {
                hd_id: block.hd_id,
                hd_len: block.hd_len,
                hd_dg_first: block.hd_dg_first,
                hd_md_comment: block.hd_md_comment,
                hd_pr: block.hd_pr,
                hd_n_datagroups: block.hd_n_datagroups,
                hd_date,
                hd_time,
                hd_author,
                hd_organization,
                hd_project,
                hd_subject,
                hd_start_time_ns,
                hd_time_offset,
                hd_time_quality,
                hd_time_identifier,
            },
            position,
        ),
    )
}

/// Reads the comment of the file, to which the header links. A header
/// without such a link gives the empty comment and the position unchanged.
pub fn hd3_comment_parser(data: &[u8], hd3_block: &Hd3, position: i64) -> (r: Result<
    (String, i64),
    MdfError,
>)
    ensures
        hd3_block.hd_md_comment == 0 ==> r is Ok && r->Ok_0.0@ == Seq::<char>::empty()
            && r->Ok_0.1 == position,
        hd3_block.hd_md_comment != 0 ==> match tx_error(data@, hd3_block.hd_md_comment) {
            Some(e) => r == Err::<(String, i64), MdfError>(e),
            None => {
                &&& r is Ok
                &&& r->Ok_0.0@ == tx_text(data@, hd3_block.hd_md_comment)
                &&& r->Ok_0.1 == hd3_block.hd_md_comment + u16_at(
                    data@,
                    hd3_block.hd_md_comment + 2,
                )
            },
        },
{
    if hd3_block.hd_md_comment == 0 {
        return Ok((String::new(), position));
    }
    match parse_tx(data, hd3_block.hd_md_comment) {
        Ok((_, comment, pos)) => Ok((comment, pos)),
        Err(e) => Err(e),
    }
}

/// What is wrong with the text to which `link` leads; `None` where the link
/// is 0 or the text can be read.
pub open spec fn linked_text_error(data: Seq<u8>, link: u32) -> Option<MdfError> {
    if link == 0 {
        None
    } else {
        tx_error(data, link)
    }
}

/// The text to which `link` leads; empty where the link is 0.
pub open spec fn linked_text(data: Seq<u8>, link: u32) -> Seq<char> {
    if link == 0 {
        Seq::empty()
    } else {
        tx_text(data, link)
    }
}

/// Reads the text to which `link` leads.
pub fn read_linked_text(data: &[u8], link: u32) -> (r: Result<String, MdfError>)
    ensures
        match linked_text_error(data@, link) {
            Some(e) => r == Err::<String, MdfError>(e),
            None => r is Ok && r->Ok_0@ == linked_text(data@, link),
        },
{
    if link == 0 {
        return Ok(String::new());
    }
    match parse_tx(data, link) {
        Ok((_, text, _)) => Ok(text),
        Err(e) => Err(e),
    }
}

/// A row of a table that maps a value to a text.
#[derive(Debug, Clone)]
pub struct TextRow {
    /// The raw value, as the bits of a double.
    pub value: u64,
    pub text: String,
}

/// A row of a table that maps a range of values to a text.
#[derive(Debug, Clone)]
pub struct RangeRow {
    /// The lower end of the range, as the bits of a double.
    pub low: u64,
    /// The upper end of the range, as the bits of a double.
    pub high: u64,
    pub text: String,
}

/// The rule by which raw values become physical values. Parameters are held
/// as the bits of doubles, in the order of the block.
#[derive(Debug, Clone)]
pub enum Conversion {
    /// `physical = raw * p2 + p1`, with the parameters `p1`, `p2`.
    Linear(Vec<u64>),
    /// Pairs of raw and physical value, between which values are interpolated.
    TabularInterpolation(Vec<u64>),
    /// Pairs of raw and physical value.
    Tabular(Vec<u64>),
    /// Six parameters of a polynomial.
    Polynomial(Vec<u64>),
    /// Seven parameters of an exponential function.
    Exponential(Vec<u64>),
    /// Seven parameters of a logarithmic function.
    Logarithmic(Vec<u64>),
    /// Six parameters of a quotient of two polynomials of second degree.
    Rational(Vec<u64>),
    /// A formula as text.
    Formula(String),
    /// A table from values to texts.
    TextTable(Vec<TextRow>),
    /// A table from ranges of values to texts.
    TextRangeTable(Vec<RangeRow>),
    Date,
    Time,
    /// The physical value is the raw value.
    Identity,
}

/// The `n` doubles that lie one after the other from `pos` on, as bits.
pub open spec fn doubles_at(data: Seq<u8>, pos: int, n: nat) -> Seq<u64> {
    Seq::new(n, |i: int| u64_at(data, pos + 8 * i))
}

/// The number of bytes that follow the fixed part of a conversion block of
/// the given type and size.
pub open spec fn cc_payload(cc_type: u16, cc_size: u16) -> nat {
    match cc_type {
        0 => 16,
        1 | 2 => 16 * cc_size as nat,
        6 | 9 => 48,
        7 | 8 => 56,
        10 => 256,
        11 => 40 * cc_size as nat,
        12 => 20 * cc_size as nat,
        _ => 0,
    }
}

/// `c` is the conversion that the block at `target` describes.
pub open spec fn is_conversion(c: Conversion, data: Seq<u8>, target: u32) -> bool {
    let pos = target + CC3_SIZE;
    let size = u16_at(data, target + 44) as nat;
    match u16_at(data, target + 42) {
        0 => c matches Conversion::Linear(v) && v@ == doubles_at(data, pos, 2),
        1 => c matches Conversion::TabularInterpolation(v) && v@ == doubles_at(data, pos, 2 * size),
        2 => c matches Conversion::Tabular(v) && v@ == doubles_at(data, pos, 2 * size),
        6 => c matches Conversion::Polynomial(v) && v@ == doubles_at(data, pos, 6),
        7 => c matches Conversion::Exponential(v) && v@ == doubles_at(data, pos, 7),
        8 => c matches Conversion::Logarithmic(v) && v@ == doubles_at(data, pos, 7),
        9 => c matches Conversion::Rational(v) && v@ == doubles_at(data, pos, 6),
        10 => c matches Conversion::Formula(t) && t@ == trim_end(
            latin1_text(field(data, pos, 256)),
            '\0',
        ),
        11 => c matches Conversion::TextTable(rows) && rows@.len() == size && forall|i: int|
            0 <= i < size ==> is_text_row(#[trigger] rows@[i], data, pos + 40 * i),
        12 => c matches Conversion::TextRangeTable(rows) && rows@.len() == size && forall|i: int|
            0 <= i < size ==> is_range_row(#[trigger] rows@[i], data, pos + 20 * i),
        _ => c is Identity,
    }
}

/// `row` is the row of a text table that lies at `pos`: a double and a text
/// of 32 bytes.
pub open spec fn is_text_row(row: TextRow, data: Seq<u8>, pos: int) -> bool {
    &&& row.value == u64_at(data, pos)
    &&& row.text@ == trim_end(latin1_text(field(data, pos + 8, 32)), '\0')
}

/// `row` is the row of a text range table that lies at `pos`: two doubles
/// and a link to a text block.
pub open spec fn is_range_row(row: RangeRow, data: Seq<u8>, pos: int) -> bool {
    &&& row.low == u64_at(data, pos)
    &&& row.high == u64_at(data, pos + 8)
    &&& row.text@ == linked_text(data, u32_at(data, pos + 16))
}

/// What is wrong with the texts of the rows `i` and following of a text
/// range table of `n` rows at `pos`: the error of the first text that cannot
/// be read.
pub open spec fn range_texts_error(data: Seq<u8>, pos: int, n: nat, i: nat) -> Option<MdfError>
    decreases n - i,
{
    if i >= n {
        None
    } else {
        match linked_text_error(data, u32_at(data, pos + 20 * i + 16)) {
            Some(e) => Some(e),
            None => range_texts_error(data, pos, n, i + 1),
        }
    }
}

/// What is wrong with the conversion block at `target`; `None` where it can
/// be read.
pub open spec fn cc3_error(data: Seq<u8>, target: u32) -> Option<MdfError> {
    match block_error(data, target as u64, CC3_SIZE as nat, id_cc()) {
        Some(e) => Some(e),
        None => {
            let cc_type = u16_at(data, target + 42);
            let cc_size = u16_at(data, target + 44);
            match block_error(
                data,
                target as u64,
                CC3_SIZE as nat + cc_payload(cc_type, cc_size),
                id_cc(),
            ) {
                Some(e) => Some(e),
                None => if cc_type == 12 {
                    range_texts_error(data, target + CC3_SIZE, cc_size as nat, 0)
                } else {
                    None
                },
            }
        },
    }
}

/// Reads `n` doubles from `pos` on, as bits.
fn read_doubles(data: &[u8], pos: usize, n: usize) -> (r: Vec<u64>)
    requires
        pos + 8 * n <= data.len(),
    ensures
        r@ == doubles_at(data@, pos as int, n as nat),
{
    let mut v: Vec<u64> = Vec::with_capacity(n);
    let mut i: usize = 0;
    while i < n
        invariant
            i <= n,
            pos + 8 * n <= data.len(),
            v@ == doubles_at(data@, pos as int, i as nat),
        decreases n - i,
    {
        let x = u64_le_at(data, pos + 8 * i);
        v.push(x);
        proof {
            assert(v@ =~= doubles_at(data@, pos as int, (i + 1) as nat));
        }
        i += 1;
    }
    v
}

/// Reads the rows of a text table.
fn read_text_rows(data: &[u8], pos: usize, n: usize) -> (rows: Vec<TextRow>)
    requires
        pos + 40 * n <= data.len(),
    ensures
        rows@.len() == n,
        forall|i: int| 0 <= i < n ==> is_text_row(#[trigger] rows@[i], data@, pos + 40 * i),
{
    let mut rows: Vec<TextRow> = Vec::with_capacity(n);
    let mut i: usize = 0;
    while i < n
        invariant
            i <= n,
            pos + 40 * n <= data.len(),
            rows@.len() == i,
            forall|k: int| 0 <= k < i ==> is_text_row(#[trigger] rows@[k], data@, pos + 40 * k),
        decreases n - i,
    {
        let at = pos + 40 * i;
        let value = u64_le_at(data, at);
        let raw = vstd::slice::slice_subrange(data, at + 8, at + 40);
        proof {
            assert(raw@ =~= field(data@, at + 8, 32));
        }
        let text = latin1_string(raw);
        rows.push(TextRow { value, text });
        i += 1;
    }
    rows
}

/// Reads the rows of a text range table, each with the text to which it
/// links.
fn read_range_rows(data: &[u8], pos: usize, n: usize) -> (r: Result<Vec<RangeRow>, MdfError>)
    requires
        pos + 20 * n <= data.len(),
    ensures
        match range_texts_error(data@, pos as int, n as nat, 0) {
            Some(e) => r == Err::<Vec<RangeRow>, MdfError>(e),
            None => {
                &&& r is Ok
                &&& r->Ok_0@.len() == n
                &&& forall|i: int|
                    0 <= i < n ==> is_range_row(#[trigger] r->Ok_0@[i], data@, pos + 20 * i)
            },
        },
{
    let mut rows: Vec<RangeRow> = Vec::with_capacity(n);
    let mut i: usize = 0;
    while i < n
        invariant
            i <= n,
            pos + 20 * n <= data.len(),
            rows@.len() == i,
            range_texts_error(data@, pos as int, n as nat, 0) == range_texts_error(
                data@,
                pos as int,
                n as nat,
                i as nat,
            ),
            forall|k: int| 0 <= k < i ==> is_range_row(#[trigger] rows@[k], data@, pos + 20 * k),
        decreases n - i,
    {
        let at = pos + 20 * i;
        let low = u64_le_at(data, at);
        let high = u64_le_at(data, at + 8);
        let link = u32_le_at(data, at + 16);
        let text = match read_linked_text(data, link) {
            Ok(t) => t,
            Err(e) => {
                return Err(e);
            },
        };
        rows.push(RangeRow { low, high, text });
        i += 1;
    }
    Ok(rows)
}

/// Reads the conversion block at `target`: its fixed part and the
/// conversion that its parameters or table describe.
pub fn read_cc3(data: &[u8], target: u32) -> (r: Result<(Cc3Block, Conversion), MdfError>)
    ensures
        match cc3_error(data@, target) {
            Some(e) => r == Err::<(Cc3Block, Conversion), MdfError>(e),
            None => {
                &&& r is Ok
                &&& is_cc3_block(r->Ok_0.0, data@, target as int)
                &&& is_conversion(r->Ok_0.1, data@, target)
            },
        },
{
    let id = block_id(0x43, 0x43);
    match check_block(data, target as u64, CC3_SIZE, vstd::array::array_as_slice(&id)) {
        Err(e) => {
            return Err(e);
        },
        Ok(()) => {},
    }
    assert(block_error(data@, target as u64, CC3_SIZE as nat, id_cc()) is None);
    let at = target as usize;
    let cc_block = read_cc3_block(data, at);
    let size = cc_block.cc_size as usize;
    let payload: usize = match cc_block.cc_type {
        0 => 16,
        1 | 2 => 16 * size,
        6 | 9 => 48,
        7 | 8 => 56,
        10 => 256,
        11 => 40 * size,
        12 => 20 * size,
        _ => 0,
    };
    match check_block(data, target as u64, CC3_SIZE + payload, vstd::array::array_as_slice(&id)) {
        Err(e) => {
            return Err(e);
        },
        Ok(()) => {},
    }
    assert(block_error(
        data@,
        target as u64,
        CC3_SIZE as nat + cc_payload(cc_block.cc_type, cc_block.cc_size),
        id_cc(),
    ) is None);
    let pos = at + CC3_SIZE;
    let conversion = match cc_block.cc_type {
        0 => Conversion::Linear(read_doubles(data, pos, 2)),
        1 => Conversion::TabularInterpolation(read_doubles(data, pos, 2 * size)),
        2 => Conversion::Tabular(read_doubles(data, pos, 2 * size)),
        6 => Conversion::Polynomial(read_doubles(data, pos, 6)),
        7 => Conversion::Exponential(read_doubles(data, pos, 7)),
        8 => Conversion::Logarithmic(read_doubles(data, pos, 7)),
        9 => Conversion::Rational(read_doubles(data, pos, 6)),
        10 => {
            let raw = vstd::slice::slice_subrange(data, pos, pos + 256);
            proof {
                assert(raw@ =~= field(data@, pos as int, 256));
            }
            Conversion::Formula(latin1_string(raw))
        },
        11 => Conversion::TextTable(read_text_rows(data, pos, size)),
        12 => match read_range_rows(data, pos, size) {
            Ok(rows) => Conversion::TextRangeTable(rows),
            Err(e) => {
                return Err(e);
            },
        },
        _ => Conversion::Identity,
    };
    Ok((cc_block, conversion))
}

/// The supplement of a channel extension for a signal of an ECU (DIM).
#[derive(Debug, Clone)]
pub struct DimBlock {
    /// The number of the module.
    pub ce_module_number: u16,
    /// The address of the signal.
    pub ce_address: u32,
    /// The description.
    pub ce_desc: String,
    /// The identification of the ECU.
    pub ce_ecu_id: String,
}

/// The supplement of a channel extension for a signal of a CAN bus.
#[derive(Debug, Clone)]
pub struct CANBlock {
    /// The identifier of the CAN message.
    pub ce_can_id: u32,
    /// The index of the CAN channel.
    pub ce_can_index: u32,
    /// The name of the message.
    pub ce_message_name: String,
    /// The name of the sender.
    pub ce_sender_name: String,
}

/// What a channel extension says of the source of a signal.
#[derive(Debug, Clone)]
pub enum CeSupplement {
    DIM(DimBlock),
    CAN(CANBlock),
    /// No supplement that is known.
    Absent,
}

/// A channel extension block (CE): the source of a signal.
#[derive(Debug, Clone)]
pub struct CeBlock {
    pub ce_id: [u8; 2],
    /// The length of the block in bytes.
    pub ce_len: u16,
    /// 2 for a DIM supplement, 19 for a CAN supplement.
    pub ce_extension_type: u16,
    pub ce_extension: CeSupplement,
}

/// The number of bytes of a channel extension block of the given type.
pub open spec fn ce_size(ce_extension_type: u16) -> nat {
    if ce_extension_type == 2 {
        124
    } else if ce_extension_type == 19 {
        86
    } else {
        6
    }
}

/// What is wrong with the channel extension block at `target`; `None` where
/// it can be read.
pub open spec fn ce_error(data: Seq<u8>, target: u32) -> Option<MdfError> {
    match block_error(data, target as u64, 6, id_ce()) {
        Some(e) => Some(e),
        None => block_error(data, target as u64, ce_size(u16_at(data, target + 4)), id_ce()),
    }
}

/// `ce` is the channel extension block that lies at `target`.
pub open spec fn is_ce_block(ce: CeBlock, data: Seq<u8>, target: u32) -> bool {
    let pos = target as int;
    &&& ce.ce_id@ == field(data, pos, 2)
    &&& ce.ce_len == u16_at(data, pos + 2)
    &&& ce.ce_extension_type == u16_at(data, pos + 4)
    &&& if ce.ce_extension_type == 2 {
        &&& ce.ce_extension matches CeSupplement::DIM(dim)
        &&& dim.ce_module_number == u16_at(data, pos + 6)
        &&& dim.ce_address == u32_at(data, pos + 8)
        &&& dim.ce_desc@ == trim_end(latin1_text(field(data, pos + 12, 80)), '\0')
        &&& dim.ce_ecu_id@ == trim_end(latin1_text(field(data, pos + 92, 32)), '\0')
    } else if ce.ce_extension_type == 19 {
        &&& ce.ce_extension matches CeSupplement::CAN(can)
        &&& can.ce_can_id == u32_at(data, pos + 6)
        &&& can.ce_can_index == u32_at(data, pos + 10)
        &&& can.ce_message_name@ == trim_end(latin1_text(field(data, pos + 14, 36)), '\0')
        &&& can.ce_sender_name@ == trim_end(latin1_text(field(data, pos + 50, 36)), '\0')
    } else {
        ce.ce_extension is Absent
    }
}

/// Reads `n` bytes at `pos` as ISO 8859-1 text without its NUL padding.
fn text_at(data: &[u8], pos: usize, n: usize) -> (r: String)
    requires
        pos + n <= data.len(),
    ensures
        r@ == trim_end(latin1_text(field(data@, pos as int, n as int)), '\0'),
{
    let raw = vstd::slice::slice_subrange(data, pos, pos + n);
    proof {
        assert(raw@ =~= field(data@, pos as int, n as int));
    }
    latin1_string(raw)
}

/// Reads the channel extension block at `target`.
pub fn read_ce(data: &[u8], target: u32) -> (r: Result<CeBlock, MdfError>)
    ensures
        match ce_error(data@, target) {
            Some(e) => r == Err::<CeBlock, MdfError>(e),
            None => r is Ok && is_ce_block(r->Ok_0, data@, target),
        },
{
    let id = block_id(0x43, 0x45);
    match check_block(data, target as u64, 6, vstd::array::array_as_slice(&id)) {
        Err(e) => {
            return Err(e);
        },
        Ok(()) => {},
    }
    assert(block_error(data@, target as u64, 6, id_ce()) is None);
    let pos = target as usize;
    let ce_id = bytes_at::<2>(data, pos);
    let ce_len = u16_le_at(data, pos + 2);
    let ce_extension_type = u16_le_at(data, pos + 4);
    let size: usize = if ce_extension_type == 2 {
        124
    } else if ce_extension_type == 19 {
        86
    } else {
        6
    };
    match check_block(data, target as u64, size, vstd::array::array_as_slice(&id)) {
        Err(e) => {
            return Err(e);
        },
        Ok(()) => {},
    }
    assert(block_error(data@, target as u64, ce_size(ce_extension_type), id_ce()) is None);
    let ce_extension = if ce_extension_type == 2 {
        CeSupplement::DIM(
            DimBlock {
                ce_module_number: u16_le_at(data, pos + 6),
                ce_address: u32_le_at(data, pos + 8),
                ce_desc: text_at(data, pos + 12, 80),
                ce_ecu_id: text_at(data, pos + 92, 32),
            },
        )
    } else if ce_extension_type == 19 {
        CeSupplement::CAN(
            CANBlock {
                ce_can_id: u32_le_at(data, pos + 6),
                ce_can_index: u32_le_at(data, pos + 10),
                ce_message_name: text_at(data, pos + 14, 36),
                ce_sender_name: text_at(data, pos + 50, 36),
            },
        )
    } else {
        CeSupplement::Absent
    };
    Ok(CeBlock { ce_id, ce_len, ce_extension_type, ce_extension })
}

/// A conversion block with the conversion that it describes.
#[derive(Debug, Clone)]
pub struct CcEntry {
    pub block: Cc3Block,
    pub conversion: Conversion,
}

/// The blocks to which several channels may link: conversions and channel
/// extensions, each stored once under its offset in the file.
#[derive(Debug, Clone)]
pub struct SharableBlocks3 {
    pub cc: HashMap<u32, CcEntry>,
    pub ce: HashMap<u32, CeBlock>,
}

impl SharableBlocks3 {
    /// Every stored block is the block that `data` holds at its offset.
    #[verifier::opaque]
    pub open spec fn wf(&self, data: Seq<u8>) -> bool {
        &&& forall|k: u32| #[trigger]
            self.cc@.contains_key(k) ==> {
                &&& cc3_error(data, k) is None
                &&& is_cc3_block(self.cc@[k].block, data, k as int)
                &&& is_conversion(self.cc@[k].conversion, data, k)
            }
        &&& forall|k: u32| #[trigger]
            self.ce@.contains_key(k) ==> ce_error(data, k) is None && is_ce_block(
                self.ce@[k],
                data,
                k,
            )
    }

    /// Everything that `self` stores, `other` stores too.
    #[verifier::opaque]
    pub open spec fn within(&self, other: SharableBlocks3) -> bool {
        &&& self.cc@.submap_of(other.cc@)
        &&& self.ce@.submap_of(other.ce@)
    }

    /// Where `link` leads to a conversion, that conversion is stored.
    pub open spec fn has_cc(&self, link: u32) -> bool {
        link != 0 ==> self.cc@.contains_key(link)
    }

    /// Where `link` leads to a channel extension, that extension is stored.
    pub open spec fn has_ce(&self, link: u32) -> bool {
        link != 0 ==> self.ce@.contains_key(link)
    }

    /// A store without blocks.
    pub fn new() -> (r: SharableBlocks3)
        ensures
            r.cc@ == Map::<u32, CcEntry>::empty(),
            r.ce@ == Map::<u32, CeBlock>::empty(),
            forall|data: Seq<u8>| #[trigger] r.wf(data),
    {
        let r = SharableBlocks3 { cc: HashMap::new(), ce: HashMap::new() };
        proof {
            reveal(SharableBlocks3::wf);
        }
        r
    }

    /// A store holds what it holds.
    pub proof fn lemma_within_self(self)
        ensures
            self.within(self),
    {
        reveal(SharableBlocks3::within);
    }

    /// What a store holds, every store that holds that store holds too.
    pub proof fn lemma_within_trans(self, b: SharableBlocks3, c: SharableBlocks3)
        requires
            self.within(b),
            b.within(c),
        ensures
            self.within(c),
    {
        reveal(SharableBlocks3::within);
        assert forall|k: u32| #[trigger] self.cc@.dom().contains(k) implies c.cc@.dom().contains(k)
            && self.cc@[k] == c.cc@[k] by {
            assert(b.cc@.dom().contains(k));
        }
        assert forall|k: u32| #[trigger] self.ce@.dom().contains(k) implies c.ce@.dom().contains(k)
            && self.ce@[k] == c.ce@[k] by {
            assert(b.ce@.dom().contains(k));
        }
    }

    /// A block that a store holds is found in every store that holds that
    /// store.
    pub proof fn lemma_within_has(self, b: SharableBlocks3, cc_link: u32, ce_link: u32)
        requires
            self.within(b),
        ensures
            self.has_cc(cc_link) ==> b.has_cc(cc_link),
            self.has_ce(ce_link) ==> b.has_ce(ce_link),
    {
        reveal(SharableBlocks3::within);
    }
}

/// What is wrong with the conversion to which `link` leads; `None` where the
/// link is 0 or the block can be read.
pub open spec fn linked_cc_error(data: Seq<u8>, link: u32) -> Option<MdfError> {
    if link == 0 {
        None
    } else {
        cc3_error(data, link)
    }
}

/// What is wrong with the channel extension to which `link` leads.
pub open spec fn linked_ce_error(data: Seq<u8>, link: u32) -> Option<MdfError> {
    if link == 0 {
        None
    } else {
        ce_error(data, link)
    }
}

/// Reads the conversion block at `target` into the store, unless the link is
/// 0 or the block is stored already.
pub fn parse_cc3_block(data: &[u8], target: u32, sharable: &mut SharableBlocks3) -> (r: Result<
    (),
    MdfError,
>)
    requires
        old(sharable).wf(data@),
    ensures
        final(sharable).wf(data@),
        old(sharable).within(*final(sharable)),
        match linked_cc_error(data@, target) {
            Some(e) => r == Err::<(), MdfError>(e),
            None => r is Ok && final(sharable).has_cc(target),
        },
{
    broadcast use vstd::std_specs::hash::group_hash_axioms;

    proof {
        reveal(SharableBlocks3::wf);
        reveal(SharableBlocks3::within);
    }
    if target == 0 || sharable.cc.contains_key(&target) {
        return Ok(());
    }
    match read_cc3(data, target) {
        Ok((block, conversion)) => {
            sharable.cc.insert(target, CcEntry { block, conversion });
            Ok(())
        },
        Err(e) => Err(e),
    }
}

/// Reads the channel extension block at `target` into the store, unless the
/// link is 0 or the block is stored already.
pub fn parse_ce(data: &[u8], target: u32, sharable: &mut SharableBlocks3) -> (r: Result<
    (),
    MdfError,
>)
    requires
        old(sharable).wf(data@),
    ensures
        final(sharable).wf(data@),
        old(sharable).within(*final(sharable)),
        match linked_ce_error(data@, target) {
            Some(e) => r == Err::<(), MdfError>(e),
            None => r is Ok && final(sharable).has_ce(target),
        },
{
    broadcast use vstd::std_specs::hash::group_hash_axioms;

    proof {
        reveal(SharableBlocks3::wf);
        reveal(SharableBlocks3::within);
    }
    if target == 0 || sharable.ce.contains_key(&target) {
        return Ok(());
    }
    match read_ce(data, target) {
        Ok(block) => {
            sharable.ce.insert(target, block);
            Ok(())
        },
        Err(e) => Err(e),
    }
}

/// A channel: its block, what was derived from it, and its samples.
#[derive(Debug, Clone)]
pub struct Cn3 {
    pub block1: Cn3Block1,
    pub block2: Cn3Block2,
    /// The offset of the block in the file.
    pub block_position: u32,
    /// The name under which the channel is known in the whole file.
    pub unique_name: String,
    /// The channel's comment.
    pub comment: String,
    /// The channel's description.
    pub description: String,
    /// The first byte of the channel in the record, the record id included.
    pub pos_byte_beg: u16,
    /// The number of bytes that the channel's value takes in the record.
    pub n_bytes: u16,
    /// The samples.
    pub data: ChannelData,
    /// False for little endian, true for big endian.
    pub endian: bool,
    /// True once all samples are decoded.
    pub channel_data_valid: bool,
}

/// The byte order of a channel: data types from 13 on are little endian,
/// those from 9 to 12 big endian, and those up to 3 follow the file's default
/// byte order, where 0 stands for little endian. True stands for big endian.
pub open spec fn endian_of(cn_data_type: u16, default_byte_order: u16) -> bool {
    if cn_data_type >= 13 {
        false
    } else if cn_data_type >= 9 {
        true
    } else if cn_data_type <= 3 {
        default_byte_order != 0
    } else {
        false
    }
}

/// The number of bytes that hold `bit_count` bits.
pub open spec fn bytes_for_bits(bit_count: u16) -> u16 {
    if bit_count % 8 != 0 {
        (bit_count / 8 + 1) as u16
    } else {
        bit_count / 8
    }
}

/// What is wrong with the channel block at `target` or with a block to which
/// it links; `None` where the channel can be read. The blocks are looked at
/// in this order: the channel block, the long name, the comment, the
/// conversion, the channel extension.
pub open spec fn cn3_error(data: Seq<u8>, target: u32, record_id_size: u16) -> Option<MdfError> {
    match block_error(data, target as u64, CN3_SIZE as nat, id_cn()) {
        Some(e) => Some(e),
        None => {
            if u16_at(data, target + 186) / 8 + record_id_size > u16::MAX {
                Some(
                    MdfError::CorruptBlock {
                        offset: target as u64,
                        expected: CN3_SIZE as u64,
                        actual: CN3_SIZE as u64,
                    },
                )
            } else {
                match linked_text_error(data, u32_at(data, target + 218)) {
                    Some(e) => Some(e),
                    None => match linked_text_error(data, u32_at(data, target + 20)) {
                        Some(e) => Some(e),
                        None => match linked_cc_error(data, u32_at(data, target + 8)) {
                            Some(e) => Some(e),
                            None => linked_ce_error(data, u32_at(data, target + 12)),
                        },
                    },
                }
            }
        },
    }
}

/// `cn` is the channel that the block at `target` describes, in a data group
/// whose records start with `record_id_size` bytes of record id.
///
/// The channel starts at byte `bit_offset / 8` after the record id and takes
/// as many bytes as its bits need. Its name is its long name where it has
/// one, and its short name otherwise.
pub open spec fn is_cn3(
    cn: Cn3,
    data: Seq<u8>,
    target: u32,
    record_id_size: u16,
    default_byte_order: u16,
) -> bool {
    &&& is_cn3_block1(cn.block1, data, target as int)
    &&& is_cn3_block2(cn.block2, data, target as int)
    &&& cn.block_position == target
    &&& cn.unique_name@ == if cn.block2.cn_tx_long_name != 0 {
        tx_text(data, cn.block2.cn_tx_long_name)
    } else {
        trim_end(latin1_text(field(data, target + 26, 32)), '\0')
    }
    &&& cn.description@ == trim_end(latin1_text(field(data, target + 58, 128)), '\0')
    &&& cn.comment@ == linked_text(data, cn.block1.cn_tx_comment)
    &&& cn.pos_byte_beg == cn.block2.cn_bit_offset / 8 + record_id_size
    &&& cn.n_bytes == bytes_for_bits(cn.block2.cn_bit_count)
    &&& cn.endian == endian_of(cn.block2.cn_data_type, default_byte_order)
    &&& cn.data.kind() == kind_of(0, data_type_3to4(cn.block2.cn_data_type), cn.n_bytes as u32)
    &&& cn.data.shape() is None
    &&& cn.data.spec_len() == 0
    &&& !cn.channel_data_valid
}

/// Reads the channel block at `target` with the texts to which it links, and
/// the conversion and channel extension to which it links into the store.
pub fn parse_cn3_block(
    data: &[u8],
    target: u32,
    sharable: &mut SharableBlocks3,
    record_id_size: u16,
    default_byte_order: u16,
) -> (r: Result<Cn3, MdfError>)
    requires
        old(sharable).wf(data@),
    ensures
        final(sharable).wf(data@),
        old(sharable).within(*final(sharable)),
        match cn3_error(data@, target, record_id_size) {
            Some(e) => r == Err::<Cn3, MdfError>(e),
            None => {
                &&& r is Ok
                &&& is_cn3(r->Ok_0, data@, target, record_id_size, default_byte_order)
                &&& final(sharable).has_cc(r->Ok_0.block1.cn_cc_conversion)
                &&& final(sharable).has_ce(r->Ok_0.block1.cn_ce_source)
            },
        },
{
    proof {
        old(sharable).lemma_within_self();
    }
    let id = block_id(0x43, 0x4e);
    match check_block(data, target as u64, CN3_SIZE, vstd::array::array_as_slice(&id)) {
        Err(e) => {
            return Err(e);
        },
        Ok(()) => {},
    }
    assert(block_error(data@, target as u64, CN3_SIZE as nat, id_cn()) is None);
    let pos = target as usize;
    let block1 = read_cn3_block1(data, pos);
    let block2 = read_cn3_block2(data, pos);
    let pos_byte_beg = match (block2.cn_bit_offset / 8).checked_add(record_id_size) {
        Some(p) => p,
        None => {
            return Err(
                MdfError::CorruptBlock {
                    offset: target as u64,
                    expected: CN3_SIZE as u64,
                    actual: CN3_SIZE as u64,
                },
            );
        },
    };
    let mut n_bytes = block2.cn_bit_count / 8u16;
    if (block2.cn_bit_count % 8) != 0 {
        n_bytes += 1;
    }
    let unique_name = if block2.cn_tx_long_name != 0 {
        match read_linked_text(data, block2.cn_tx_long_name) {
            Ok(name) => name,
            Err(e) => {
                return Err(e);
            },
        }
    } else {
        latin1_string(vstd::array::array_as_slice(&block1.cn_short_name))
    };
    let description = text_at(data, pos + 58, 128);
    let comment = match read_linked_text(data, block1.cn_tx_comment) {
        Ok(c) => c,
        Err(e) => {
            return Err(e);
        },
    };
    match parse_cc3_block(data, block1.cn_cc_conversion, sharable) {
        Ok(()) => {},
        Err(e) => {
            return Err(e);
        },
    }
    let ghost with_cc = *sharable;
    let ce_result = parse_ce(data, block1.cn_ce_source, sharable);
    proof {
        old(sharable).lemma_within_trans(with_cc, *sharable);
        with_cc.lemma_within_has(*sharable, block1.cn_cc_conversion, 0);
    }
    match ce_result {
        Ok(()) => {},
        Err(e) => {
            return Err(e);
        },
    }
    let mut endian: bool = false;
    if block2.cn_data_type >= 13 {
        endian = false;
    } else if block2.cn_data_type >= 9 {
        endian = true;
    } else if block2.cn_data_type <= 3 {
        endian = default_byte_order != 0;
    }
    let data_type = convert_data_type_3to4(block2.cn_data_type);
    let cn_struct = Cn3 {
        block1,
        block2,
        block_position: target,
        description,
        comment,
        unique_name,
        pos_byte_beg,
        n_bytes,
        data: data_type_init(0, data_type, n_bytes as u32, false),
        endian,
        channel_data_valid: false,
    };
    Ok(cn_struct)
}

/// The longest chain of blocks that is followed. A longer one is taken for a
/// chain that runs in a circle.
pub const MAX_CHAIN: usize = 65535;

/// `prefix` put before the offsets of `rest`, where `rest` holds offsets.
pub open spec fn chain_after(prefix: Seq<u32>, rest: Result<Seq<u32>, MdfError>) -> Result<
    Seq<u32>,
    MdfError,
> {
    match rest {
        Ok(offsets) => Ok(prefix + offsets),
        Err(e) => Err(e),
    }
}

/// The offsets of the channel blocks of the chain that starts at `target`,
/// in the order of the chain, of which at most `fuel` are followed. The error
/// of the first channel that cannot be read, where there is one.
pub open spec fn cn_chain(data: Seq<u8>, target: u32, record_id_size: u16, fuel: nat) -> Result<
    Seq<u32>,
    MdfError,
>
    decreases fuel,
{
    if target == 0 {
        Ok(Seq::empty())
    } else if fuel == 0 {
        Err(MdfError::UnexpectedBlockType { offset: target as u64 })
    } else {
        match cn3_error(data, target, record_id_size) {
            Some(e) => Err(e),
            None => chain_after(
                seq![target],
                cn_chain(data, u32_at(data, target + 4), record_id_size, (fuel - 1) as nat),
            ),
        }
    }
}

/// `cns` are the channels of the chain with the offsets `offsets`.
pub open spec fn are_cn3(
    cns: Seq<Cn3>,
    offsets: Seq<u32>,
    data: Seq<u8>,
    record_id_size: u16,
    default_byte_order: u16,
) -> bool {
    &&& cns.len() == offsets.len()
    &&& forall|i: int|
        0 <= i < cns.len() ==> is_cn3(
            #[trigger] cns[i],
            data,
            offsets[i],
            record_id_size,
            default_byte_order,
        )
}

/// Every channel of `cns` finds its conversion and its channel extension in
/// the store.
pub open spec fn cns_linked(cns: Seq<Cn3>, sharable: SharableBlocks3) -> bool {
    forall|i: int|
        0 <= i < cns.len() ==> sharable.has_cc((#[trigger] cns[i]).block1.cn_cc_conversion)
            && sharable.has_ce(cns[i].block1.cn_ce_source)
}

/// Channels that find their blocks in a store find them in every store that
/// holds that store.
pub proof fn lemma_cns_stay_linked(cns: Seq<Cn3>, a: SharableBlocks3, b: SharableBlocks3)
    requires
        cns_linked(cns, a),
        a.within(b),
    ensures
        cns_linked(cns, b),
{
    assert forall|i: int| 0 <= i < cns.len() implies b.has_cc(
        (#[trigger] cns[i]).block1.cn_cc_conversion,
    ) && b.has_ce(cns[i].block1.cn_ce_source) by {
        a.lemma_within_has(b, cns[i].block1.cn_cc_conversion, cns[i].block1.cn_ce_source);
    }
}

/// Reads the chain of channel blocks that starts at `target`, with all that
/// the channels link to. The channels come in the order of the chain.
pub fn parse_cn3(
    data: &[u8],
    target: u32,
    sharable: &mut SharableBlocks3,
    record_id_size: u16,
    default_byte_order: u16,
) -> (r: Result<Vec<Cn3>, MdfError>)
    requires
        old(sharable).wf(data@),
    ensures
        final(sharable).wf(data@),
        old(sharable).within(*final(sharable)),
        match cn_chain(data@, target, record_id_size, MAX_CHAIN as nat) {
            Err(e) => r == Err::<Vec<Cn3>, MdfError>(e),
            Ok(offsets) => {
                &&& r is Ok
                &&& are_cn3(r->Ok_0@, offsets, data@, record_id_size, default_byte_order)
                &&& cns_linked(r->Ok_0@, *final(sharable))
            },
        },
{
    let mut cn: Vec<Cn3> = Vec::new();
    let mut next_pointer = target;
    let ghost mut visited: Seq<u32> = Seq::empty();
    proof {
        old(sharable).lemma_within_self();
        assert(Seq::<u32>::empty() + cn_chain(
            data@,
            target,
            record_id_size,
            MAX_CHAIN as nat,
        )->Ok_0 =~= cn_chain(data@, target, record_id_size, MAX_CHAIN as nat)->Ok_0);
    }
    while next_pointer != 0
        invariant
            sharable.wf(data@),
            old(sharable).within(*sharable),
            cn@.len() == visited.len(),
            cn@.len() <= MAX_CHAIN,
            cn_chain(data@, target, record_id_size, MAX_CHAIN as nat) == chain_after(
                visited,
                cn_chain(data@, next_pointer, record_id_size, (MAX_CHAIN - visited.len()) as nat),
            ),
            are_cn3(cn@, visited, data@, record_id_size, default_byte_order),
            cns_linked(cn@, *sharable),
        decreases MAX_CHAIN - cn@.len(),
    {
        if cn.len() >= MAX_CHAIN {
            return Err(MdfError::UnexpectedBlockType { offset: next_pointer as u64 });
        }
        let ghost before = *sharable;
        let parsed = parse_cn3_block(
            data,
            next_pointer,
            sharable,
            record_id_size,
            default_byte_order,
        );
        proof {
            old(sharable).lemma_within_trans(before, *sharable);
            lemma_cns_stay_linked(cn@, before, *sharable);
        }
        let cn_struct = match parsed {
            Ok(c) => c,
            Err(e) => {
                return Err(e);
            },
        };
        proof {
            let rest = cn_chain(
                data@,
                cn_struct.block1.cn_cn_next,
                record_id_size,
                (MAX_CHAIN - visited.len() - 1) as nat,
            );
            match rest {
                Ok(offsets) => {
                    assert(visited + (seq![next_pointer] + offsets) =~= visited.push(next_pointer)
                        + offsets);
                },
                Err(_) => {},
            }
            visited = visited.push(next_pointer);
        }
        next_pointer = cn_struct.block1.cn_cn_next;
        cn.push(cn_struct);
    }
    proof {
        assert(visited + Seq::<u32>::empty() =~= visited);
    }
    Ok(cn)
}

/// A channel group with its channels in the order of the file.
#[derive(Debug, Clone)]
pub struct Cg3 {
    pub block: Cg3Block,
    /// The channels, in the order of their chain.
    pub cn: Vec<Cn3>,
    /// The offset of the block in the file.
    pub block_position: u32,
    /// The name of the group's master channel.
    pub master_channel_name: String,
    /// The names of the group's channels.
    pub channel_names: Vec<String>,
    /// The length of a record, its record id included.
    pub record_length: u16,
}

/// What is wrong with the channel group block at `target` or with one of
/// its channels; `None` where the group can be read.
pub open spec fn cg3_error(data: Seq<u8>, target: u32, record_id_size: u16) -> Option<MdfError> {
    match block_error(data, target as u64, CG3_SIZE as nat, id_cg()) {
        Some(e) => Some(e),
        None => {
            if u16_at(data, target + 20) + record_id_size > u16::MAX {
                Some(
                    MdfError::CorruptBlock {
                        offset: target as u64,
                        expected: CG3_SIZE as u64,
                        actual: CG3_SIZE as u64,
                    },
                )
            } else {
                match cn_chain(data, u32_at(data, target + 8), record_id_size, MAX_CHAIN as nat) {
                    Err(e) => Some(e),
                    Ok(_) => None,
                }
            }
        },
    }
}

/// `cg` is the channel group that the block at `target` describes, with the
/// channels of its chain. Its records are as long as the block says, plus the
/// record id. Names of masters and channels are not yet assigned.
pub open spec fn is_cg3(
    cg: Cg3,
    data: Seq<u8>,
    target: u32,
    record_id_size: u16,
    default_byte_order: u16,
) -> bool {
    &&& is_cg3_block(cg.block, data, target as int)
    &&& cg.block_position == target
    &&& cn_chain(data, cg.block.cg_cn_first, record_id_size, MAX_CHAIN as nat) is Ok
    &&& are_cn3(
        cg.cn@,
        cn_chain(data, cg.block.cg_cn_first, record_id_size, MAX_CHAIN as nat)->Ok_0,
        data,
        record_id_size,
        default_byte_order,
    )
    &&& cg.master_channel_name@ == Seq::<char>::empty()
    &&& cg.channel_names@ == Seq::<String>::empty()
    &&& cg.record_length == cg.block.cg_data_bytes + record_id_size
}

/// Reads the channel group block at `target` with its channels.
pub fn parse_cg3_block(
    data: &[u8],
    target: u32,
    sharable: &mut SharableBlocks3,
    record_id_size: u16,
    default_byte_order: u16,
) -> (r: Result<Cg3, MdfError>)
    requires
        old(sharable).wf(data@),
    ensures
        final(sharable).wf(data@),
        old(sharable).within(*final(sharable)),
        match cg3_error(data@, target, record_id_size) {
            Some(e) => r == Err::<Cg3, MdfError>(e),
            None => {
                &&& r is Ok
                &&& is_cg3(r->Ok_0, data@, target, record_id_size, default_byte_order)
                &&& cns_linked(r->Ok_0.cn@, *final(sharable))
            },
        },
{
    proof {
        old(sharable).lemma_within_self();
    }
    let id = block_id(0x43, 0x47);
    match check_block(data, target as u64, CG3_SIZE, vstd::array::array_as_slice(&id)) {
        Err(e) => {
            return Err(e);
        },
        Ok(()) => {},
    }
    assert(block_error(data@, target as u64, CG3_SIZE as nat, id_cg()) is None);
    let cg = read_cg3_block(data, target as usize);
    let record_length = match cg.cg_data_bytes.checked_add(record_id_size) {
        Some(l) => l,
        None => {
            return Err(
                MdfError::CorruptBlock {
                    offset: target as u64,
                    expected: CG3_SIZE as u64,
                    actual: CG3_SIZE as u64,
                },
            );
        },
    };
    let cn = match parse_cn3(data, cg.cg_cn_first, sharable, record_id_size, default_byte_order) {
        Ok(cn) => cn,
        Err(e) => {
            return Err(e);
        },
    };
    Ok(
        Cg3 {
            block: cg,
            cn,
            block_position: target,
            master_channel_name: String::new(),
            channel_names: Vec::new(),
            record_length,
        },
    )
}

/// The offsets of the channel group blocks of the chain that starts at
/// `target`, of which at most `fuel` are followed, or the error of the first
/// group that cannot be read.
pub open spec fn cg_chain(data: Seq<u8>, target: u32, record_id_size: u16, fuel: nat) -> Result<
    Seq<u32>,
    MdfError,
>
    decreases fuel,
{
    if target == 0 {
        Ok(Seq::empty())
    } else if fuel == 0 {
        Err(MdfError::UnexpectedBlockType { offset: target as u64 })
    } else {
        match cg3_error(data, target, record_id_size) {
            Some(e) => Err(e),
            None => chain_after(
                seq![target],
                cg_chain(data, u32_at(data, target + 4), record_id_size, (fuel - 1) as nat),
            ),
        }
    }
}

/// `cgs` are the channel groups of the chain with the offsets `offsets`, and
/// all their channels find their blocks in the store.
pub open spec fn are_cg3(
    cgs: Seq<Cg3>,
    offsets: Seq<u32>,
    data: Seq<u8>,
    record_id_size: u16,
    default_byte_order: u16,
    sharable: SharableBlocks3,
) -> bool {
    &&& cgs.len() == offsets.len()
    &&& forall|i: int|
        0 <= i < cgs.len() ==> is_cg3(
            #[trigger] cgs[i],
            data,
            offsets[i],
            record_id_size,
            default_byte_order,
        ) && cns_linked(cgs[i].cn@, sharable)
}

/// Groups whose channels find their blocks in a store find them in every
/// store that holds that store.
pub proof fn lemma_cgs_stay_linked(
    cgs: Seq<Cg3>,
    offsets: Seq<u32>,
    data: Seq<u8>,
    record_id_size: u16,
    default_byte_order: u16,
    a: SharableBlocks3,
    b: SharableBlocks3,
)
    requires
        are_cg3(cgs, offsets, data, record_id_size, default_byte_order, a),
        a.within(b),
    ensures
        are_cg3(cgs, offsets, data, record_id_size, default_byte_order, b),
{
    assert forall|i: int| 0 <= i < cgs.len() implies cns_linked((#[trigger] cgs[i]).cn@, b) by {
        lemma_cns_stay_linked(cgs[i].cn@, a, b);
    }
}

/// Reads the chain of channel group blocks that starts at `target`, each
/// with its channels. The groups come in the order of the chain.
pub fn parse_cg3(
    data: &[u8],
    target: u32,
    sharable: &mut SharableBlocks3,
    record_id_size: u16,
    default_byte_order: u16,
) -> (r: Result<Vec<Cg3>, MdfError>)
    requires
        old(sharable).wf(data@),
    ensures
        final(sharable).wf(data@),
        old(sharable).within(*final(sharable)),
        match cg_chain(data@, target, record_id_size, MAX_CHAIN as nat) {
            Err(e) => r == Err::<Vec<Cg3>, MdfError>(e),
            Ok(offsets) => r is Ok && are_cg3(
                r->Ok_0@,
                offsets,
                data@,
                record_id_size,
                default_byte_order,
                *final(sharable),
            ),
        },
{
    let mut cg: Vec<Cg3> = Vec::new();
    let mut next_pointer = target;
    let ghost mut visited: Seq<u32> = Seq::empty();
    proof {
        old(sharable).lemma_within_self();
        assert(Seq::<u32>::empty() + cg_chain(
            data@,
            target,
            record_id_size,
            MAX_CHAIN as nat,
        )->Ok_0 =~= cg_chain(data@, target, record_id_size, MAX_CHAIN as nat)->Ok_0);
    }
    while next_pointer != 0
        invariant
            sharable.wf(data@),
            old(sharable).within(*sharable),
            cg@.len() == visited.len(),
            cg@.len() <= MAX_CHAIN,
            cg_chain(data@, target, record_id_size, MAX_CHAIN as nat) == chain_after(
                visited,
                cg_chain(data@, next_pointer, record_id_size, (MAX_CHAIN - visited.len()) as nat),
            ),
            are_cg3(cg@, visited, data@, record_id_size, default_byte_order, *sharable),
        decreases MAX_CHAIN - cg@.len(),
    {
        if cg.len() >= MAX_CHAIN {
            return Err(MdfError::UnexpectedBlockType { offset: next_pointer as u64 });
        }
        let ghost before = *sharable;
        let parsed = parse_cg3_block(
            data,
            next_pointer,
            sharable,
            record_id_size,
            default_byte_order,
        );
        proof {
            old(sharable).lemma_within_trans(before, *sharable);
            lemma_cgs_stay_linked(
                cg@,
                visited,
                data@,
                record_id_size,
                default_byte_order,
                before,
                *sharable,
            );
        }
        let cg_struct = match parsed {
            Ok(c) => c,
            Err(e) => {
                return Err(e);
            },
        };
        proof {
            let rest = cg_chain(
                data@,
                cg_struct.block.cg_cg_next,
                record_id_size,
                (MAX_CHAIN - visited.len() - 1) as nat,
            );
            match rest {
                Ok(offsets) => {
                    assert(visited + (seq![next_pointer] + offsets) =~= visited.push(next_pointer)
                        + offsets);
                },
                Err(_) => {},
            }
            visited = visited.push(next_pointer);
        }
        next_pointer = cg_struct.block.cg_cg_next;
        cg.push(cg_struct);
    }
    proof {
        assert(visited + Seq::<u32>::empty() =~= visited);
    }
    Ok(cg)
}

/// A data group with its channel groups in the order of the file.
#[derive(Debug, Clone)]
pub struct Dg3 {
    pub block: Dg3Block,
    /// The offset of the block in the file.
    pub block_position: u32,
    /// The channel groups, in the order of their chain.
    pub cg: Vec<Cg3>,
}

/// What is wrong with the data group block at `target` or with one of its
/// channel groups; `None` where the data group can be read.
pub open spec fn dg3_error(data: Seq<u8>, target: u32) -> Option<MdfError> {
    match block_error(data, target as u64, DG3_SIZE as nat, id_dg()) {
        Some(e) => Some(e),
        None => match cg_chain(
            data,
            u32_at(data, target + 8),
            u16_at(data, target + 22),
            MAX_CHAIN as nat,
        ) {
            Err(e) => Some(e),
            Ok(_) => None,
        },
    }
}

/// `dg` is the data group that the block at `target` describes, with the
/// channel groups of its chain, whose channels find their blocks in the
/// store.
pub open spec fn is_dg3(
    dg: Dg3,
    data: Seq<u8>,
    target: u32,
    default_byte_order: u16,
    sharable: SharableBlocks3,
) -> bool {
    &&& is_dg3_block(dg.block, data, target as int)
    &&& dg.block_position == target
    &&& cg_chain(data, dg.block.dg_cg_first, dg.block.dg_n_record_ids, MAX_CHAIN as nat) is Ok
    &&& are_cg3(
        dg.cg@,
        cg_chain(data, dg.block.dg_cg_first, dg.block.dg_n_record_ids, MAX_CHAIN as nat)->Ok_0,
        data,
        dg.block.dg_n_record_ids,
        default_byte_order,
        sharable,
    )
}

/// The offsets of the data group blocks of the chain that starts at
/// `target`, of which at most `fuel` are followed, or the error of the first
/// data group that cannot be read.
pub open spec fn dg_chain(data: Seq<u8>, target: u32, fuel: nat) -> Result<Seq<u32>, MdfError>
    decreases fuel,
{
    if target == 0 {
        Ok(Seq::empty())
    } else if fuel == 0 {
        Err(MdfError::UnexpectedBlockType { offset: target as u64 })
    } else {
        match dg3_error(data, target) {
            Some(e) => Err(e),
            None => chain_after(
                seq![target],
                dg_chain(data, u32_at(data, target + 4), (fuel - 1) as nat),
            ),
        }
    }
}

/// `dgs` are the data groups of the chain with the offsets `offsets`.
pub open spec fn are_dg3(
    dgs: Seq<Dg3>,
    offsets: Seq<u32>,
    data: Seq<u8>,
    default_byte_order: u16,
    sharable: SharableBlocks3,
) -> bool {
    &&& dgs.len() == offsets.len()
    &&& forall|i: int|
        0 <= i < dgs.len() ==> is_dg3(
            #[trigger] dgs[i],
            data,
            offsets[i],
            default_byte_order,
            sharable,
        )
}

/// Data groups whose channels find their blocks in a store find them in
/// every store that holds that store.
pub proof fn lemma_dgs_stay_linked(
    dgs: Seq<Dg3>,
    offsets: Seq<u32>,
    data: Seq<u8>,
    default_byte_order: u16,
    a: SharableBlocks3,
    b: SharableBlocks3,
)
    requires
        are_dg3(dgs, offsets, data, default_byte_order, a),
        a.within(b),
    ensures
        are_dg3(dgs, offsets, data, default_byte_order, b),
{
    assert forall|i: int| 0 <= i < dgs.len() implies is_dg3(
        #[trigger] dgs[i],
        data,
        offsets[i],
        default_byte_order,
        b,
    ) by {
        let dg = dgs[i];
        lemma_cgs_stay_linked(
            dg.cg@,
            cg_chain(data, dg.block.dg_cg_first, dg.block.dg_n_record_ids, MAX_CHAIN as nat)->Ok_0,
            data,
            dg.block.dg_n_record_ids,
            default_byte_order,
            a,
            b,
        );
    }
}

/// The number of channel groups of the data groups.
pub open spec fn count_groups(dgs: Seq<Dg3>) -> nat
    decreases dgs.len(),
{
    if dgs.len() == 0 {
        0
    } else {
        count_groups(dgs.drop_last()) + dgs.last().cg@.len()
    }
}

/// The number of channels of the channel groups.
pub open spec fn count_channels_of(cgs: Seq<Cg3>) -> nat
    decreases cgs.len(),
{
    if cgs.len() == 0 {
        0
    } else {
        count_channels_of(cgs.drop_last()) + cgs.last().cn@.len()
    }
}

/// The number of channels of the data groups.
pub open spec fn count_channels(dgs: Seq<Dg3>) -> nat
    decreases dgs.len(),
{
    if dgs.len() == 0 {
        0
    } else {
        count_channels(dgs.drop_last()) + count_channels_of(dgs.last().cg@)
    }
}

/// A chain of channels is no longer than the number of blocks that are
/// followed.
pub proof fn lemma_cn_chain_length(data: Seq<u8>, target: u32, record_id_size: u16, fuel: nat)
    ensures
        cn_chain(data, target, record_id_size, fuel) is Ok ==> cn_chain(
            data,
            target,
            record_id_size,
            fuel,
        )->Ok_0.len() <= fuel,
    decreases fuel,
{
    if target != 0 && fuel > 0 {
        lemma_cn_chain_length(data, u32_at(data, target + 4), record_id_size, (fuel - 1) as nat);
    }
}

/// A chain of channel groups is no longer than the number of blocks that
/// are followed.
pub proof fn lemma_cg_chain_length(data: Seq<u8>, target: u32, record_id_size: u16, fuel: nat)
    ensures
        cg_chain(data, target, record_id_size, fuel) is Ok ==> cg_chain(
            data,
            target,
            record_id_size,
            fuel,
        )->Ok_0.len() <= fuel,
    decreases fuel,
{
    if target != 0 && fuel > 0 {
        lemma_cg_chain_length(data, u32_at(data, target + 4), record_id_size, (fuel - 1) as nat);
    }
}

/// Counts the channels of the channel groups.
fn channels_in(cgs: &Vec<Cg3>) -> (n: usize)
    requires
        cgs@.len() <= MAX_CHAIN,
        forall|i: int| 0 <= i < cgs@.len() ==> (#[trigger] cgs@[i]).cn@.len() <= MAX_CHAIN,
    ensures
        n == count_channels_of(cgs@),
        n <= cgs@.len() * MAX_CHAIN,
{
    let mut n: usize = 0;
    let mut i: usize = 0;
    proof {
        assert(cgs@.subrange(0, 0) =~= Seq::<Cg3>::empty());
    }
    while i < cgs.len()
        invariant
            i <= cgs.len(),
            cgs@.len() <= MAX_CHAIN,
            forall|k: int| 0 <= k < cgs@.len() ==> (#[trigger] cgs@[k]).cn@.len() <= MAX_CHAIN,
            n == count_channels_of(cgs@.subrange(0, i as int)),
            n <= i * MAX_CHAIN,
        decreases cgs.len() - i,
    {
        proof {
            assert(cgs@.subrange(0, i + 1).drop_last() =~= cgs@.subrange(0, i as int));
            assert((i + 1) * MAX_CHAIN == i * MAX_CHAIN + MAX_CHAIN) by (nonlinear_arith);
            assert(i * MAX_CHAIN <= MAX_CHAIN * MAX_CHAIN) by (nonlinear_arith)
                requires
                    i <= MAX_CHAIN,
            ;
        }
        n += cgs[i].cn.len();
        i += 1;
    }
    proof {
        assert(cgs@.subrange(0, i as int) =~= cgs@);
    }
    n
}

/// Reads the chain of data group blocks that starts at `target`, with their
/// channel groups, channels, conversions and channel extensions. Returns the
/// data groups in the order of the chain, the number of their channel groups
/// and the number of their channels.
pub fn parse_dg3(
    data: &[u8],
    target: u32,
    sharable: &mut SharableBlocks3,
    default_byte_order: u16,
) -> (r: Result<(Vec<Dg3>, u64, u64), MdfError>)
    requires
        old(sharable).wf(data@),
    ensures
        final(sharable).wf(data@),
        old(sharable).within(*final(sharable)),
        match dg_chain(data@, target, MAX_CHAIN as nat) {
            Err(e) => r == Err::<(Vec<Dg3>, u64, u64), MdfError>(e),
            Ok(offsets) => {
                &&& r is Ok
                &&& are_dg3(r->Ok_0.0@, offsets, data@, default_byte_order, *final(sharable))
                &&& r->Ok_0.1 == count_groups(r->Ok_0.0@)
                &&& r->Ok_0.2 == count_channels(r->Ok_0.0@)
            },
        },
{
    let mut dg: Vec<Dg3> = Vec::new();
    let mut n_cg: u64 = 0;
    let mut n_cn: u64 = 0;
    let mut next_pointer = target;
    let ghost mut visited: Seq<u32> = Seq::empty();
    proof {
        old(sharable).lemma_within_self();
        assert(Seq::<u32>::empty() + dg_chain(data@, target, MAX_CHAIN as nat)->Ok_0
            =~= dg_chain(data@, target, MAX_CHAIN as nat)->Ok_0);
    }
    while next_pointer != 0
        invariant
            sharable.wf(data@),
            old(sharable).within(*sharable),
            dg@.len() == visited.len(),
            dg@.len() <= MAX_CHAIN,
            dg_chain(data@, target, MAX_CHAIN as nat) == chain_after(
                visited,
                dg_chain(data@, next_pointer, (MAX_CHAIN - visited.len()) as nat),
            ),
            are_dg3(dg@, visited, data@, default_byte_order, *sharable),
            n_cg == count_groups(dg@),
            n_cn == count_channels(dg@),
            n_cg <= dg@.len() * MAX_CHAIN,
            n_cn <= dg@.len() * (MAX_CHAIN * MAX_CHAIN),
        decreases MAX_CHAIN - dg@.len(),
    {
        if dg.len() >= MAX_CHAIN {
            return Err(MdfError::UnexpectedBlockType { offset: next_pointer as u64 });
        }
        let block_start = next_pointer;
        let (block, _) = match parse_dg3_block(data, next_pointer) {
            Ok(b) => b,
            Err(e) => {
                return Err(e);
            },
        };
        let ghost before = *sharable;
        let parsed = parse_cg3(
            data,
            block.dg_cg_first,
            sharable,
            block.dg_n_record_ids,
            default_byte_order,
        );
        proof {
            old(sharable).lemma_within_trans(before, *sharable);
            lemma_dgs_stay_linked(dg@, visited, data@, default_byte_order, before, *sharable);
        }
        let cg = match parsed {
            Ok(c) => c,
            Err(e) => {
                return Err(e);
            },
        };
        proof {
            let rest = dg_chain(
                data@,
                block.dg_dg_next,
                (MAX_CHAIN - visited.len() - 1) as nat,
            );
            match rest {
                Ok(offsets) => {
                    assert(visited + (seq![next_pointer] + offsets) =~= visited.push(next_pointer)
                        + offsets);
                },
                Err(_) => {},
            }
            visited = visited.push(next_pointer);
            lemma_cg_chain_length(
                data@,
                block.dg_cg_first,
                block.dg_n_record_ids,
                MAX_CHAIN as nat,
            );
            assert forall|i: int| 0 <= i < cg@.len() implies (#[trigger] cg@[i]).cn@.len()
                <= MAX_CHAIN by {
                lemma_cn_chain_length(
                    data@,
                    cg@[i].block.cg_cn_first,
                    block.dg_n_record_ids,
                    MAX_CHAIN as nat,
                );
            }
        }
        let channels = channels_in(&cg);
        proof {
            let d = dg@.len();
            assert((d + 1) * MAX_CHAIN == d * MAX_CHAIN + MAX_CHAIN && (d + 1) * (MAX_CHAIN
                * MAX_CHAIN) == d * (MAX_CHAIN * MAX_CHAIN) + MAX_CHAIN * MAX_CHAIN && d
                * MAX_CHAIN <= MAX_CHAIN * MAX_CHAIN && d * (MAX_CHAIN * MAX_CHAIN) <= MAX_CHAIN
                * (MAX_CHAIN * MAX_CHAIN) && cg@.len() * MAX_CHAIN <= MAX_CHAIN * MAX_CHAIN)
                by (nonlinear_arith)
                requires
                    d < MAX_CHAIN,
                    cg@.len() <= MAX_CHAIN,
            ;
        }
        n_cg += cg.len() as u64;
        n_cn += channels as u64;
        next_pointer = block.dg_dg_next;
        let ghost old_dg = dg@;
        dg.push(Dg3 { block, block_position: block_start, cg });
        proof {
            assert(dg@.drop_last() =~= old_dg);
        }
    }
    proof {
        assert(visited + Seq::<u32>::empty() =~= visited);
    }
    Ok((dg, n_cg, n_cn))
}

/// The index of the first data group whose block lies at `pos`.
pub open spec fn dg_index(dgs: Seq<Dg3>, pos: u32) -> Option<int>
    decreases dgs.len(),
{
    if dgs.len() == 0 {
        None
    } else {
        match dg_index(dgs.drop_last(), pos) {
            Some(i) => Some(i),
            None => if dgs.last().block_position == pos {
                Some(dgs.len() - 1)
            } else {
                None
            },
        }
    }
}

/// The index of the first channel group with the record id `rec_id`.
pub open spec fn cg_index(cgs: Seq<Cg3>, rec_id: u16) -> Option<int>
    decreases cgs.len(),
{
    if cgs.len() == 0 {
        None
    } else {
        match cg_index(cgs.drop_last(), rec_id) {
            Some(i) => Some(i),
            None => if cgs.last().block.cg_record_id == rec_id {
                Some(cgs.len() - 1)
            } else {
                None
            },
        }
    }
}

/// The index of the first channel whose block lies at `pos`.
pub open spec fn cn_index(cns: Seq<Cn3>, pos: u32) -> Option<int>
    decreases cns.len(),
{
    if cns.len() == 0 {
        None
    } else {
        match cn_index(cns.drop_last(), pos) {
            Some(i) => Some(i),
            None => if cns.last().block_position == pos {
                Some(cns.len() - 1)
            } else {
                None
            },
        }
    }
}

/// Finds the first data group whose block lies at `pos`.
pub fn find_dg(dgs: &Vec<Dg3>, pos: u32) -> (r: Option<usize>)
    ensures
        r is Some <==> dg_index(dgs@, pos) is Some,
        r is Some ==> r->0 == dg_index(dgs@, pos)->0 && r->0 < dgs@.len(),
{
    let mut i: usize = 0;
    proof {
        assert(dgs@.subrange(0, 0) =~= Seq::<Dg3>::empty());
    }
    while i < dgs.len()
        invariant
            i <= dgs.len(),
            dg_index(dgs@.subrange(0, i as int), pos) is None,
        decreases dgs.len() - i,
    {
        proof {
            assert(dgs@.subrange(0, i + 1).drop_last() =~= dgs@.subrange(0, i as int));
        }
        if dgs[i].block_position == pos {
            proof {
                lemma_dg_index_prefix(dgs@, pos, i + 1);
            }
            return Some(i);
        }
        i += 1;
    }
    proof {
        assert(dgs@.subrange(0, i as int) =~= dgs@);
    }
    None
}

/// An index that is found among the first data groups is found among all.
pub proof fn lemma_dg_index_prefix(dgs: Seq<Dg3>, pos: u32, k: int)
    requires
        0 <= k <= dgs.len(),
        dg_index(dgs.subrange(0, k), pos) is Some,
    ensures
        dg_index(dgs, pos) == dg_index(dgs.subrange(0, k), pos),
    decreases dgs.len() - k,
{
    if k < dgs.len() {
        assert(dgs.subrange(0, k + 1).drop_last() =~= dgs.subrange(0, k));
        lemma_dg_index_prefix(dgs, pos, k + 1);
    } else {
        assert(dgs.subrange(0, k) =~= dgs);
    }
}

/// Finds the first channel group with the record id `rec_id`.
pub fn find_cg(cgs: &Vec<Cg3>, rec_id: u16) -> (r: Option<usize>)
    ensures
        r is Some <==> cg_index(cgs@, rec_id) is Some,
        r is Some ==> r->0 == cg_index(cgs@, rec_id)->0 && r->0 < cgs@.len(),
{
    let mut i: usize = 0;
    proof {
        assert(cgs@.subrange(0, 0) =~= Seq::<Cg3>::empty());
    }
    while i < cgs.len()
        invariant
            i <= cgs.len(),
            cg_index(cgs@.subrange(0, i as int), rec_id) is None,
        decreases cgs.len() - i,
    {
        proof {
            assert(cgs@.subrange(0, i + 1).drop_last() =~= cgs@.subrange(0, i as int));
        }
        if cgs[i].block.cg_record_id == rec_id {
            proof {
                lemma_cg_index_prefix(cgs@, rec_id, i + 1);
            }
            return Some(i);
        }
        i += 1;
    }
    proof {
        assert(cgs@.subrange(0, i as int) =~= cgs@);
    }
    None
}

/// An index that is found among the first channel groups is found among all.
pub proof fn lemma_cg_index_prefix(cgs: Seq<Cg3>, rec_id: u16, k: int)
    requires
        0 <= k <= cgs.len(),
        cg_index(cgs.subrange(0, k), rec_id) is Some,
    ensures
        cg_index(cgs, rec_id) == cg_index(cgs.subrange(0, k), rec_id),
    decreases cgs.len() - k,
{
    if k < cgs.len() {
        assert(cgs.subrange(0, k + 1).drop_last() =~= cgs.subrange(0, k));
        lemma_cg_index_prefix(cgs, rec_id, k + 1);
    } else {
        assert(cgs.subrange(0, k) =~= cgs);
    }
}

/// Finds the first channel whose block lies at `pos`.
pub fn find_cn(cns: &Vec<Cn3>, pos: u32) -> (r: Option<usize>)
    ensures
        r is Some <==> cn_index(cns@, pos) is Some,
        r is Some ==> r->0 == cn_index(cns@, pos)->0 && r->0 < cns@.len(),
{
    let mut i: usize = 0;
    proof {
        assert(cns@.subrange(0, 0) =~= Seq::<Cn3>::empty());
    }
    while i < cns.len()
        invariant
            i <= cns.len(),
            cn_index(cns@.subrange(0, i as int), pos) is None,
        decreases cns.len() - i,
    {
        proof {
            assert(cns@.subrange(0, i + 1).drop_last() =~= cns@.subrange(0, i as int));
        }
        if cns[i].block_position == pos {
            proof {
                lemma_cn_index_prefix(cns@, pos, i + 1);
            }
            return Some(i);
        }
        i += 1;
    }
    proof {
        assert(cns@.subrange(0, i as int) =~= cns@);
    }
    None
}

/// An index that is found among the first channels is found among all.
pub proof fn lemma_cn_index_prefix(cns: Seq<Cn3>, pos: u32, k: int)
    requires
        0 <= k <= cns.len(),
        cn_index(cns.subrange(0, k), pos) is Some,
    ensures
        cn_index(cns, pos) == cn_index(cns.subrange(0, k), pos),
    decreases cns.len() - k,
{
    if k < cns.len() {
        assert(cns.subrange(0, k + 1).drop_last() =~= cns.subrange(0, k));
        lemma_cn_index_prefix(cns, pos, k + 1);
    } else {
        assert(cns.subrange(0, k) =~= cns);
    }
}

/// All that is known of a 3.x file before its records are read.
#[derive(Debug, Clone)]
pub struct MdfInfo3 {
    /// The name of the file.
    pub file_name: String,
    pub id_block: IdBlock,
    pub hd_block: Hd3,
    /// The comment of the file.
    pub hd_comment: String,
    /// The data groups with their channel groups and channels, in the order
    /// of the file.
    pub dg: Vec<Dg3>,
    /// The conversions and channel extensions.
    pub sharable: SharableBlocks3,
    /// The names of all channels.
    pub channel_names_set: ChannelNamesSet3,
}

impl MdfInfo3 {
    /// No channel name occurs twice.
    pub open spec fn wf(&self) -> bool {
        self.channel_names_set.wf()
    }

    /// The channel of the given name: the one at the place that is filed
    /// under the name. `None` where the name is not filed or nothing is at
    /// that place.
    pub open spec fn channel(&self, channel_name: Seq<char>) -> Option<Cn3> {
        let names = self.channel_names_set.map();
        if names.contains_key(channel_name) {
            let id = names[channel_name];
            match dg_index(self.dg@, id.dg_pos) {
                Some(i) => match cg_index(self.dg@[i].cg@, id.rec_id) {
                    Some(j) => match cn_index(self.dg@[i].cg@[j].cn@, id.cn_pos) {
                        Some(k) => Some(self.dg@[i].cg@[j].cn@[k]),
                        None => None,
                    },
                    None => None,
                },
                None => None,
            }
        } else {
            None
        }
    }

    /// The unit of the channel of the given name: the unit of its
    /// conversion, without its NUL padding, and empty where there is none.
    pub open spec fn unit_of(&self, channel_name: Seq<char>) -> Seq<char> {
        match self.channel(channel_name) {
            Some(cn) => if self.sharable.cc@.contains_key(cn.block1.cn_cc_conversion) {
                trim_end(
                    latin1_text(self.sharable.cc@[cn.block1.cn_cc_conversion].block.cc_unit@),
                    '\0',
                )
            } else {
                Seq::empty()
            },
            None => Seq::empty(),
        }
    }

    /// The place of the channel of the given name.
    pub fn get_channel_id(&self, channel_name: &String) -> (r: Option<&ChannelId3>)
        requires
            self.wf(),
        ensures
            r is Some <==> self.channel_names_set.map().contains_key(channel_name@),
            r is Some ==> r->0@ == self.channel_names_set.map()[channel_name@],
    {
        self.channel_names_set.get(channel_name)
    }

    /// Finds the channel of the given name.
    pub fn find_channel(&self, channel_name: &String) -> (r: Option<&Cn3>)
        requires
            self.wf(),
        ensures
            r is Some <==> self.channel(channel_name@) is Some,
            r is Some ==> *r->0 == self.channel(channel_name@)->0,
    {
        match self.get_channel_id(channel_name) {
            Some(id) => match find_dg(&self.dg, id.dg_pos) {
                Some(i) => match find_cg(&self.dg[i].cg, id.rec_id) {
                    Some(j) => match find_cn(&self.dg[i].cg[j].cn, id.cn_pos) {
                        Some(k) => Some(&self.dg[i].cg[j].cn[k]),
                        None => None,
                    },
                    None => None,
                },
                None => None,
            },
            None => None,
        }
    }

    /// The unit of the channel; empty where the channel or its conversion
    /// does not exist.
    pub fn get_channel_unit(&self, channel_name: &String) -> (r: String)
        requires
            self.wf(),
        ensures
            r@ == self.unit_of(channel_name@),
    {
        broadcast use vstd::std_specs::hash::group_hash_axioms;

        match self.find_channel(channel_name) {
            Some(cn) => match self.sharable.cc.get(&cn.block1.cn_cc_conversion) {
                Some(entry) => latin1_string(vstd::array::array_as_slice(&entry.block.cc_unit)),
                None => String::new(),
            },
            None => String::new(),
        }
    }

    /// The description of the channel; empty where the channel does not
    /// exist.
    pub fn get_channel_desc(&self, channel_name: &String) -> (r: String)
        requires
            self.wf(),
        ensures
            r@ == match self.channel(channel_name@) {
                Some(cn) => cn.description@,
                None => Seq::<char>::empty(),
            },
    {
        match self.find_channel(channel_name) {
            Some(cn) => cn.description.clone(),
            None => String::new(),
        }
    }

    /// The name of the master channel of the channel; empty where the
    /// channel does not exist.
    pub fn get_channel_master(&self, channel_name: &String) -> (r: String)
        requires
            self.wf(),
        ensures
            r@ == if self.channel_names_set.map().contains_key(channel_name@) {
                self.channel_names_set.map()[channel_name@].master
            } else {
                Seq::<char>::empty()
            },
    {
        match self.get_channel_id(channel_name) {
            Some(id) => id.master.clone(),
            None => String::new(),
        }
    }
}

/// `new` is the channel `old` without samples: its column is empty and it
/// is not valid.
pub open spec fn cleared3(old: Cn3, new: Cn3) -> bool {
    &&& new.block1 == old.block1
    &&& new.block2 == old.block2
    &&& new.block_position == old.block_position
    &&& new.unique_name == old.unique_name
    &&& new.comment == old.comment
    &&& new.description == old.description
    &&& new.pos_byte_beg == old.pos_byte_beg
    &&& new.n_bytes == old.n_bytes
    &&& new.endian == old.endian
    &&& !new.channel_data_valid
    &&& new.data.spec_len() == 0
}

/// `new` are the channels `old` with the samples of the listed ones dropped.
pub open spec fn channels_cleared3(old: Seq<Cn3>, new: Seq<Cn3>, names: Seq<String>) -> bool {
    &&& new.len() == old.len()
    &&& forall|i: int|
        0 <= i < old.len() ==> if name_listed(names, old[i].unique_name@) {
            cleared3(old[i], #[trigger] new[i])
        } else {
            new[i] == old[i]
        }
}

/// `new` are the groups `old` with the samples of the listed channels
/// dropped.
pub open spec fn groups_cleared3(old: Seq<Cg3>, new: Seq<Cg3>, names: Seq<String>) -> bool {
    &&& new.len() == old.len()
    &&& forall|g: int|
        0 <= g < old.len() ==> {
            &&& (#[trigger] new[g]).block == old[g].block
            &&& new[g].block_position == old[g].block_position
            &&& new[g].master_channel_name == old[g].master_channel_name
            &&& new[g].channel_names == old[g].channel_names
            &&& new[g].record_length == old[g].record_length
            &&& channels_cleared3(old[g].cn@, new[g].cn@, names)
        }
}

/// Drops the samples of the listed channels.
fn clear_channels3(cns: &mut Vec<Cn3>, names: &Vec<String>)
    ensures
        channels_cleared3(old(cns)@, final(cns)@, names@),
{
    let mut i: usize = 0;
    while i < cns.len()
        invariant
            i <= cns.len(),
            cns@.len() == old(cns)@.len(),
            forall|k: int| i <= k < cns@.len() ==> cns@[k] == old(cns)@[k],
            forall|k: int|
                0 <= k < i ==> if name_listed(names@, old(cns)@[k].unique_name@) {
                    cleared3(old(cns)@[k], #[trigger] cns@[k])
                } else {
                    cns@[k] == old(cns)@[k]
                },
        decreases cns.len() - i,
    {
        let cn = &mut cns[i];
        if is_listed(names, &cn.unique_name) {
            cn.data = ChannelData::default();
            cn.channel_data_valid = false;
        }
        i += 1;
    }
}

/// Drops the samples of the listed channels of the groups.
fn clear_groups3(cgs: &mut Vec<Cg3>, names: &Vec<String>)
    ensures
        groups_cleared3(old(cgs)@, final(cgs)@, names@),
{
    let mut g: usize = 0;
    while g < cgs.len()
        invariant
            g <= cgs.len(),
            cgs@.len() == old(cgs)@.len(),
            forall|k: int| g <= k < cgs@.len() ==> cgs@[k] == old(cgs)@[k],
            forall|k: int|
                0 <= k < g ==> {
                    &&& (#[trigger] cgs@[k]).block == old(cgs)@[k].block
                    &&& cgs@[k].block_position == old(cgs)@[k].block_position
                    &&& cgs@[k].master_channel_name == old(cgs)@[k].master_channel_name
                    &&& cgs@[k].channel_names == old(cgs)@[k].channel_names
                    &&& cgs@[k].record_length == old(cgs)@[k].record_length
                    &&& channels_cleared3(old(cgs)@[k].cn@, cgs@[k].cn@, names@)
                },
        decreases cgs.len() - g,
    {
        let cg = &mut cgs[g];
        clear_channels3(&mut cg.cn, names);
        g += 1;
    }
}

impl MdfInfo3 {
    /// The names of all channels.
    pub fn get_channel_names_set(&self) -> (r: Vec<String>)
        ensures
            r@.len() == self.channel_names_set.entries@.len(),
            forall|i: int|
                0 <= i < r@.len() ==> (#[trigger] r@[i])@ == self.channel_names_set.entries@[i].name@,
    {
        let mut names: Vec<String> = Vec::with_capacity(self.channel_names_set.entries.len());
        let mut i: usize = 0;
        while i < self.channel_names_set.entries.len()
            invariant
                i <= self.channel_names_set.entries.len(),
                names@.len() == i,
                forall|k: int|
                    0 <= k < i ==> (#[trigger] names@[k])@
                        == self.channel_names_set.entries@[k].name@,
            decreases self.channel_names_set.entries.len() - i,
        {
            names.push(self.channel_names_set.entries[i].name.clone());
            i += 1;
        }
        names
    }

    /// The samples of the channel of the given name; `None` where there is
    /// no such channel.
    pub fn get_channel_data(&self, channel_name: &String) -> (r: Option<&ChannelData>)
        requires
            self.wf(),
        ensures
            r is Some <==> self.channel(channel_name@) is Some,
            r is Some ==> *r->0 == self.channel(channel_name@)->0.data,
    {
        match self.find_channel(channel_name) {
            Some(cn) => Some(&cn.data),
            None => None,
        }
    }

    /// What the master of the channel of the given name measures: 1, time,
    /// where the channel is known, for a 3.x file knows no other master, and 0
    /// otherwise.
    pub fn get_channel_master_type(&self, channel_name: &String) -> (r: u8)
        requires
            self.wf(),
        ensures
            r == if self.channel_names_set.map().contains_key(channel_name@) {
                1u8
            } else {
                0u8
            },
    {
        if self.channel_names_set.contains(channel_name) {
            1
        } else {
            0
        }
    }

    /// Drops the samples of the listed channels: their columns become empty
    /// and they are no longer valid.
    pub fn clear_channel_data_from_memory(&mut self, channel_names: &Vec<String>)
        ensures
            final(self).id_block == old(self).id_block,
            final(self).hd_block == old(self).hd_block,
            final(self).sharable == old(self).sharable,
            final(self).channel_names_set == old(self).channel_names_set,
            final(self).dg@.len() == old(self).dg@.len(),
            forall|i: int|
                0 <= i < old(self).dg@.len() ==> groups_cleared3(
                    old(self).dg@[i].cg@,
                    (#[trigger] final(self).dg@[i]).cg@,
                    channel_names@,
                ) && final(self).dg@[i].block == old(self).dg@[i].block
                    && final(self).dg@[i].block_position == old(self).dg@[i].block_position,
    {
        let mut i: usize = 0;
        while i < self.dg.len()
            invariant
                i <= self.dg.len(),
                self.id_block == old(self).id_block,
                self.hd_block == old(self).hd_block,
                self.sharable == old(self).sharable,
                self.channel_names_set == old(self).channel_names_set,
                self.dg@.len() == old(self).dg@.len(),
                forall|k: int| i <= k < self.dg@.len() ==> self.dg@[k] == old(self).dg@[k],
                forall|k: int|
                    0 <= k < i ==> groups_cleared3(
                        old(self).dg@[k].cg@,
                        (#[trigger] self.dg@[k]).cg@,
                        channel_names@,
                    ) && self.dg@[k].block == old(self).dg@[k].block && self.dg@[k].block_position
                        == old(self).dg@[k].block_position,
            decreases self.dg.len() - i,
        {
            let dg = &mut self.dg[i];
            clear_groups3(&mut dg.cg, channel_names);
            i += 1;
        }
    }
}

} // verus!
