//! Metadata blocks of MDF version 4.x.
//!
//! A 4.x block starts with a four-byte identifier, four reserved bytes, its
//! length and the number of its links, each of eight bytes. All numbers are
//! read least significant byte first, and links are offsets from the start
//! of the file, 0 standing for none.

use crate::bytes::block_error;
use crate::bytes::bytes_at;
use crate::bytes::check_block;
use crate::bytes::field;
use crate::bytes::i16_at;
use crate::bytes::i16_le_at;
use crate::bytes::i64_at;
use crate::bytes::i64_le_at;
use crate::bytes::u16_at;
use crate::bytes::u16_le_at;
use crate::bytes::u64_at;
use crate::bytes::u64_le_at;
use crate::error::MdfError;
use crate::mdfinfo::channel_db4::find_channel_path;
use crate::mdfinfo::channel_db4::group_master_type;
use crate::mdfinfo::channel_db4::master_type_of;
use crate::mdfinfo::channel_db4::named_in_dgs;
use crate::mdfinfo::IdBlock;
use crate::mdfreader::data_read4::is_listed;
use crate::mdfreader::data_read4::name_listed;
use crate::mdfreader::channel_data::ChannelData;
use crate::text::trim_end;
use crate::text::utf8_string;
use crate::text::utf8_text;
use crate::text::MAX_TEXT_BYTES;
use std::collections::HashMap;
use vstd::prelude::*;
use vstd::string::StringExecFns;

verus! {

/// The data part and the links of a channel block (CN).
#[derive(Debug, Clone, Copy, PartialEq, Eq, Structural)]
pub struct Cn4Block {
    /// Link to the next channel of the group; 0 at the end.
    pub cn_cn_next: i64,
    /// Link to the composition block (CA or CN); 0 if none.
    pub cn_composition: i64,
    /// Link to the text block that holds the channel's name.
    pub cn_tx_name: i64,
    /// Link to the source information; 0 if none.
    pub cn_si_source: i64,
    /// Link to the conversion block; 0 if none.
    pub cn_cc_conversion: i64,
    /// Link to the signal data of a variable-length channel, or the size
    /// channel of a maximum-length one; 0 if none.
    pub cn_data: i64,
    /// Link to the unit text; 0 if none.
    pub cn_md_unit: i64,
    /// Link to the comment; 0 if none.
    pub cn_md_comment: i64,
    /// 0 fixed length, 1 variable length, 2 master, 3 virtual master,
    /// 4 synchronisation, 5 maximum length, 6 virtual data.
    pub cn_type: u8,
    /// 0 none, 1 time, 2 angle, 3 distance, 4 index.
    pub cn_sync_type: u8,
    /// The raw data type code.
    pub cn_data_type: u8,
    /// The first bit of the value within its first byte, 0 to 7.
    pub cn_bit_offset: u8,
    /// The first byte of the value within the record, after the record id.
    pub cn_byte_offset: u32,
    /// The number of bits of the value.
    pub cn_bit_count: u32,
    /// Flags of the channel.
    pub cn_flags: u32,
    /// The position of the channel's invalidation bit.
    pub cn_inval_bit_pos: u32,
}

/// An array block (CA): the dimensions of one sample.
#[derive(Debug, Clone)]
pub struct Ca4Block {
    /// The size of each dimension.
    pub shape: Vec<usize>,
    /// The product of the sizes: the number of values in one sample.
    pub pnd: usize,
}

/// What a channel is composed of.
#[derive(Debug, Clone)]
pub enum Compo {
    /// An array of values.
    CA(Ca4Block),
    /// A structure; the offset of its first member channel.
    CN(i64),
}

/// The composition of a channel.
#[derive(Debug, Clone)]
pub struct Composition {
    pub block: Compo,
}

/// The invalidation bits of a channel's samples.
#[derive(Debug, Clone)]
pub struct InvalidMask {
    /// One entry per sample: true where the sample is valid.
    pub mask: Vec<bool>,
    /// The byte of the record that holds the channel's invalidation bit.
    pub byte_position: usize,
    /// The bit within that byte.
    pub byte_mask: u8,
}

/// A channel: its block, what was derived from it, and its samples.
#[derive(Debug, Clone)]
pub struct Cn4 {
    pub block: Cn4Block,
    /// The offset of the block in the file.
    pub block_position: i64,
    /// The position of the channel in its record, in bits: its key in the group.
    pub rec_pos: i32,
    /// The name under which the channel is known in the whole file.
    pub unique_name: String,
    /// The first byte of the channel in the record, the record id included.
    pub pos_byte_beg: u32,
    /// The number of bytes that one value takes in the record.
    pub n_bytes: u32,
    pub composition: Option<Composition>,
    /// The samples.
    pub data: ChannelData,
    /// False for little endian, true for big endian.
    pub endian: bool,
    pub invalid_mask: Option<InvalidMask>,
    /// True once all samples are decoded.
    pub channel_data_valid: bool,
}

impl Cn4 {
    /// The number of values in one sample: the product of the dimensions of
    /// an array channel, and 1 for the others.
    pub open spec fn pnd(&self) -> nat {
        match self.composition {
            Some(Composition { block: Compo::CA(ca) }) => ca.pnd as nat,
            _ => 1,
        }
    }
}

/// The data part of a channel group block (CG).
#[derive(Debug, Clone, Copy, PartialEq, Eq, Structural)]
pub struct Cg4Block {
    /// Link to the next group of the data group; 0 at the end.
    pub cg_cg_next: i64,
    /// Link to the first channel; 0 if none.
    pub cg_cn_first: i64,
    /// The identifier that precedes each record of the group in unsorted data.
    pub cg_record_id: u64,
    /// The number of records of the group.
    pub cg_cycle_count: u64,
    /// Bit 0: the group holds the variable-length data of a channel.
    pub cg_flags: u16,
    /// The length of the data part of a record.
    pub cg_data_bytes: u32,
    /// The length of the invalidation part of a record.
    pub cg_inval_bytes: u32,
}

/// A channel group with its channels in the order of the file.
#[derive(Debug, Clone)]
pub struct Cg4 {
    pub block: Cg4Block,
    /// The offset of the block in the file.
    pub block_position: i64,
    pub cn: Vec<Cn4>,
    /// The name of the group's master channel.
    pub master_channel_name: String,
    /// The length of a record: record id, data and invalidation bytes.
    pub record_length: u32,
    /// For a group of variable-length data: the record id of the group and
    /// the position of the channel that the data belongs to.
    pub vlsd: Option<(u64, i32)>,
}

/// The data part of a data group block (DG).
#[derive(Debug, Clone, Copy, PartialEq, Eq, Structural)]
pub struct Dg4Block {
    /// Link to the next data group; 0 at the end.
    pub dg_dg_next: i64,
    /// Link to the first channel group.
    pub dg_cg_first: i64,
    /// Link to the data: a DT, DV, DZ, DL or HL block; 0 if none.
    pub dg_data: i64,
    /// The number of bytes of the record id: 0, 1, 2, 4 or 8.
    pub dg_rec_id_size: u8,
}

/// A data group with its channel groups in the order of the file.
#[derive(Debug, Clone)]
pub struct Dg4 {
    pub block: Dg4Block,
    /// The offset of the block in the file.
    pub block_position: i64,
    pub cg: Vec<Cg4>,
}

/// The identifier of a header block.
pub open spec fn id_hd4() -> Seq<u8> {
    seq![0x23u8, 0x23u8, 0x48u8, 0x44u8]
}

/// The identifier of a file history block.
pub open spec fn id_fh4() -> Seq<u8> {
    seq![0x23u8, 0x23u8, 0x46u8, 0x48u8]
}

/// The identifier of a text block.
pub open spec fn id_tx4() -> Seq<u8> {
    seq![0x23u8, 0x23u8, 0x54u8, 0x58u8]
}

/// The identifier of a block of XML text.
pub open spec fn id_md4() -> Seq<u8> {
    seq![0x23u8, 0x23u8, 0x4du8, 0x44u8]
}

/// The two number signs with which every 4.x identifier starts.
pub open spec fn id_prefix4() -> Seq<u8> {
    seq![0x23u8, 0x23u8]
}

/// Makes the four-byte identifier `##XY` of a block.
pub fn block_id4(x: u8, y: u8) -> (r: [u8; 4])
    ensures
        r@ == seq![0x23u8, 0x23u8, x, y],
{
    let r = [0x23u8, 0x23u8, x, y];
    proof {
        assert(r@ =~= seq![0x23u8, 0x23u8, x, y]);
    }
    r
}

/// The start of every 4.x block.
#[derive(Debug, Clone, Copy, PartialEq, Eq)]
pub struct Blockheader4 {
    /// The identifier of the block's type: `##` and two letters.
    pub hdr_id: [u8; 4],
    /// Reserved.
    pub hdr_gap: [u8; 4],
    /// The length of the block in bytes, this header included.
    pub hdr_len: u64,
    /// The number of links that follow the header.
    pub hdr_links: u64,
}

/// The size of a block header.
pub const HEADER4_SIZE: usize = 24;

/// `h` is the block header that the bytes at `pos` hold.
pub open spec fn is_block_header4(h: Blockheader4, data: Seq<u8>, pos: int) -> bool {
    &&& h.hdr_id@ == field(data, pos, 4)
    &&& h.hdr_gap@ == field(data, pos + 4, 4)
    &&& h.hdr_len == u64_at(data, pos + 8)
    &&& h.hdr_links == u64_at(data, pos + 16)
}

/// Reads the header of the block at `pos`.
pub fn parse_block_header(data: &[u8], pos: usize) -> (h: Blockheader4)
    requires
        pos + HEADER4_SIZE <= data.len(),
    ensures
        is_block_header4(h, data@, pos as int),
{
    Blockheader4 {
        hdr_id: bytes_at::<4>(data, pos),
        hdr_gap: bytes_at::<4>(data, pos + 4),
        hdr_len: u64_le_at(data, pos + 8),
        hdr_links: u64_le_at(data, pos + 16),
    }
}

/// The identification block of a 4.x file.
#[derive(Debug, PartialEq, Eq, Default, Clone, Copy)]
pub struct Id4 {
    /// The text `MDF` and five spaces.
    pub id_file_id: [u8; 8],
    /// The version as text.
    pub id_vers: [u8; 4],
    /// The program that wrote the file.
    pub id_prog: [u8; 8],
    /// The version number: 400 for 4.00.
    pub id_ver: u16,
    /// Flags of a file that was not finalised.
    pub id_unfin_flags: u16,
    /// Custom flags of a file that was not finalised.
    pub id_custom_unfin_flags: u16,
}

/// `id` is what the identification block of `data` holds from byte 24 on,
/// after the three texts given.
pub open spec fn is_id4(
    id: Id4,
    data: Seq<u8>,
    id_file_id: [u8; 8],
    id_vers: [u8; 4],
    id_prog: [u8; 8],
) -> bool {
    &&& id.id_file_id == id_file_id
    &&& id.id_vers == id_vers
    &&& id.id_prog == id_prog
    &&& id.id_ver == u16_at(data, 28)
    &&& id.id_unfin_flags == u16_at(data, 60)
    &&& id.id_custom_unfin_flags == u16_at(data, 62)
}

/// Reads the rest of the identification block, whose three texts were read
/// already: the version number and the flags of an unfinished file.
pub fn parse_id4(data: &[u8], id_file_id: [u8; 8], id_vers: [u8; 4], id_prog: [u8; 8]) -> (r:
    Result<Id4, MdfError>)
    ensures
        data.len() < 64 ==> r == Err::<Id4, MdfError>(
            MdfError::CorruptBlock { offset: 0, expected: 64, actual: data.len() as u64 },
        ),
        data.len() >= 64 ==> r is Ok && is_id4(r->Ok_0, data@, id_file_id, id_vers, id_prog),
{
    if data.len() < 64 {
        return Err(MdfError::CorruptBlock { offset: 0, expected: 64, actual: data.len() as u64 });
    }
    let id_ver = u16_le_at(data, 28);
    let id_unfin_flags = u16_le_at(data, 60);
    let id_custom_unfin_flags = u16_le_at(data, 62);
    Ok(Id4 { id_file_id, id_vers, id_prog, id_ver, id_unfin_flags, id_custom_unfin_flags })
}

/// The header block (HD) of a 4.x file. Floats are held as the bits of their
/// encoding.
#[derive(Debug, Clone, Copy, PartialEq, Eq)]
pub struct Hd4 {
    pub hd_id: [u8; 4],
    pub hd_reserved: [u8; 4],
    /// The length of the block in bytes.
    pub hd_len: u64,
    /// The number of links.
    pub hd_link_counts: u64,
    /// Link to the first data group block; 0 if none.
    pub hd_dg_first: i64,
    /// Link to the first file history block.
    pub hd_fh_first: i64,
    /// Link to the first channel hierarchy block; 0 if none.
    pub hd_ch_first: i64,
    /// Link to the first attachment block; 0 if none.
    pub hd_at_first: i64,
    /// Link to the first event block; 0 if none.
    pub hd_ev_first: i64,
    /// Link to the file's comment; 0 if none.
    pub hd_md_comment: i64,
    /// The time at which the recording started, in nanoseconds since 1970.
    pub hd_start_time_ns: u64,
    /// The offset of the time zone in minutes.
    pub hd_tz_offset_min: i16,
    /// The offset of daylight saving time in minutes.
    pub hd_dst_offset_min: i16,
    /// Flags of the time.
    pub hd_time_flags: u8,
    /// The quality class of the time.
    pub hd_time_class: u8,
    /// Flags of the header.
    pub hd_flags: u8,
    pub hd_reserved2: u8,
    /// The angle at the start of the measurement in radians, as bits.
    pub hd_start_angle_rad: u64,
    /// The distance at the start of the measurement in metres, as bits.
    pub hd_start_distance_m: u64,
}

/// The offset of the header block: it follows the identification block.
pub const HD4_POSITION: usize = 64;

/// The size of the header block.
pub const HD4_SIZE: usize = 104;

/// `hd` is the header block that `data` holds.
pub open spec fn is_hd4(hd: Hd4, data: Seq<u8>) -> bool {
    let pos = HD4_POSITION as int;
    &&& hd.hd_id@ == field(data, pos, 4)
    &&& hd.hd_reserved@ == field(data, pos + 4, 4)
    &&& hd.hd_len == u64_at(data, pos + 8)
    &&& hd.hd_link_counts == u64_at(data, pos + 16)
    &&& hd.hd_dg_first == i64_at(data, pos + 24)
    &&& hd.hd_fh_first == i64_at(data, pos + 32)
    &&& hd.hd_ch_first == i64_at(data, pos + 40)
    &&& hd.hd_at_first == i64_at(data, pos + 48)
    &&& hd.hd_ev_first == i64_at(data, pos + 56)
    &&& hd.hd_md_comment == i64_at(data, pos + 64)
    &&& hd.hd_start_time_ns == u64_at(data, pos + 72)
    &&& hd.hd_tz_offset_min == i16_at(data, pos + 80)
    &&& hd.hd_dst_offset_min == i16_at(data, pos + 82)
    &&& hd.hd_time_flags == data[pos + 84]
    &&& hd.hd_time_class == data[pos + 85]
    &&& hd.hd_flags == data[pos + 86]
    &&& hd.hd_reserved2 == data[pos + 87]
    &&& hd.hd_start_angle_rad == u64_at(data, pos + 88)
    &&& hd.hd_start_distance_m == u64_at(data, pos + 96)
}

/// Reads the header block, which follows the identification block.
pub fn hd4_parser(data: &[u8]) -> (r: Result<Hd4, MdfError>)
    ensures
        match block_error(data@, HD4_POSITION as u64, HD4_SIZE as nat, id_hd4()) {
            Some(e) => r == Err::<Hd4, MdfError>(e),
            None => r is Ok && is_hd4(r->Ok_0, data@),
        },
{
    let id = block_id4(0x48, 0x44);
    match check_block(data, HD4_POSITION as u64, HD4_SIZE, vstd::array::array_as_slice(&id)) {
        Err(e) => {
            return Err(e);
        },
        Ok(()) => {},
    }
    assert(block_error(data@, HD4_POSITION as u64, HD4_SIZE as nat, id_hd4()) is None);
    let pos = HD4_POSITION;
    Ok(
        Hd4 {
            hd_id: bytes_at::<4>(data, pos),
            hd_reserved: bytes_at::<4>(data, pos + 4),
            hd_len: u64_le_at(data, pos + 8),
            hd_link_counts: u64_le_at(data, pos + 16),
            hd_dg_first: i64_le_at(data, pos + 24),
            hd_fh_first: i64_le_at(data, pos + 32),
            hd_ch_first: i64_le_at(data, pos + 40),
            hd_at_first: i64_le_at(data, pos + 48),
            hd_ev_first: i64_le_at(data, pos + 56),
            hd_md_comment: i64_le_at(data, pos + 64),
            hd_start_time_ns: u64_le_at(data, pos + 72),
            hd_tz_offset_min: i16_le_at(data, pos + 80),
            hd_dst_offset_min: i16_le_at(data, pos + 82),
            hd_time_flags: data[pos + 84],
            hd_time_class: data[pos + 85],
            hd_flags: data[pos + 86],
            hd_reserved2: data[pos + 87],
            hd_start_angle_rad: u64_le_at(data, pos + 88),
            hd_start_distance_m: u64_le_at(data, pos + 96),
        },
    )
}

/// A file history block (FH): one entry in the log of changes to the file.
#[derive(Debug, Clone, Copy, PartialEq, Eq)]
pub struct FhBlock {
    pub fh_id: [u8; 4],
    pub fh_gap: [u8; 4],
    /// The length of the block in bytes.
    pub fh_len: u64,
    /// The number of links.
    pub fh_links: u64,
    /// Link to the next file history block; 0 at the end.
    pub fh_fh_next: i64,
    /// Link to the comment on the change.
    pub fh_md_comment: i64,
    /// The time of the change in nanoseconds since 1970.
    pub fh_time_ns: u64,
    /// The offset of the time zone in minutes.
    pub fh_tz_offset_min: i16,
    /// The offset of daylight saving time in minutes.
    pub fh_dst_offset_min: i16,
    /// Flags of the time.
    pub fh_time_flags: u8,
    pub fh_reserved: [u8; 3],
}

/// The size of a file history block.
pub const FH_SIZE: usize = 56;

/// `fh` is the file history block that the bytes at `pos` hold.
pub open spec fn is_fh_block(fh: FhBlock, data: Seq<u8>, pos: int) -> bool {
    &&& fh.fh_id@ == field(data, pos, 4)
    &&& fh.fh_gap@ == field(data, pos + 4, 4)
    &&& fh.fh_len == u64_at(data, pos + 8)
    &&& fh.fh_links == u64_at(data, pos + 16)
    &&& fh.fh_fh_next == i64_at(data, pos + 24)
    &&& fh.fh_md_comment == i64_at(data, pos + 32)
    &&& fh.fh_time_ns == u64_at(data, pos + 40)
    &&& fh.fh_tz_offset_min == i16_at(data, pos + 48)
    &&& fh.fh_dst_offset_min == i16_at(data, pos + 50)
    &&& fh.fh_time_flags == data[pos + 52]
    &&& fh.fh_reserved@ == field(data, pos + 53, 3)
}

/// What is wrong with a link to a block of `size` bytes with the identifier
/// `id`: it is negative, the file is too large for links to address it, or
/// the block is not there.
pub open spec fn link_error(data: Seq<u8>, link: i64, size: nat, id: Seq<u8>) -> Option<MdfError> {
    if link < 0 || data.len() > i64::MAX {
        Some(MdfError::CorruptBlock { offset: 0, expected: size as u64, actual: 0 })
    } else {
        block_error(data, link as u64, size, id)
    }
}

/// Checks that `link` leads to a block of `size` bytes with the identifier
/// `id`.
pub fn check_link(data: &[u8], link: i64, size: usize, id: &[u8]) -> (r: Result<usize, MdfError>)
    requires
        id.len() <= size,
        size <= u32::MAX,
    ensures
        match link_error(data@, link, size as nat, id@) {
            Some(e) => r == Err::<usize, MdfError>(e),
            None => r is Ok,
        },
        r is Ok ==> r->Ok_0 == link && link >= 0 && link + size <= data@.len() <= i64::MAX
            && data@.len() <= usize::MAX,
{
    if link < 0 || data.len() as u64 > i64::MAX as u64 {
        return Err(MdfError::CorruptBlock { offset: 0, expected: size as u64, actual: 0 });
    }
    match check_block(data, link as u64, size, id) {
        Ok(()) => Ok(link as usize),
        Err(e) => Err(e),
    }
}

/// Reads the file history block at `target`. Returns the block and the offset
/// of the byte after it.
pub fn parse_fh(data: &[u8], target: i64) -> (r: Result<(FhBlock, i64), MdfError>)
    ensures
        match link_error(data@, target, FH_SIZE as nat, id_fh4()) {
            Some(e) => r == Err::<(FhBlock, i64), MdfError>(e),
            None => r is Ok && is_fh_block(r->Ok_0.0, data@, target as int) && r->Ok_0.1 == target
                + FH_SIZE,
        },
{
    let id = block_id4(0x46, 0x48);
    let pos = match check_link(data, target, FH_SIZE, vstd::array::array_as_slice(&id)) {
        Ok(p) => p,
        Err(e) => {
            return Err(e);
        },
    };
    assert(link_error(data@, target, FH_SIZE as nat, id_fh4()) is None);
    let fh = FhBlock {
        fh_id: bytes_at::<4>(data, pos),
        fh_gap: bytes_at::<4>(data, pos + 4),
        fh_len: u64_le_at(data, pos + 8),
        fh_links: u64_le_at(data, pos + 16),
        fh_fh_next: i64_le_at(data, pos + 24),
        fh_md_comment: i64_le_at(data, pos + 32),
        fh_time_ns: u64_le_at(data, pos + 40),
        fh_tz_offset_min: i16_le_at(data, pos + 48),
        fh_dst_offset_min: i16_le_at(data, pos + 50),
        fh_time_flags: data[pos + 52],
        fh_reserved: bytes_at::<3>(data, pos + 53),
    };
    Ok((fh, target + FH_SIZE as i64))
}

/// What is wrong with the text block (TX) or block of XML text (MD) at
/// `target`; `None` where its text can be read.
pub open spec fn md_error(data: Seq<u8>, target: i64) -> Option<MdfError> {
    match link_error(data, target, HEADER4_SIZE as nat, id_prefix4()) {
        Some(e) => Some(e),
        None => {
            let id = field(data, target as int, 4);
            let len = u64_at(data, target + 8);
            if id != id_tx4() && id != id_md4() {
                Some(MdfError::UnexpectedBlockType { offset: target as u64 })
            } else if len < HEADER4_SIZE {
                Some(
                    MdfError::CorruptBlock {
                        offset: target as u64,
                        expected: HEADER4_SIZE as u64,
                        actual: len,
                    },
                )
            } else if target + len > data.len() || len - HEADER4_SIZE > MAX_TEXT_BYTES {
                Some(
                    MdfError::CorruptBlock {
                        offset: target as u64,
                        expected: len,
                        actual: (data.len() - target) as u64,
                    },
                )
            } else {
                None
            }
        },
    }
}

/// The text of the block at `target`: what follows the block's header, read
/// as UTF-8, without the NUL padding at its end.
pub open spec fn md_text(data: Seq<u8>, target: i64) -> Seq<char> {
    trim_end(
        utf8_text(field(data, target + HEADER4_SIZE, u64_at(data, target + 8) - HEADER4_SIZE)),
        '\0',
    )
}

/// Reads the text block or block of XML text at `target`. Returns the
/// block's header, its text and the offset of the byte after the block.
pub fn parse_md(data: &[u8], target: i64) -> (r: Result<(Blockheader4, String, i64), MdfError>)
    ensures
        match md_error(data@, target) {
            Some(e) => r == Err::<(Blockheader4, String, i64), MdfError>(e),
            None => {
                &&& r is Ok
                &&& is_block_header4(r->Ok_0.0, data@, target as int)
                &&& r->Ok_0.1@ == md_text(data@, target)
                &&& r->Ok_0.2 == target + u64_at(data@, target + 8)
            },
        },
{
    let prefix = [0x23u8, 0x23u8];
    proof {
        assert(prefix@ =~= id_prefix4());
    }
    let pos = match check_link(data, target, HEADER4_SIZE, vstd::array::array_as_slice(&prefix)) {
        Ok(p) => p,
        Err(e) => {
            return Err(e);
        },
    };
    assert(link_error(data@, target, HEADER4_SIZE as nat, id_prefix4()) is None);
    let block_header = parse_block_header(data, pos);
    let is_tx = block_header.hdr_id[2] == 0x54 && block_header.hdr_id[3] == 0x58;
    let is_md = block_header.hdr_id[2] == 0x4d && block_header.hdr_id[3] == 0x44;
    proof {
        let id = field(data@, target as int, 4);
        assert(field(data@, target as int, 2) =~= id.subrange(0, 2));
        assert(id[0] == 0x23 && id[1] == 0x23) by {
            assert(id.subrange(0, 2)[0] == id_prefix4()[0]);
            assert(id.subrange(0, 2)[1] == id_prefix4()[1]);
        }
        assert(is_tx == (id == id_tx4())) by {
            if is_tx {
                assert(id =~= id_tx4());
            }
        }
        assert(is_md == (id == id_md4())) by {
            if is_md {
                assert(id =~= id_md4());
            }
        }
    }
    if !is_tx && !is_md {
        return Err(MdfError::UnexpectedBlockType { offset: target as u64 });
    }
    let len = block_header.hdr_len;
    if len < HEADER4_SIZE as u64 {
        return Err(
            MdfError::CorruptBlock {
                offset: target as u64,
                expected: HEADER4_SIZE as u64,
                actual: len,
            },
        );
    }
    let available = data.len() - pos;
    if len > available as u64 || len - HEADER4_SIZE as u64 > MAX_TEXT_BYTES as u64 {
        return Err(
            MdfError::CorruptBlock { offset: target as u64, expected: len, actual: available as u64 },
        );
    }
    let raw = vstd::slice::slice_subrange(data, pos + HEADER4_SIZE, pos + len as usize);
    proof {
        assert(raw@ =~= field(data@, target + HEADER4_SIZE, len - HEADER4_SIZE));
    }
    let comment = utf8_string(raw);
    Ok((block_header, comment, target + len as i64))
}

/// A node of an XML document: the local name of its tag (empty for a node
/// that is no element), its attribute `name`, and its text.
#[derive(Debug, Clone)]
pub struct XmlNode {
    pub tag: String,
    pub name: Option<String>,
    pub text: Option<String>,
}

/// The text of an optional string.
pub open spec fn text_of(s: Option<String>) -> Option<Seq<char>> {
    match s {
        Some(t) => Some(t@),
        None => None,
    }
}

/// The nodes as plain values: tag, attribute `name` and text of each.
pub open spec fn nodes_view(nodes: Seq<XmlNode>) -> Seq<
    (Seq<char>, Option<Seq<char>>, Option<Seq<char>>),
> {
    Seq::new(nodes.len(), |i: int| (nodes[i].tag@, text_of(nodes[i].name), text_of(nodes[i].text)))
}

/// The nodes of the XML document `text` in document order, the root node
/// first, as `roxmltree` finds them: of each its tag's local name, its
/// attribute `name` and its text. `None` where `text` is no XML document.
pub uninterp spec fn xml_nodes(text: Seq<char>) -> Option<
    Seq<(Seq<char>, Option<Seq<char>>, Option<Seq<char>>)>,
>;

/// `roxmltree::Document::parse`, and of every node that
/// `Document::descendants` hands out `Node::tag_name` (its `name`),
/// `Node::attribute` for `name`, and `Node::text`. Parsing fails with an
/// error, which becomes `None`; it does not panic. The result is named, not
/// described.
#[verifier::external_body]
fn parse_xml(text: &str) -> (r: Option<Vec<XmlNode>>)
    ensures
        r is Some <==> xml_nodes(text@) is Some,
        r is Some ==> nodes_view(r->0@) == xml_nodes(text@)->0,
{
    match roxmltree::Document::parse(text) {
        Ok(doc) => Some(
            doc.descendants().map(
                |n|
                    XmlNode {
                        tag: n.tag_name().name().to_string(),
                        name: n.attribute("name").map(|s| s.to_string()),
                        text: n.text().map(|s| s.to_string()),
                    },
            ).collect(),
        ),
        Err(_) => None,
    }
}

/// A named entry of a comment.
#[derive(Debug, Clone)]
pub struct Comment {
    pub name: String,
    pub text: String,
}

/// The names and texts of a list of comments.
pub open spec fn comments_view(comments: Seq<Comment>) -> Seq<(Seq<char>, Seq<char>)> {
    Seq::new(comments.len(), |i: int| (comments[i].name@, comments[i].text@))
}

/// The tag of the elements that hold the entries of a comment.
pub open spec fn entry_tag() -> Seq<char> {
    seq!['e']
}

/// The name under which the text of a plain text block is filed.
pub open spec fn plain_name() -> Seq<char> {
    seq!['c', 'o', 'm', 'm', 'e', 'n', 't']
}

/// The entries of a comment among the nodes of its XML document: of every
/// element `e` with an attribute `name` and a text, that name and that text,
/// in document order.
pub open spec fn entries_of(nodes: Seq<(Seq<char>, Option<Seq<char>>, Option<Seq<char>>)>) -> Seq<
    (Seq<char>, Seq<char>),
>
    decreases nodes.len(),
{
    if nodes.len() == 0 {
        Seq::empty()
    } else {
        let rest = entries_of(nodes.drop_last());
        let n = nodes.last();
        if n.0 == entry_tag() && n.1 is Some && n.2 is Some {
            rest.push((n.1->0, n.2->0))
        } else {
            rest
        }
    }
}

/// Picks the entries of a comment out of the nodes of its XML document.
pub fn comments_from_nodes(nodes: &Vec<XmlNode>) -> (r: Vec<Comment>)
    ensures
        comments_view(r@) == entries_of(nodes_view(nodes@)),
{
    let tag = String::from_str("e");
    proof {
        reveal_strlit("e");
        assert(tag@ =~= entry_tag());
    }
    let mut out: Vec<Comment> = Vec::new();
    let mut i: usize = 0;
    proof {
        assert(nodes_view(nodes@).subrange(0, 0) =~= Seq::empty());
        assert(comments_view(out@) =~= Seq::empty());
    }
    while i < nodes.len()
        invariant
            i <= nodes.len(),
            tag@ == entry_tag(),
            comments_view(out@) == entries_of(nodes_view(nodes@).subrange(0, i as int)),
        decreases nodes.len() - i,
    {
        let node = &nodes[i];
        proof {
            assert(nodes_view(nodes@).subrange(0, i + 1).drop_last() =~= nodes_view(
                nodes@,
            ).subrange(0, i as int));
        }
        if node.tag == tag {
            match (&node.name, &node.text) {
                (Some(name), Some(text)) => {
                    let ghost before = out@;
                    out.push(Comment { name: name.clone(), text: text.clone() });
                    proof {
                        assert(comments_view(out@) =~= comments_view(before).push(
                            (name@, text@),
                        ));
                    }
                },
                _ => {},
            }
        }
        i += 1;
    }
    proof {
        assert(nodes_view(nodes@).subrange(0, i as int) =~= nodes_view(nodes@));
    }
    out
}

/// The entries of the comment in the text block or block of XML text at
/// `target`: the text of a plain text block under the name `comment`, and the
/// entries of an XML document. XML that cannot be parsed gives no entries.
pub open spec fn md_entries(data: Seq<u8>, target: i64) -> Seq<(Seq<char>, Seq<char>)> {
    if field(data, target as int, 4) == id_tx4() {
        seq![(plain_name(), md_text(data, target))]
    } else {
        match xml_nodes(md_text(data, target)) {
            Some(nodes) => entries_of(nodes),
            None => Seq::empty(),
        }
    }
}

/// Reads the comment to which `link` leads. A link of 0 gives no entries
/// and the position unchanged; else the position is the offset of the byte
/// after the block.
pub fn read_comment(data: &[u8], link: i64, position: i64) -> (r: Result<
    (Vec<Comment>, i64),
    MdfError,
>)
    ensures
        link == 0 ==> r is Ok && comments_view(r->Ok_0.0@) == Seq::<
            (Seq<char>, Seq<char>),
        >::empty() && r->Ok_0.1 == position,
        link != 0 ==> match md_error(data@, link) {
            Some(e) => r == Err::<(Vec<Comment>, i64), MdfError>(e),
            None => {
                &&& r is Ok
                &&& comments_view(r->Ok_0.0@) == md_entries(data@, link)
                &&& r->Ok_0.1 == link + u64_at(data@, link + 8)
            },
        },
{
    if link == 0 {
        let none: Vec<Comment> = Vec::new();
        proof {
            assert(comments_view(none@) =~= Seq::empty());
        }
        return Ok((none, position));
    }
    let (block_header, comment, after) = match parse_md(data, link) {
        Ok(parsed) => parsed,
        Err(e) => {
            return Err(e);
        },
    };
    let is_tx = block_header.hdr_id[2] == 0x54 && block_header.hdr_id[3] == 0x58;
    proof {
        let id = field(data@, link as int, 4);
        assert(id == id_tx4() || id == id_md4());
        assert(is_tx == (id == id_tx4())) by {
            if is_tx {
                assert(id =~= id_tx4());
            }
        }
    }
    if is_tx {
        let name = String::from_str("comment");
        proof {
            reveal_strlit("comment");
            assert(name@ =~= plain_name());
        }
        let mut comments: Vec<Comment> = Vec::new();
        comments.push(Comment { name, text: comment });
        proof {
            assert(comments_view(comments@) =~= seq![(plain_name(), md_text(data@, link))]);
        }
        Ok((comments, after))
    } else {
        match parse_xml(comment.as_str()) {
            Some(nodes) => Ok((comments_from_nodes(&nodes), after)),
            None => {
                let none: Vec<Comment> = Vec::new();
                proof {
                    assert(comments_view(none@) =~= Seq::empty());
                }
                Ok((none, after))
            },
        }
    }
}

/// Tells whether the comment to which `link` leads can be taken apart: a
/// block of XML text whose XML cannot be parsed is malformed. Such a comment
/// has no entries, and the rest of the file is read all the same.
pub fn comment_status(data: &[u8], link: i64) -> (r: Result<(), MdfError>)
    requires
        link != 0,
    ensures
        match md_error(data@, link) {
            Some(e) => r == Err::<(), MdfError>(e),
            None => if field(data@, link as int, 4) == id_md4() && xml_nodes(md_text(data@, link))
                is None {
                r == Err::<(), MdfError>(MdfError::MalformedComment)
            } else {
                r is Ok
            },
        },
{
    let (block_header, comment, _) = match parse_md(data, link) {
        Ok(parsed) => parsed,
        Err(e) => {
            return Err(e);
        },
    };
    let is_md = block_header.hdr_id[2] == 0x4d && block_header.hdr_id[3] == 0x44;
    proof {
        let id = field(data@, link as int, 4);
        assert(id == id_tx4() || id == id_md4());
        assert(id_tx4()[2] == 0x54 && id_md4()[2] == 0x4d);
        assert(is_md == (id == id_md4()));
    }
    if !is_md {
        return Ok(());
    }
    match parse_xml(comment.as_str()) {
        Some(_) => Ok(()),
        None => Err(MdfError::MalformedComment),
    }
}

/// Reads the comment of the file, to which the header links.
pub fn hd4_comment_parser(data: &[u8], hd4_block: &Hd4) -> (r: Result<
    (Vec<Comment>, i64),
    MdfError,
>)
    ensures
        hd4_block.hd_md_comment == 0 ==> r is Ok && comments_view(r->Ok_0.0@) == Seq::<
            (Seq<char>, Seq<char>),
        >::empty() && r->Ok_0.1 == 168,
        hd4_block.hd_md_comment != 0 ==> match md_error(data@, hd4_block.hd_md_comment) {
            Some(e) => r == Err::<(Vec<Comment>, i64), MdfError>(e),
            None => {
                &&& r is Ok
                &&& comments_view(r->Ok_0.0@) == md_entries(data@, hd4_block.hd_md_comment)
                &&& r->Ok_0.1 == hd4_block.hd_md_comment + u64_at(
                    data@,
                    hd4_block.hd_md_comment + 8,
                )
            },
        },
{
    read_comment(data, hd4_block.hd_md_comment, 168)
}

/// Reads the comment on a change of the file, to which a file history block
/// links.
pub fn parse_fh_comment(data: &[u8], fh_block: &FhBlock, offset: i64) -> (r: Result<
    (Vec<Comment>, i64),
    MdfError,
>)
    ensures
        fh_block.fh_md_comment == 0 ==> r is Ok && comments_view(r->Ok_0.0@) == Seq::<
            (Seq<char>, Seq<char>),
        >::empty() && r->Ok_0.1 == offset,
        fh_block.fh_md_comment != 0 ==> match md_error(data@, fh_block.fh_md_comment) {
            Some(e) => r == Err::<(Vec<Comment>, i64), MdfError>(e),
            None => {
                &&& r is Ok
                &&& comments_view(r->Ok_0.0@) == md_entries(data@, fh_block.fh_md_comment)
                &&& r->Ok_0.1 == fh_block.fh_md_comment + u64_at(
                    data@,
                    fh_block.fh_md_comment + 8,
                )
            },
        },
{
    read_comment(data, fh_block.fh_md_comment, offset)
}

/// A conversion block (CC): its type and its parameters, held as the bits
/// of doubles.
#[derive(Debug, Clone)]
pub struct Cc4Block {
    /// 0 none, 1 linear, 2 rational, and further types.
    pub cc_type: u8,
    /// The parameters of the conversion.
    pub cc_val: Vec<u64>,
}

/// The blocks to which several channels may link, each stored once under
/// its offset in the file.
#[derive(Debug, Clone)]
pub struct SharableBlocks {
    /// The conversions.
    pub cc: HashMap<i64, Cc4Block>,
}

/// A file history block with its comment.
#[derive(Debug, Clone)]
pub struct FhEntry {
    pub block: FhBlock,
    pub comments: Vec<Comment>,
}

/// The longest chain of file history blocks that is followed.
pub const MAX_HISTORY: usize = 65535;

/// What is wrong with the file history block at `link` or with its comment;
/// `None` where both can be read.
pub open spec fn fh_error(data: Seq<u8>, link: i64) -> Option<MdfError> {
    match link_error(data, link, FH_SIZE as nat, id_fh4()) {
        Some(e) => Some(e),
        None => {
            let comment = i64_at(data, link + 32);
            if comment == 0 {
                None
            } else {
                md_error(data, comment)
            }
        },
    }
}

/// `prefix` put before the offsets of `rest`, where `rest` holds offsets.
pub open spec fn links_after(prefix: Seq<i64>, rest: Result<Seq<i64>, MdfError>) -> Result<
    Seq<i64>,
    MdfError,
> {
    match rest {
        Ok(offsets) => Ok(prefix + offsets),
        Err(e) => Err(e),
    }
}

/// The offsets of the file history blocks of the chain that starts at
/// `link`, of which at most `fuel` are followed, or the error of the first
/// that cannot be read.
pub open spec fn fh_chain(data: Seq<u8>, link: i64, fuel: nat) -> Result<Seq<i64>, MdfError>
    decreases fuel,
{
    if link == 0 {
        Ok(Seq::empty())
    } else if fuel == 0 {
        Err(MdfError::UnexpectedBlockType { offset: link as u64 })
    } else {
        match fh_error(data, link) {
            Some(e) => Err(e),
            None => links_after(
                seq![link],
                fh_chain(data, i64_at(data, link + 24), (fuel - 1) as nat),
            ),
        }
    }
}

/// `entry` is the file history block at `link` with its comment.
pub open spec fn is_fh_entry(entry: FhEntry, data: Seq<u8>, link: i64) -> bool {
    &&& is_fh_block(entry.block, data, link as int)
    &&& comments_view(entry.comments@) == if entry.block.fh_md_comment == 0 {
        Seq::<(Seq<char>, Seq<char>)>::empty()
    } else {
        md_entries(data, entry.block.fh_md_comment)
    }
}

/// Reads the chain of file history blocks that starts at `link`, each with
/// its comment, in the order of the chain.
pub fn parse_fh_chain(data: &[u8], link: i64) -> (r: Result<Vec<FhEntry>, MdfError>)
    ensures
        match fh_chain(data@, link, MAX_HISTORY as nat) {
            Err(e) => r == Err::<Vec<FhEntry>, MdfError>(e),
            Ok(offsets) => {
                &&& r is Ok
                &&& r->Ok_0@.len() == offsets.len()
                &&& forall|i: int|
                    0 <= i < offsets.len() ==> is_fh_entry(#[trigger] r->Ok_0@[i], data@, offsets[i])
            },
        },
{
    let mut entries: Vec<FhEntry> = Vec::new();
    let mut next = link;
    let ghost mut visited: Seq<i64> = Seq::empty();
    proof {
        assert(Seq::<i64>::empty() + fh_chain(data@, link, MAX_HISTORY as nat)->Ok_0
            =~= fh_chain(data@, link, MAX_HISTORY as nat)->Ok_0);
    }
    while next != 0
        invariant
            entries@.len() == visited.len(),
            entries@.len() <= MAX_HISTORY,
            fh_chain(data@, link, MAX_HISTORY as nat) == links_after(
                visited,
                fh_chain(data@, next, (MAX_HISTORY - visited.len()) as nat),
            ),
            forall|i: int|
                0 <= i < entries@.len() ==> is_fh_entry(#[trigger] entries@[i], data@, visited[i]),
        decreases MAX_HISTORY - entries@.len(),
    {
        if entries.len() >= MAX_HISTORY {
            return Err(MdfError::UnexpectedBlockType { offset: next as u64 });
        }
        let (block, after) = match parse_fh(data, next) {
            Ok(parsed) => parsed,
            Err(e) => {
                return Err(e);
            },
        };
        let (comments, _) = match parse_fh_comment(data, &block, after) {
            Ok(parsed) => parsed,
            Err(e) => {
                return Err(e);
            },
        };
        proof {
            let rest = fh_chain(data@, block.fh_fh_next, (MAX_HISTORY - visited.len() - 1) as nat);
            match rest {
                Ok(offsets) => {
                    assert(visited + (seq![next] + offsets) =~= visited.push(next) + offsets);
                },
                Err(_) => {},
            }
            visited = visited.push(next);
        }
        next = block.fh_fh_next;
        entries.push(FhEntry { block, comments });
    }
    proof {
        assert(visited + Seq::<i64>::empty() =~= visited);
    }
    Ok(entries)
}

/// All that is known of a 4.x file before its records are read.
#[derive(Debug, Clone)]
pub struct MdfInfo4 {
    /// The name of the file.
    pub file_name: String,
    pub id_block: IdBlock,
    pub hd_block: Hd4,
    /// The comment of the file.
    pub hd_comment: Vec<Comment>,
    /// The history of the file.
    pub fh: Vec<FhEntry>,
    /// The data groups with their channel groups and channels, in the order
    /// of the file.
    pub dg: Vec<Dg4>,
    /// The conversions.
    pub sharable: SharableBlocks,
    /// The names of all channels, in the order of the file.
    pub channel_names: Vec<String>,
}

/// `new` is the channel `old` without samples: its column is empty and it
/// is not valid.
pub open spec fn cleared(old: Cn4, new: Cn4) -> bool {
    &&& new.block == old.block
    &&& new.block_position == old.block_position
    &&& new.rec_pos == old.rec_pos
    &&& new.unique_name == old.unique_name
    &&& new.pos_byte_beg == old.pos_byte_beg
    &&& new.n_bytes == old.n_bytes
    &&& new.composition == old.composition
    &&& new.endian == old.endian
    &&& new.invalid_mask == old.invalid_mask
    &&& !new.channel_data_valid
    &&& new.data.spec_len() == 0
}

impl MdfInfo4 {
    /// The channel of the given name: the first in the order of the file.
    pub open spec fn channel(&self, channel_name: Seq<char>) -> Option<Cn4> {
        match named_in_dgs(self.dg@, 0, channel_name) {
            Some(p) => Some(self.dg@[p.dg as int].cg@[p.cg as int].cn@[p.cn as int]),
            None => None,
        }
    }

    /// The channel group of the channel of the given name.
    pub open spec fn group_of(&self, channel_name: Seq<char>) -> Option<Cg4> {
        match named_in_dgs(self.dg@, 0, channel_name) {
            Some(p) => Some(self.dg@[p.dg as int].cg@[p.cg as int]),
            None => None,
        }
    }

    /// The text to which `link` leads: that of the text or comment block
    /// there; empty where there is no link or the block cannot be read.
    pub open spec fn text_at(data: Seq<u8>, link: i64) -> Seq<char> {
        if link != 0 && md_error(data, link) is None {
            md_text(data, link)
        } else {
            Seq::<char>::empty()
        }
    }

    /// The unit of the channel of the given name: the text of the block to
    /// which the channel links for its unit; empty where there is no such
    /// channel.
    pub open spec fn unit_of(&self, data: Seq<u8>, channel_name: Seq<char>) -> Seq<char> {
        match self.channel(channel_name) {
            Some(cn) => Self::text_at(data, cn.block.cn_md_unit),
            None => Seq::<char>::empty(),
        }
    }

    /// The description of the channel of the given name: the text of the
    /// block to which the channel links for its comment; empty where there is
    /// no such channel.
    pub open spec fn desc_of(&self, data: Seq<u8>, channel_name: Seq<char>) -> Seq<char> {
        match self.channel(channel_name) {
            Some(cn) => Self::text_at(data, cn.block.cn_md_comment),
            None => Seq::<char>::empty(),
        }
    }

    /// The names of all channels, in the order of the file.
    pub fn get_channel_names_set(&self) -> (r: Vec<String>)
        ensures
            r@.len() == self.channel_names@.len(),
            forall|i: int| 0 <= i < r@.len() ==> (#[trigger] r@[i])@ == self.channel_names@[i]@,
    {
        let mut names: Vec<String> = Vec::with_capacity(self.channel_names.len());
        let mut i: usize = 0;
        while i < self.channel_names.len()
            invariant
                i <= self.channel_names.len(),
                names@.len() == i,
                forall|k: int| 0 <= k < i ==> (#[trigger] names@[k])@ == self.channel_names@[k]@,
            decreases self.channel_names.len() - i,
        {
            names.push(self.channel_names[i].clone());
            i += 1;
        }
        names
    }

    /// The samples of the channel of the given name; `None` where there is
    /// no such channel.
    pub fn get_channel_data(&self, channel_name: &String) -> (r: Option<&ChannelData>)
        ensures
            r is Some <==> self.channel(channel_name@) is Some,
            r is Some ==> *r->0 == self.channel(channel_name@)->0.data,
    {
        match find_channel_path(&self.dg, channel_name) {
            Some(p) => Some(&self.dg[p.dg].cg[p.cg].cn[p.cn].data),
            None => None,
        }
    }

    /// The name of the master channel of the channel of the given name;
    /// empty where there is no such channel.
    pub fn get_channel_master(&self, channel_name: &String) -> (r: String)
        ensures
            r@ == match self.group_of(channel_name@) {
                Some(cg) => cg.master_channel_name@,
                None => Seq::<char>::empty(),
            },
    {
        match find_channel_path(&self.dg, channel_name) {
            Some(p) => self.dg[p.dg].cg[p.cg].master_channel_name.clone(),
            None => String::new(),
        }
    }

    /// What the master of the channel of the given name measures: 0 none,
    /// 1 time, 2 angle, 3 distance, 4 index.
    pub fn get_channel_master_type(&self, channel_name: &String) -> (r: u8)
        ensures
            r == match self.group_of(channel_name@) {
                Some(cg) => master_type_of(cg.cn@),
                None => 0u8,
            },
    {
        match find_channel_path(&self.dg, channel_name) {
            Some(p) => group_master_type(&self.dg[p.dg].cg[p.cg].cn),
            None => 0,
        }
    }

    /// The unit of the channel of the given name, read from the file's
    /// bytes `data`: the text of the block to which the channel links for its
    /// unit. Empty where there is no such channel, no such link, or the block
    /// cannot be read.
    pub fn get_channel_unit(&self, data: &[u8], channel_name: &String) -> (r: String)
        ensures
            r@ == self.unit_of(data@, channel_name@),
    {
        match find_channel_path(&self.dg, channel_name) {
            Some(p) => {
                let link = self.dg[p.dg].cg[p.cg].cn[p.cn].block.cn_md_unit;
                if link == 0 {
                    return String::new();
                }
                match parse_md(data, link) {
                    Ok((_, text, _)) => text,
                    Err(_) => String::new(),
                }
            },
            None => String::new(),
        }
    }

    /// The description of the channel of the given name, read from the
    /// file's bytes `data`: the text of the block to which the channel links
    /// for its comment. Empty where there is no such channel, no such link,
    /// or the block cannot be read.
    pub fn get_channel_desc(&self, data: &[u8], channel_name: &String) -> (r: String)
        ensures
            r@ == self.desc_of(data@, channel_name@),
    {
        match find_channel_path(&self.dg, channel_name) {
            Some(p) => {
                let link = self.dg[p.dg].cg[p.cg].cn[p.cn].block.cn_md_comment;
                if link == 0 {
                    return String::new();
                }
                match parse_md(data, link) {
                    Ok((_, text, _)) => text,
                    Err(_) => String::new(),
                }
            },
            None => String::new(),
        }
    }

    /// Drops the samples of the listed channels: their columns become empty
    /// and they are no longer valid.
    pub fn clear_channel_data_from_memory(&mut self, channel_names: &Vec<String>)
        ensures
            final(self).id_block == old(self).id_block,
            final(self).hd_block == old(self).hd_block,
            final(self).channel_names == old(self).channel_names,
            final(self).dg@.len() == old(self).dg@.len(),
            forall|i: int|
                0 <= i < old(self).dg@.len() ==> groups_cleared(
                    old(self).dg@[i].cg@,
                    (#[trigger] final(self).dg@[i]).cg@,
                    channel_names@,
                ) && final(self).dg@[i].block == old(self).dg@[i].block,
    {
        let mut i: usize = 0;
        while i < self.dg.len()
            invariant
                i <= self.dg.len(),
                self.id_block == old(self).id_block,
                self.hd_block == old(self).hd_block,
                self.channel_names == old(self).channel_names,
                self.dg@.len() == old(self).dg@.len(),
                forall|k: int| i <= k < self.dg@.len() ==> self.dg@[k] == old(self).dg@[k],
                forall|k: int|
                    0 <= k < i ==> groups_cleared(
                        old(self).dg@[k].cg@,
                        (#[trigger] self.dg@[k]).cg@,
                        channel_names@,
                    ) && self.dg@[k].block == old(self).dg@[k].block,
            decreases self.dg.len() - i,
        {
            let dg = &mut self.dg[i];
            clear_groups(&mut dg.cg, channel_names);
            i += 1;
        }
    }
}

/// `new` are the groups `old` with the samples of the listed channels
/// dropped.
pub open spec fn groups_cleared(old: Seq<Cg4>, new: Seq<Cg4>, names: Seq<String>) -> bool {
    &&& new.len() == old.len()
    &&& forall|g: int|
        0 <= g < old.len() ==> {
            &&& (#[trigger] new[g]).block == old[g].block
            &&& new[g].record_length == old[g].record_length
            &&& new[g].cn@.len() == old[g].cn@.len()
            &&& forall|i: int|
                0 <= i < old[g].cn@.len() ==> if name_listed(names, old[g].cn@[i].unique_name@) {
                    cleared(old[g].cn@[i], #[trigger] new[g].cn@[i])
                } else {
                    new[g].cn@[i] == old[g].cn@[i]
                }
        }
}

/// Drops the samples of the listed channels of the groups.
fn clear_groups(cgs: &mut Vec<Cg4>, names: &Vec<String>)
    ensures
        groups_cleared(old(cgs)@, final(cgs)@, names@),
{
    let mut g: usize = 0;
    while g < cgs.len()
        invariant
            g <= cgs.len(),
            cgs@.len() == old(cgs)@.len(),
            forall|k: int| g <= k < cgs@.len() ==> cgs@[k] == old(cgs)@[k],
            forall|k: int|
                0 <= k < g ==> {
                    &&& (#[trigger] cgs@[k]).block == old(cgs)@[k].block
                    &&& cgs@[k].record_length == old(cgs)@[k].record_length
                    &&& cgs@[k].cn@.len() == old(cgs)@[k].cn@.len()
                    &&& forall|i: int|
                        0 <= i < old(cgs)@[k].cn@.len() ==> if name_listed(
                            names@,
                            old(cgs)@[k].cn@[i].unique_name@,
                        ) {
                            cleared(old(cgs)@[k].cn@[i], #[trigger] cgs@[k].cn@[i])
                        } else {
                            cgs@[k].cn@[i] == old(cgs)@[k].cn@[i]
                        }
                },
        decreases cgs.len() - g,
    {
        let cg = &mut cgs[g];
        clear_channels(&mut cg.cn, names);
        g += 1;
    }
}

/// Drops the samples of the listed channels.
fn clear_channels(cns: &mut Vec<Cn4>, names: &Vec<String>)
    ensures
        final(cns)@.len() == old(cns)@.len(),
        forall|i: int|
            0 <= i < old(cns)@.len() ==> if name_listed(names@, old(cns)@[i].unique_name@) {
                cleared(old(cns)@[i], #[trigger] final(cns)@[i])
            } else {
                final(cns)@[i] == old(cns)@[i]
            },
{
    let mut i: usize = 0;
    while i < cns.len()
        invariant
            i <= cns.len(),
            cns@.len() == old(cns)@.len(),
            forall|k: int| i <= k < cns@.len() ==> cns@[k] == old(cns)@[k],
            forall|k: int|
                0 <= k < i ==> if name_listed(names@, old(cns)@[k].unique_name@) {
                    cleared(old(cns)@[k], #[trigger] cns@[k])
                } else {
                    cns@[k] == old(cns)@[k]
                },
        decreases cns.len() - i,
    {
        let cn = &mut cns[i];
        if is_listed(names, &cn.unique_name) {
            cn.data = ChannelData::default();
            cn.channel_data_valid = false;
        }
        i += 1;
    }
}

} // verus!
