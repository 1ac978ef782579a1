//! Metadata of an MDF file: the blocks that describe groups, channels and
//! conversions.

pub mod channel_db3;
pub mod channel_db4;
pub mod graph4;
pub mod masters;
pub mod mdfinfo3;
pub mod mdfinfo4;
pub mod same3;
pub mod same4;

use crate::bytes::bytes_at;
use crate::bytes::field;
use crate::bytes::u16_at;
use crate::bytes::u16_le_at;
use crate::bytes::i64_at;
use crate::bytes::u32_at;
use crate::error::MdfError;
use crate::mdfinfo::channel_db3::build_channel_db3;
use crate::mdfinfo::channel_db3::dgs_named;
use crate::mdfinfo::channel_db3::mastered_dgs;
use crate::mdfinfo::channel_db3::named_dgs;
use crate::mdfinfo::channel_db4::build_channel_db;
use crate::mdfinfo::channel_db4::master_type_of;
use crate::mdfinfo::mdfinfo3::groups_cleared3;
use crate::mdfinfo::mdfinfo4::groups_cleared;
use crate::mdfreader::channel_data::ChannelData;
use crate::mdfreader::mdfreader3::dgs3_read;
use crate::mdfreader::mdfreader3::mdfreader3;
use crate::mdfreader::mdfreader4::dgs_read;
use crate::mdfreader::mdfreader4::mdfreader4;
use crate::mdfinfo::channel_db4::dgs4_named;
use crate::mdfinfo::channel_db4::link_all_vlsd;
use crate::mdfinfo::channel_db4::seen_after_dgs;
use crate::mdfinfo::channel_db4::texts_of;
use crate::mdfinfo::channel_db4::vlsd_linked;
use crate::mdfinfo::graph4::are_dg4;
use crate::mdfinfo::graph4::dg4_chain;
use crate::mdfinfo::graph4::parse_dg4;
use crate::mdfinfo::graph4::MAX_CHAIN4;
use crate::mdfinfo::mdfinfo3::are_dg3;
use crate::mdfinfo::mdfinfo4::Dg4;
use crate::mdfinfo::mdfinfo3::dg_chain;
use crate::mdfinfo::mdfinfo3::hd3_comment_parser;
use crate::mdfinfo::mdfinfo3::hd3_error;
use crate::mdfinfo::mdfinfo3::hd3_parser;
use crate::mdfinfo::mdfinfo3::is_hd3;
use crate::mdfinfo::mdfinfo3::linked_text;
use crate::mdfinfo::mdfinfo3::linked_text_error;
use crate::mdfinfo::mdfinfo3::parse_dg3;
use crate::mdfinfo::mdfinfo3::Dg3;
use crate::mdfinfo::mdfinfo3::MdfInfo3;
use crate::mdfinfo::mdfinfo3::SharableBlocks3;
use crate::mdfinfo::mdfinfo3::HD3_POSITION;
use crate::mdfinfo::mdfinfo3::MAX_CHAIN;
use crate::mdfinfo::mdfinfo4::comments_view;
use crate::mdfinfo::mdfinfo4::fh_chain;
use crate::mdfinfo::mdfinfo4::hd4_comment_parser;
use crate::mdfinfo::mdfinfo4::hd4_parser;
use crate::mdfinfo::mdfinfo4::id_hd4;
use crate::mdfinfo::mdfinfo4::is_fh_entry;
use crate::mdfinfo::mdfinfo4::is_hd4;
use crate::mdfinfo::same3::lemma_info3_determined;
use crate::mdfinfo::same3::same_info3;
use crate::mdfinfo::same4::lemma_info4_determined;
use crate::mdfinfo::same4::same_info4;
use crate::mdfinfo::mdfinfo4::md_entries;
use crate::mdfinfo::mdfinfo4::md_error;
use crate::mdfinfo::mdfinfo4::parse_fh_chain;
use crate::mdfinfo::mdfinfo4::MdfInfo4;
use crate::mdfinfo::mdfinfo4::SharableBlocks;
use crate::mdfinfo::mdfinfo4::HD4_POSITION;
use crate::mdfinfo::mdfinfo4::HD4_SIZE;
use crate::mdfinfo::mdfinfo4::MAX_HISTORY;
use vstd::string::StringExecFns;
use vstd::prelude::*;

verus! {

/// The identification block with which every MDF file starts.
#[derive(Debug, PartialEq, Eq, Default, Clone, Copy)]
pub struct IdBlock {
    /// The text `MDF` and five spaces.
    pub id_file_id: [u8; 8],
    /// The version as text.
    pub id_vers: [u8; 8],
    /// The program that wrote the file.
    pub id_prog: [u8; 8],
    /// The default byte order of a 3.x file: 0 for little endian.
    pub id_default_byteorder: u16,
    /// The default format of floats of a 3.x file: 0 for IEEE 754.
    pub id_floatingpointformat: u16,
    /// The version number: 330 for 3.30, 410 for 4.10.
    pub id_ver: u16,
    pub id_check: [u8; 2],
    pub id_reserved: [u8; 26],
    /// Flags of a file that was not finalised.
    pub id_unfin_flags: u16,
    /// Custom flags of a file that was not finalised.
    pub id_custom_unfin_flags: u16,
}

/// The size of the identification block.
pub const ID_SIZE: usize = 64;

/// The text with which every MDF file starts: `MDF` and five spaces.
pub open spec fn mdf_magic() -> Seq<u8> {
    seq![0x4du8, 0x44u8, 0x46u8, 0x20u8, 0x20u8, 0x20u8, 0x20u8, 0x20u8]
}

/// `id` is the identification block that `data` starts with.
pub open spec fn is_id_block(id: IdBlock, data: Seq<u8>) -> bool {
    &&& id.id_file_id@ == field(data, 0, 8)
    &&& id.id_vers@ == field(data, 8, 8)
    &&& id.id_prog@ == field(data, 16, 8)
    &&& id.id_default_byteorder == u16_at(data, 24)
    &&& id.id_floatingpointformat == u16_at(data, 26)
    &&& id.id_ver == u16_at(data, 28)
    &&& id.id_check@ == field(data, 30, 2)
    &&& id.id_reserved@ == field(data, 32, 26)
    &&& id.id_unfin_flags == u16_at(data, 58)
    &&& id.id_custom_unfin_flags == u16_at(data, 60)
}

/// What is wrong with the start of `data`: it is shorter than an
/// identification block, or does not start with the text of an MDF file.
pub open spec fn id_error(data: Seq<u8>) -> Option<MdfError> {
    crate::bytes::block_error(data, 0, ID_SIZE as nat, mdf_magic())
}

/// The family of the format that a version number stands for.
#[derive(Debug, Clone, Copy, PartialEq, Eq, Structural)]
pub enum Format {
    /// Versions below 4.00.
    V3,
    /// Versions from 4.00 on.
    V4,
}

/// The family that the version number `id_ver` selects: 3.x below 400, and
/// 4.x from 400 on.
pub open spec fn format_of(id_ver: u16) -> Format {
    if id_ver < 400 {
        Format::V3
    } else {
        Format::V4
    }
}

/// Selects the parser for a file by its version number.
pub fn select_format(id_ver: u16) -> (r: Format)
    ensures
        r == format_of(id_ver),
{
    if id_ver < 400 {
        Format::V3
    } else {
        Format::V4
    }
}

/// Reads the identification block at the start of a file.
pub fn parse_id_block(data: &[u8]) -> (r: Result<IdBlock, MdfError>)
    ensures
        match id_error(data@) {
            Some(e) => r == Err::<IdBlock, MdfError>(e),
            None => r is Ok && is_id_block(r->Ok_0, data@),
        },
{
    let magic: [u8; 8] = [0x4d, 0x44, 0x46, 0x20, 0x20, 0x20, 0x20, 0x20];
    proof {
        assert(magic@ =~= mdf_magic());
    }
    match crate::bytes::check_block(data, 0, ID_SIZE, vstd::array::array_as_slice(&magic)) {
        Err(e) => {
            return Err(e);
        },
        Ok(()) => {},
    }
    Ok(
        IdBlock {
            id_file_id: bytes_at::<8>(data, 0),
            id_vers: bytes_at::<8>(data, 8),
            id_prog: bytes_at::<8>(data, 16),
            id_default_byteorder: u16_le_at(data, 24),
            id_floatingpointformat: u16_le_at(data, 26),
            id_ver: u16_le_at(data, 28),
            id_check: bytes_at::<2>(data, 30),
            id_reserved: bytes_at::<26>(data, 32),
            id_unfin_flags: u16_le_at(data, 58),
            id_custom_unfin_flags: u16_le_at(data, 60),
        },
    )
}

/// All that is known of a file before its records are read, for either
/// family of the format.
#[derive(Debug, Clone)]
pub enum MdfInfo {
    /// A file of version 3.x.
    V3(Box<MdfInfo3>),
    /// A file of version 4.x.
    V4(Box<MdfInfo4>),
}

/// What is wrong with the metadata of the 3.x file `data`: the error of the
/// first block that cannot be read, the blocks taken in the order header,
/// comment, data groups. `None` where all can be read.
pub open spec fn info3_error(data: Seq<u8>) -> Option<MdfError> {
    let ver = u16_at(data, 28);
    match hd3_error(data, ver) {
        Some(e) => Some(e),
        None => match linked_text_error(data, u32_at(data, HD3_POSITION + 8)) {
            Some(e) => Some(e),
            None => match dg_chain(data, u32_at(data, HD3_POSITION + 4), MAX_CHAIN as nat) {
                Err(e) => Some(e),
                Ok(_) => None,
            },
        },
    }
}

/// What is wrong with the metadata of the 4.x file `data`: the error of the
/// first block that cannot be read, the blocks taken in the order header,
/// comment, file history, data groups. `None` where all can be read.
pub open spec fn info4_error(data: Seq<u8>) -> Option<MdfError> {
    match crate::bytes::block_error(data, HD4_POSITION as u64, HD4_SIZE as nat, id_hd4()) {
        Some(e) => Some(e),
        None => {
            let comment = i64_at(data, HD4_POSITION + 64);
            let comment_error = if comment == 0 {
                None
            } else {
                md_error(data, comment)
            };
            match comment_error {
                Some(e) => Some(e),
                None => match fh_chain(data, i64_at(data, HD4_POSITION + 32), MAX_HISTORY as nat) {
                    Err(e) => Some(e),
                    Ok(_) => match dg4_chain(
                        data,
                        i64_at(data, HD4_POSITION + 24),
                        MAX_CHAIN4 as nat,
                    ) {
                        Err(e) => Some(e),
                        Ok(_) => None,
                    },
                },
            }
        },
    }
}

/// What is wrong with the metadata of the file `data`; `None` where it can
/// be read. The version number of the identification block alone decides by
/// which family's rules the rest is read.
pub open spec fn info_error(data: Seq<u8>) -> Option<MdfError> {
    match id_error(data) {
        Some(e) => Some(e),
        None => match format_of(u16_at(data, 28)) {
            Format::V3 => info3_error(data),
            Format::V4 => info4_error(data),
        },
    }
}

/// `info` is what the 3.x file `data` holds: its identification and header
/// blocks, its comment, its data groups with the names of the channels made
/// unique, its conversions and channel extensions, and the set of its channel
/// names.
pub open spec fn is_info3(info: MdfInfo3, data: Seq<u8>, file_name: Seq<char>) -> bool {
    &&& info.file_name@ == file_name
    &&& is_id_block(info.id_block, data)
    &&& is_hd3(info.hd_block, data, info.id_block.id_ver)
    &&& info.hd_comment@ == linked_text(data, info.hd_block.hd_md_comment)
    &&& info.sharable.wf(data)
    &&& info.wf()
    &&& exists|parsed: Seq<Dg3>|
        {
            &&& #[trigger] are_dg3(
                parsed,
                dg_chain(data, info.hd_block.hd_dg_first, MAX_CHAIN as nat)->Ok_0,
                data,
                info.id_block.id_default_byteorder,
                info.sharable,
            )
            &&& dgs_named(Map::empty(), parsed, info.dg@, info.sharable)
            &&& info.channel_names_set.map() == mastered_dgs(
                named_dgs(Map::empty(), parsed, info.sharable),
                info.dg@,
            )
        }
}

/// `linked` are the data groups `parsed`, each group with the channel
/// entered that owns its values of variable length.
pub open spec fn all_vlsd_linked(parsed: Seq<Dg4>, linked: Seq<Dg4>) -> bool {
    &&& linked.len() == parsed.len()
    &&& forall|i: int|
        0 <= i < parsed.len() ==> (#[trigger] linked[i]).block == parsed[i].block
            && linked[i].block_position == parsed[i].block_position && vlsd_linked(
            parsed[i].cg@,
            linked[i].cg@,
        )
}

/// `info` is what the 4.x file `data` holds: its identification and header
/// blocks, its comment, its history, its data groups with the names of the
/// channels made unique and the names of the masters entered, its
/// conversions, and the names of its channels.
pub open spec fn is_info4(info: MdfInfo4, data: Seq<u8>, file_name: Seq<char>) -> bool {
    &&& info.file_name@ == file_name
    &&& is_id_block(info.id_block, data)
    &&& is_hd4(info.hd_block, data)
    &&& comments_view(info.hd_comment@) == if info.hd_block.hd_md_comment == 0 {
        Seq::<(Seq<char>, Seq<char>)>::empty()
    } else {
        md_entries(data, info.hd_block.hd_md_comment)
    }
    &&& info.fh@.len() == fh_chain(data, info.hd_block.hd_fh_first, MAX_HISTORY as nat)->Ok_0.len()
    &&& forall|i: int|
        0 <= i < info.fh@.len() ==> is_fh_entry(
            #[trigger] info.fh@[i],
            data,
            fh_chain(data, info.hd_block.hd_fh_first, MAX_HISTORY as nat)->Ok_0[i],
        )
    &&& info.sharable.wf(data)
    &&& exists|parsed: Seq<Dg4>, linked: Seq<Dg4>|
        {
            &&& #[trigger] are_dg4(
                parsed,
                dg4_chain(data, info.hd_block.hd_dg_first, MAX_CHAIN4 as nat)->Ok_0,
                data,
                info.sharable,
            )
            &&& #[trigger] all_vlsd_linked(parsed, linked)
            &&& dgs4_named(Seq::empty(), linked, info.dg@)
            &&& texts_of(info.channel_names@) == seen_after_dgs(Seq::empty(), linked)
        }
}

/// `info` is what the file `data` holds, read as the family that its
/// version number selects.
pub open spec fn is_info(info: MdfInfo, data: Seq<u8>, file_name: Seq<char>) -> bool {
    &&& info.wf()
    &&& match info {
        MdfInfo::V3(i) => format_of(u16_at(data, 28)) == Format::V3 && is_info3(
            *i,
            data,
            file_name,
        ),
        MdfInfo::V4(i) => format_of(u16_at(data, 28)) == Format::V4 && is_info4(
            *i,
            data,
            file_name,
        ),
    }
}

/// `r` is the result of reading the metadata of the file `data`: the error
/// of the first block that cannot be read, or else what the file holds.
pub open spec fn is_read(r: Result<MdfInfo, MdfError>, data: Seq<u8>, file_name: Seq<char>) -> bool {
    match info_error(data) {
        Some(e) => r == Err::<MdfInfo, MdfError>(e),
        None => r is Ok && is_info(r->Ok_0, data, file_name),
    }
}

/// Two results of reading say the same: the same error, or the same
/// description of a file of the same family.
pub open spec fn same_result(a: Result<MdfInfo, MdfError>, b: Result<MdfInfo, MdfError>) -> bool {
    match (a, b) {
        (Err(x), Err(y)) => x == y,
        (Ok(MdfInfo::V3(x)), Ok(MdfInfo::V3(y))) => same_info3(*x, *y),
        (Ok(MdfInfo::V4(x)), Ok(MdfInfo::V4(y))) => same_info4(*x, *y),
        _ => false,
    }
}

/// Reading a file twice gives the same: two results of reading the same
/// bytes under the same name say the same.
pub proof fn lemma_read_twice(
    a: Result<MdfInfo, MdfError>,
    b: Result<MdfInfo, MdfError>,
    data: Seq<u8>,
    file_name: Seq<char>,
)
    requires
        is_read(a, data, file_name),
        is_read(b, data, file_name),
    ensures
        same_result(a, b),
{
    if info_error(data) is None {
        match (a, b) {
            (Ok(MdfInfo::V3(x)), Ok(MdfInfo::V3(y))) => {
                lemma_info3_determined(*x, *y, data, file_name);
            },
            (Ok(MdfInfo::V4(x)), Ok(MdfInfo::V4(y))) => {
                lemma_info4_determined(*x, *y, data, file_name);
            },
            _ => {},
        }
    }
}

impl MdfInfo {
    /// The version number of the file.
    pub open spec fn version(&self) -> u16 {
        match self {
            MdfInfo::V3(info) => info.id_block.id_ver,
            MdfInfo::V4(info) => info.id_block.id_ver,
        }
    }

    /// What holds of every value of this type that `new` makes.
    pub open spec fn wf(&self) -> bool {
        match self {
            MdfInfo::V3(info) => info.wf(),
            MdfInfo::V4(_) => true,
        }
    }

    /// Tells whether the value holds what `new` establishes: that no
    /// channel name of a 3.x file is filed twice.
    pub fn is_well_formed(&self) -> (r: bool)
        ensures
            r == self.wf(),
    {
        match self {
            MdfInfo::V3(info) => info.channel_names_set.is_well_formed(),
            MdfInfo::V4(_) => true,
        }
    }

    /// Reads the metadata of the file with the content `data`: all blocks
    /// that describe the file, its groups, channels and conversions, and none of
    /// its records.
    ///
    /// The version number of the identification block selects the family of
    /// the format: below 400 the file is read as 3.x, from 400 on as 4.x. Either
    /// all blocks are read, or the first error is returned and nothing else.
    pub fn new(data: &[u8], file_name: &str) -> (r: Result<MdfInfo, MdfError>)
        ensures
            is_read(r, data@, file_name@),
    {
        let id = match parse_id_block(data) {
            Ok(id) => id,
            Err(e) => {
                return Err(e);
            },
        };
        match select_format(id.id_ver) {
            Format::V3 => {
                let mut sharable = SharableBlocks3::new();
                let (hd, position) = match hd3_parser(data, id.id_ver) {
                    Ok(parsed) => parsed,
                    Err(e) => {
                        return Err(e);
                    },
                };
                let (hd_comment, _) = match hd3_comment_parser(data, &hd, position) {
                    Ok(parsed) => parsed,
                    Err(e) => {
                        return Err(e);
                    },
                };
                let (mut dg, n_cg, n_cn) = match parse_dg3(
                    data,
                    hd.hd_dg_first,
                    &mut sharable,
                    id.id_default_byteorder,
                ) {
                    Ok(parsed) => parsed,
                    Err(e) => {
                        return Err(e);
                    },
                };
                let ghost parsed = dg@;
                let channel_names_set = build_channel_db3(&mut dg, &sharable, n_cg, n_cn);
                let info = MdfInfo3 {
                    file_name: String::from_str(file_name),
                    id_block: id,
                    hd_block: hd,
                    hd_comment,
                    dg,
                    sharable,
                    channel_names_set,
                };
                proof {
                    assert(are_dg3(
                        parsed,
                        dg_chain(data@, info.hd_block.hd_dg_first, MAX_CHAIN as nat)->Ok_0,
                        data@,
                        info.id_block.id_default_byteorder,
                        info.sharable,
                    ));
                }
                Ok(MdfInfo::V3(Box::new(info)))
            },
            Format::V4 => {
                let hd = match hd4_parser(data) {
                    Ok(hd) => hd,
                    Err(e) => {
                        return Err(e);
                    },
                };
                let (hd_comment, _) = match hd4_comment_parser(data, &hd) {
                    Ok(parsed) => parsed,
                    Err(e) => {
                        return Err(e);
                    },
                };
                let fh = match parse_fh_chain(data, hd.hd_fh_first) {
                    Ok(fh) => fh,
                    Err(e) => {
                        return Err(e);
                    },
                };
                let mut sharable = SharableBlocks::new();
                let mut dg = match parse_dg4(data, hd.hd_dg_first, &mut sharable) {
                    Ok(dg) => dg,
                    Err(e) => {
                        return Err(e);
                    },
                };
                let ghost parsed = dg@;
                link_all_vlsd(&mut dg);
                let ghost linked = dg@;
                let channel_names = build_channel_db(&mut dg);
                let info = MdfInfo4 {
                    file_name: String::from_str(file_name),
                    id_block: id,
                    hd_block: hd,
                    hd_comment,
                    fh,
                    dg,
                    sharable,
                    channel_names,
                };
                proof {
                    assert(are_dg4(
                        parsed,
                        dg4_chain(data@, info.hd_block.hd_dg_first, MAX_CHAIN4 as nat)->Ok_0,
                        data@,
                        info.sharable,
                    ));
                    assert(all_vlsd_linked(parsed, linked));
                }
                Ok(MdfInfo::V4(Box::new(info)))
            },
        }
    }

    /// The version number of the file.
    pub fn get_version(&self) -> (r: u16)
        ensures
            r == self.version(),
    {
        match self {
            MdfInfo::V3(mdfinfo3) => mdfinfo3.id_block.id_ver,
            MdfInfo::V4(mdfinfo4) => mdfinfo4.id_block.id_ver,
        }
    }
}

/// Reading a file twice gives the same: what is read of the identification
/// block is determined by the bytes, and with it the family of the format.
pub proof fn lemma_id_block_determined(a: IdBlock, b: IdBlock, data: Seq<u8>)
    requires
        is_id_block(a, data),
        is_id_block(b, data),
    ensures
        a == b,
        format_of(a.id_ver) == format_of(b.id_ver),
{
    assert(a.id_file_id@ =~= b.id_file_id@);
    assert(a.id_vers@ =~= b.id_vers@);
    assert(a.id_prog@ =~= b.id_prog@);
    assert(a.id_check@ =~= b.id_check@);
    assert(a.id_reserved@ =~= b.id_reserved@);
    vstd::array::axiom_array_ext_equal(a.id_file_id, b.id_file_id);
    vstd::array::axiom_array_ext_equal(a.id_vers, b.id_vers);
    vstd::array::axiom_array_ext_equal(a.id_prog, b.id_prog);
    vstd::array::axiom_array_ext_equal(a.id_check, b.id_check);
    vstd::array::axiom_array_ext_equal(a.id_reserved, b.id_reserved);
}

impl MdfInfo {
    /// The unit of the channel of the given name; empty where it has none.
    /// A 4.x file holds its units in blocks of their own, which are read from
    /// the file's bytes `data`.
    pub fn get_channel_unit(&self, data: &[u8], channel_name: &String) -> (r: String)
        requires
            self.wf(),
        ensures
            r@ == match self {
                MdfInfo::V3(info) => info.unit_of(channel_name@),
                MdfInfo::V4(info) => info.unit_of(data@, channel_name@),
            },
    {
        match self {
            MdfInfo::V3(mdfinfo3) => mdfinfo3.get_channel_unit(channel_name),
            MdfInfo::V4(mdfinfo4) => mdfinfo4.get_channel_unit(data, channel_name),
        }
    }

    /// The description of the channel of the given name; empty where it has
    /// none.
    pub fn get_channel_desc(&self, data: &[u8], channel_name: &String) -> (r: String)
        requires
            self.wf(),
        ensures
            r@ == match self {
                MdfInfo::V3(info) => match info.channel(channel_name@) {
                    Some(cn) => cn.description@,
                    None => Seq::<char>::empty(),
                },
                MdfInfo::V4(info) => info.desc_of(data@, channel_name@),
            },
    {
        match self {
            MdfInfo::V3(mdfinfo3) => mdfinfo3.get_channel_desc(channel_name),
            MdfInfo::V4(mdfinfo4) => mdfinfo4.get_channel_desc(data, channel_name),
        }
    }

    /// The name of the master channel of the channel of the given name;
    /// empty where there is no such channel.
    pub fn get_channel_master(&self, channel_name: &String) -> (r: String)
        requires
            self.wf(),
        ensures
            r@ == match self {
                MdfInfo::V3(info) => if info.channel_names_set.map().contains_key(channel_name@) {
                    info.channel_names_set.map()[channel_name@].master
                } else {
                    Seq::<char>::empty()
                },
                MdfInfo::V4(info) => match info.group_of(channel_name@) {
                    Some(cg) => cg.master_channel_name@,
                    None => Seq::<char>::empty(),
                },
            },
    {
        match self {
            MdfInfo::V3(mdfinfo3) => mdfinfo3.get_channel_master(channel_name),
            MdfInfo::V4(mdfinfo4) => mdfinfo4.get_channel_master(channel_name),
        }
    }

    /// What the master of the channel of the given name measures: 0 none,
    /// 1 time, 2 angle, 3 distance, 4 index.
    pub fn get_channel_master_type(&self, channel_name: &String) -> (r: u8)
        requires
            self.wf(),
        ensures
            r == match self {
                MdfInfo::V3(info) => if info.channel_names_set.map().contains_key(channel_name@) {
                    1u8
                } else {
                    0u8
                },
                MdfInfo::V4(info) => match info.group_of(channel_name@) {
                    Some(cg) => master_type_of(cg.cn@),
                    None => 0u8,
                },
            },
    {
        match self {
            MdfInfo::V3(mdfinfo3) => mdfinfo3.get_channel_master_type(channel_name),
            MdfInfo::V4(mdfinfo4) => mdfinfo4.get_channel_master_type(channel_name),
        }
    }

    /// The names of all channels of the file.
    pub fn get_channel_names_set(&self) -> (r: Vec<String>)
        ensures
            match self {
                MdfInfo::V3(info) => r@.len() == info.channel_names_set.entries@.len()
                    && forall|i: int|
                    0 <= i < r@.len() ==> (#[trigger] r@[i])@
                        == info.channel_names_set.entries@[i].name@,
                MdfInfo::V4(info) => r@.len() == info.channel_names@.len() && forall|i: int|
                    0 <= i < r@.len() ==> (#[trigger] r@[i])@ == info.channel_names@[i]@,
            },
    {
        match self {
            MdfInfo::V3(mdfinfo3) => mdfinfo3.get_channel_names_set(),
            MdfInfo::V4(mdfinfo4) => mdfinfo4.get_channel_names_set(),
        }
    }

    /// The samples of the channel of the given name; `None` where there is
    /// no such channel.
    pub fn get_channel_data(&self, channel_name: &String) -> (r: Option<&ChannelData>)
        requires
            self.wf(),
        ensures
            match self {
                MdfInfo::V3(info) => r is Some <==> info.channel(channel_name@) is Some,
                MdfInfo::V4(info) => r is Some <==> info.channel(channel_name@) is Some,
            },
            r is Some ==> *r->0 == match self {
                MdfInfo::V3(info) => info.channel(channel_name@)->0.data,
                MdfInfo::V4(info) => info.channel(channel_name@)->0.data,
            },
    {
        match self {
            MdfInfo::V3(mdfinfo3) => mdfinfo3.get_channel_data(channel_name),
            MdfInfo::V4(mdfinfo4) => mdfinfo4.get_channel_data(channel_name),
        }
    }
}

/// `after` is the file `before` after the records of the listed channels
/// were read from `data`, with the result `r`.
pub open spec fn loaded(
    before: MdfInfo,
    after: MdfInfo,
    data: Seq<u8>,
    names: Seq<String>,
    r: Result<(), MdfError>,
) -> bool {
    match (before, after) {
        (MdfInfo::V3(b), MdfInfo::V3(a)) => {
            &&& a.id_block == b.id_block
            &&& a.channel_names_set == b.channel_names_set
            &&& dgs3_read(b.dg@, a.dg@, data, names, r)
        },
        (MdfInfo::V4(b), MdfInfo::V4(a)) => {
            &&& a.id_block == b.id_block
            &&& a.channel_names == b.channel_names
            &&& dgs_read(b.dg@, a.dg@, data, names, r)
        },
        _ => false,
    }
}

/// `names` are the names of all channels of the file.
pub open spec fn all_names(info: MdfInfo, names: Seq<String>) -> bool {
    match info {
        MdfInfo::V3(i) => names.len() == i.channel_names_set.entries@.len() && forall|k: int|
            0 <= k < names.len() ==> (#[trigger] names[k])@ == i.channel_names_set.entries@[k].name@,
        MdfInfo::V4(i) => names.len() == i.channel_names@.len() && forall|k: int|
            0 <= k < names.len() ==> (#[trigger] names[k])@ == i.channel_names@[k]@,
    }
}

impl MdfInfo {
    /// Reads the records of the file, whose content is `data`, into the
    /// listed channels that are not yet valid.
    pub fn load_channels_data_in_memory(&mut self, data: &[u8], channel_names: &Vec<String>) -> (r:
        Result<(), MdfError>)
        ensures
            loaded(*old(self), *final(self), data@, channel_names@, r),
    {
        match self {
            MdfInfo::V3(mdfinfo3) => mdfreader3(data, mdfinfo3, channel_names),
            MdfInfo::V4(mdfinfo4) => mdfreader4(data, mdfinfo4, channel_names),
        }
    }

    /// Reads the records of the file, whose content is `data`, into all
    /// channels that are not yet valid.
    pub fn load_all_channels_data_in_memory(&mut self, data: &[u8]) -> (r: Result<(), MdfError>)
        ensures
            exists|names: Seq<String>|
                {
                    &&& #[trigger] all_names(*old(self), names)
                    &&& loaded(*old(self), *final(self), data@, names, r)
                },
    {
        let channel_set = self.get_channel_names_set();
        proof {
            assert(all_names(*self, channel_set@));
        }
        self.load_channels_data_in_memory(data, &channel_set)
    }

    /// Drops the samples of the listed channels: their columns become empty
    /// and they are no longer valid.
    pub fn clear_channel_data_from_memory(&mut self, channel_names: &Vec<String>)
        ensures
            match (*old(self), *final(self)) {
                (MdfInfo::V3(before), MdfInfo::V3(after)) => {
                    &&& after.channel_names_set == before.channel_names_set
                    &&& after.dg@.len() == before.dg@.len()
                    &&& forall|i: int|
                        0 <= i < before.dg@.len() ==> groups_cleared3(
                            before.dg@[i].cg@,
                            (#[trigger] after.dg@[i]).cg@,
                            channel_names@,
                        )
                },
                (MdfInfo::V4(before), MdfInfo::V4(after)) => {
                    &&& after.channel_names == before.channel_names
                    &&& after.dg@.len() == before.dg@.len()
                    &&& forall|i: int|
                        0 <= i < before.dg@.len() ==> groups_cleared(
                            before.dg@[i].cg@,
                            (#[trigger] after.dg@[i]).cg@,
                            channel_names@,
                        )
                },
                _ => false,
            },
    {
        match self {
            MdfInfo::V3(mdfinfo3) => mdfinfo3.clear_channel_data_from_memory(channel_names),
            MdfInfo::V4(mdfinfo4) => mdfinfo4.clear_channel_data_from_memory(channel_names),
        }
    }
}

} // verus!
