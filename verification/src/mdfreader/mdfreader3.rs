//! Reading the records of a 3.x file into the columns of its channels.
//!
//! The records of a 3.x file lie at the place to which their data group
//! links, without a block around them. They are read by the reader of 4.x
//! records, to which the groups are handed in the form of 4.x groups.

use crate::bytes::vec_at;
use crate::error::MdfError;
use crate::mdfinfo::mdfinfo3::convert_data_type_3to4;
use crate::mdfinfo::mdfinfo3::data_type_3to4;
use crate::mdfinfo::mdfinfo3::Cg3;
use crate::mdfinfo::mdfinfo3::Cn3;
use crate::mdfinfo::mdfinfo3::Dg3;
use crate::mdfinfo::mdfinfo3::MdfInfo3;
use crate::mdfinfo::mdfinfo4::Cg4;
use crate::mdfinfo::mdfinfo4::Cg4Block;
use crate::mdfinfo::mdfinfo4::Cn4;
use crate::mdfinfo::mdfinfo4::Cn4Block;
use crate::mdfinfo::mdfinfo4::Dg4;
use crate::mdfinfo::mdfinfo4::Dg4Block;
use crate::mdfreader::channel_data::ChannelData;
use crate::mdfreader::mdfreader4::clamped;
use crate::mdfreader::mdfreader4::read_stream;
use crate::mdfreader::mdfreader4::stream_read;
use vstd::prelude::*;

verus! {

/// `cn4` is the channel `cn3` in the form of a 4.x channel, the channel
/// number `index` of its group: a time channel becomes a master channel of
/// time, the data type is mapped, and the first bit of the value is given as
/// a byte and a bit within it. The samples are the same.
pub open spec fn cn4_form(cn3: Cn3, cn4: Cn4, index: int) -> bool {
    &&& cn4.block == Cn4Block {
        cn_cn_next: 0,
        cn_composition: 0,
        cn_tx_name: 0,
        cn_si_source: 0,
        cn_cc_conversion: cn3.block1.cn_cc_conversion as i64,
        cn_data: 0,
        cn_md_unit: 0,
        cn_md_comment: 0,
        cn_type: if cn3.block1.cn_type == 1 {
            2
        } else {
            0
        },
        cn_sync_type: if cn3.block1.cn_type == 1 {
            1
        } else {
            0
        },
        cn_data_type: data_type_3to4(cn3.block2.cn_data_type),
        cn_bit_offset: (cn3.block2.cn_bit_offset % 8) as u8,
        cn_byte_offset: (cn3.block2.cn_bit_offset / 8) as u32,
        cn_bit_count: cn3.block2.cn_bit_count as u32,
        cn_flags: 0,
        cn_inval_bit_pos: 0,
    }
    &&& cn4.block_position == cn3.block_position
    &&& cn4.rec_pos == index
    &&& cn4.unique_name@ == cn3.unique_name@
    &&& cn4.pos_byte_beg == cn3.pos_byte_beg
    &&& cn4.n_bytes == cn3.n_bytes
    &&& cn4.composition is None
    &&& cn4.invalid_mask is None
    &&& cn4.endian == cn3.endian
    &&& cn4.data == cn3.data
    &&& cn4.channel_data_valid == cn3.channel_data_valid
}

/// `new` is the channel `old` with the samples `data` and the valid flag
/// `valid`.
pub open spec fn with_samples(old: Cn3, new: Cn3, data: ChannelData, valid: bool) -> bool {
    &&& new.block1 == old.block1
    &&& new.block2 == old.block2
    &&& new.block_position == old.block_position
    &&& new.unique_name == old.unique_name
    &&& new.comment == old.comment
    &&& new.description == old.description
    &&& new.pos_byte_beg == old.pos_byte_beg
    &&& new.n_bytes == old.n_bytes
    &&& new.endian == old.endian
    &&& new.data == data
    &&& new.channel_data_valid == valid
}

/// `cg4` is the group `cg3` in the form of a 4.x group.
pub open spec fn cg4_form(cg3: Cg3, cg4: Cg4) -> bool {
    &&& cg4.block == Cg4Block {
        cg_cg_next: 0,
        cg_cn_first: 0,
        cg_record_id: cg3.block.cg_record_id as u64,
        cg_cycle_count: cg3.block.cg_cycle_count as u64,
        cg_flags: 0,
        cg_data_bytes: cg3.block.cg_data_bytes as u32,
        cg_inval_bytes: 0,
    }
    &&& cg4.block_position == cg3.block_position
    &&& cg4.record_length == cg3.record_length
    &&& cg4.vlsd is None
    &&& cg4.cn@.len() == cg3.cn@.len()
    &&& forall|i: int| 0 <= i < cg3.cn@.len() ==> cn4_form(cg3.cn@[i], #[trigger] cg4.cn@[i], i)
}

/// `dg4` is the data group `dg3` in the form of a 4.x data group. A record
/// id of a 3.x file takes one byte.
pub open spec fn dg4_form(dg3: Dg3, dg4: Dg4) -> bool {
    &&& dg4.block == Dg4Block {
        dg_dg_next: 0,
        dg_cg_first: 0,
        dg_data: dg3.block.dg_data as i64,
        dg_rec_id_size: if dg3.block.dg_n_record_ids > 0 {
            1
        } else {
            0
        },
    }
    &&& dg4.block_position == dg3.block_position
    &&& dg4.cg@.len() == dg3.cg@.len()
    &&& forall|g: int| 0 <= g < dg3.cg@.len() ==> cg4_form(dg3.cg@[g], #[trigger] dg4.cg@[g])
}

/// `new` is the data group `old` with the samples and valid flags of the
/// channels of `dg4`.
pub open spec fn samples_back(old: Dg3, dg4: Dg4, new: Dg3) -> bool {
    &&& new.block == old.block
    &&& new.block_position == old.block_position
    &&& new.cg@.len() == old.cg@.len()
    &&& dg4.cg@.len() == old.cg@.len()
    &&& forall|g: int|
        0 <= g < old.cg@.len() ==> group_back(old.cg@[g], dg4.cg@[g], #[trigger] new.cg@[g])
}

/// `new` is the group `old` with the samples and valid flags of the
/// channels of `cg4`.
pub open spec fn group_back(old: Cg3, cg4: Cg4, new: Cg3) -> bool {
    &&& new.block == old.block
    &&& new.block_position == old.block_position
    &&& new.master_channel_name == old.master_channel_name
    &&& new.channel_names == old.channel_names
    &&& new.record_length == old.record_length
    &&& new.cn@.len() == old.cn@.len()
    &&& cg4.cn@.len() == old.cn@.len()
    &&& forall|i: int|
        0 <= i < old.cn@.len() ==> with_samples(
            old.cn@[i],
            #[trigger] new.cn@[i],
            cg4.cn@[i].data,
            cg4.cn@[i].channel_data_valid,
        )
}

/// Hands out the samples of a channel together with its description in the
/// form of a 4.x channel; the channel keeps an empty column.
fn take_cn4(cn: &mut Cn3, index: i32) -> (r: Cn4)
    ensures
        cn4_form(*old(cn), r, index as int),
        with_samples(*old(cn), *final(cn), final(cn).data, old(cn).channel_data_valid),
{
    let mut data = ChannelData::default();
    core::mem::swap(&mut data, &mut cn.data);
    let is_time = cn.block1.cn_type == 1;
    Cn4 {
        block: Cn4Block {
            cn_cn_next: 0,
            cn_composition: 0,
            cn_tx_name: 0,
            cn_si_source: 0,
            cn_cc_conversion: cn.block1.cn_cc_conversion as i64,
            cn_data: 0,
            cn_md_unit: 0,
            cn_md_comment: 0,
            cn_type: if is_time {
                2
            } else {
                0
            },
            cn_sync_type: if is_time {
                1
            } else {
                0
            },
            cn_data_type: convert_data_type_3to4(cn.block2.cn_data_type),
            cn_bit_offset: (cn.block2.cn_bit_offset % 8) as u8,
            cn_byte_offset: (cn.block2.cn_bit_offset / 8) as u32,
            cn_bit_count: cn.block2.cn_bit_count as u32,
            cn_flags: 0,
            cn_inval_bit_pos: 0,
        },
        block_position: cn.block_position as i64,
        rec_pos: index,
        unique_name: cn.unique_name.clone(),
        pos_byte_beg: cn.pos_byte_beg as u32,
        n_bytes: cn.n_bytes as u32,
        composition: None,
        data,
        endian: cn.endian,
        invalid_mask: None,
        channel_data_valid: cn.channel_data_valid,
    }
}

/// Hands out the channels of a group in the form of a 4.x group.
fn take_cg4(cg: &mut Cg3) -> (r: Cg4)
    requires
        old(cg).cn@.len() <= i32::MAX,
    ensures
        cg4_form(*old(cg), r),
        final(cg).block == old(cg).block,
        final(cg).block_position == old(cg).block_position,
        final(cg).master_channel_name == old(cg).master_channel_name,
        final(cg).channel_names == old(cg).channel_names,
        final(cg).record_length == old(cg).record_length,
        final(cg).cn@.len() == old(cg).cn@.len(),
        forall|i: int|
            0 <= i < old(cg).cn@.len() ==> with_samples(
                old(cg).cn@[i],
                #[trigger] final(cg).cn@[i],
                final(cg).cn@[i].data,
                old(cg).cn@[i].channel_data_valid,
            ),
{
    let mut cns: Vec<Cn4> = Vec::with_capacity(cg.cn.len());
    let mut i: usize = 0;
    while i < cg.cn.len()
        invariant
            i <= cg.cn.len(),
            cg.cn@.len() <= i32::MAX,
            cg.block == old(cg).block,
            cg.block_position == old(cg).block_position,
            cg.master_channel_name == old(cg).master_channel_name,
            cg.channel_names == old(cg).channel_names,
            cg.record_length == old(cg).record_length,
            cg.cn@.len() == old(cg).cn@.len(),
            cns@.len() == i,
            forall|k: int| i <= k < cg.cn@.len() ==> cg.cn@[k] == old(cg).cn@[k],
            forall|k: int| 0 <= k < i ==> cn4_form(old(cg).cn@[k], #[trigger] cns@[k], k),
            forall|k: int|
                0 <= k < i ==> with_samples(
                    old(cg).cn@[k],
                    #[trigger] cg.cn@[k],
                    cg.cn@[k].data,
                    old(cg).cn@[k].channel_data_valid,
                ),
        decreases cg.cn.len() - i,
    {
        let cn4 = take_cn4(&mut cg.cn[i], i as i32);
        cns.push(cn4);
        i += 1;
    }
    Cg4 {
        block: Cg4Block {
            cg_cg_next: 0,
            cg_cn_first: 0,
            cg_record_id: cg.block.cg_record_id as u64,
            cg_cycle_count: cg.block.cg_cycle_count as u64,
            cg_flags: 0,
            cg_data_bytes: cg.block.cg_data_bytes as u32,
            cg_inval_bytes: 0,
        },
        block_position: cg.block_position as i64,
        cn: cns,
        master_channel_name: cg.master_channel_name.clone(),
        record_length: cg.record_length as u32,
        vlsd: None,
    }
}

/// Puts the samples and valid flags of the channels of `cg4` into the
/// channels of the group.
fn give_back(cg: &mut Cg3, cg4: &mut Cg4)
    requires
        old(cg4).cn@.len() == old(cg).cn@.len(),
    ensures
        group_back(*old(cg), *old(cg4), *final(cg)),
{
    let mut i: usize = 0;
    while i < cg.cn.len()
        invariant
            i <= cg.cn.len(),
            cg.block == old(cg).block,
            cg.block_position == old(cg).block_position,
            cg.master_channel_name == old(cg).master_channel_name,
            cg.channel_names == old(cg).channel_names,
            cg.record_length == old(cg).record_length,
            cg.cn@.len() == old(cg).cn@.len(),
            cg4.cn@.len() == old(cg).cn@.len(),
            forall|k: int| i <= k < cg.cn@.len() ==> cg.cn@[k] == old(cg).cn@[k] && cg4.cn@[k]
                == old(cg4).cn@[k],
            forall|k: int|
                0 <= k < i ==> with_samples(
                    old(cg).cn@[k],
                    #[trigger] cg.cn@[k],
                    old(cg4).cn@[k].data,
                    old(cg4).cn@[k].channel_data_valid,
                ),
        decreases cg.cn.len() - i,
    {
        let cn = &mut cg.cn[i];
        let from = &mut cg4.cn[i];
        core::mem::swap(&mut cn.data, &mut from.data);
        cn.channel_data_valid = from.channel_data_valid;
        i += 1;
    }
}

/// The number of bytes that the records of the groups take.
pub open spec fn total_bytes(cgs: Seq<Cg3>) -> nat
    decreases cgs.len(),
{
    if cgs.len() == 0 {
        0
    } else {
        total_bytes(cgs.drop_last()) + cgs.last().record_length as nat
            * cgs.last().block.cg_cycle_count as nat
    }
}

/// Computes the number of bytes that the records of the groups take.
fn records_total(cgs: &Vec<Cg3>) -> (r: u64)
    requires
        cgs@.len() <= 65535,
    ensures
        r == total_bytes(cgs@),
{
    let mut total: u64 = 0;
    let mut g: usize = 0;
    proof {
        assert(cgs@.subrange(0, 0) =~= Seq::<Cg3>::empty());
    }
    while g < cgs.len()
        invariant
            g <= cgs.len(),
            cgs@.len() <= 65535,
            total == total_bytes(cgs@.subrange(0, g as int)),
            total <= g * 0x1_0000_0000_0000,
        decreases cgs.len() - g,
    {
        proof {
            assert(cgs@.subrange(0, g + 1).drop_last() =~= cgs@.subrange(0, g as int));
            assert((cgs@[g as int].record_length as nat) * (
            cgs@[g as int].block.cg_cycle_count as nat) <= 0x1_0000_0000_0000) by (nonlinear_arith)
                requires
                    cgs@[g as int].record_length <= 0xffff,
                    cgs@[g as int].block.cg_cycle_count <= 0xffff_ffff,
            ;
            assert((g + 1) * 0x1_0000_0000_0000 == g * 0x1_0000_0000_0000 + 0x1_0000_0000_0000
                && g * 0x1_0000_0000_0000 <= 65535 * 0x1_0000_0000_0000) by (nonlinear_arith)
                requires
                    g <= 65535,
            ;
        }
        total += cgs[g].record_length as u64 * cgs[g].block.cg_cycle_count as u64;
        g += 1;
    }
    proof {
        assert(cgs@.subrange(0, g as int) =~= cgs@);
    }
    total
}

/// The stream of the records of a data group of a 3.x file: the bytes at
/// the place to which the data group links, as many as the records of its
/// groups take. An error where the file ends before them.
pub open spec fn records_stream(file: Seq<u8>, dg: Dg3) -> Result<Seq<u8>, MdfError> {
    let start = dg.block.dg_data as nat;
    let total = total_bytes(dg.cg@);
    if start + total > file.len() {
        Err(
            MdfError::CorruptBlock {
                offset: start as u64,
                expected: clamped(total),
                actual: if start >= file.len() {
                    0
                } else {
                    (file.len() - start) as u64
                },
            },
        )
    } else {
        Ok(file.subrange(start as int, (start + total) as int))
    }
}

/// `new` is the data group `old` after its records were read from `file`,
/// with the result `r`.
///
/// A data group without data or without groups, or with more groups than a
/// chain may have, is unchanged. So is one whose records the file does not
/// hold, whose error is the result. Else the data group is read in the form
/// of a 4.x data group, as `stream_read` says, and gets the samples and valid
/// flags of that form.
pub open spec fn dg3_read(
    old: Dg3,
    new: Dg3,
    file: Seq<u8>,
    names: Seq<String>,
    r: Result<(), MdfError>,
) -> bool {
    if old.block.dg_data == 0 || old.cg@.len() == 0 || !fits_chain(old) {
        r is Ok && new == old
    } else {
        match records_stream(file, old) {
            Err(e) => r == Err::<(), MdfError>(e) && new == old,
            Ok(stream) => exists|before: Dg4, after: Dg4|
                {
                    &&& #[trigger] dg4_form(old, before)
                    &&& #[trigger] stream_read(
                        before,
                        after,
                        stream,
                        names,
                        old.block.dg_data as u64,
                        r,
                    )
                    &&& samples_back(old, after, new)
                },
        }
    }
}

/// The data group has no more groups, and no group more channels, than a
/// chain may have.
pub open spec fn fits_chain(dg: Dg3) -> bool {
    &&& dg.cg@.len() <= 65535
    &&& forall|g: int| 0 <= g < dg.cg@.len() ==> (#[trigger] dg.cg@[g]).cn@.len() <= 65535
}

/// Tells whether the data group has no more groups and channels than a
/// chain may have.
fn check_chain(dg: &Dg3) -> (r: bool)
    ensures
        r == fits_chain(*dg),
{
    if dg.cg.len() > 65535 {
        return false;
    }
    let mut g: usize = 0;
    while g < dg.cg.len()
        invariant
            g <= dg.cg.len(),
            dg.cg@.len() <= 65535,
            forall|k: int| 0 <= k < g ==> (#[trigger] dg.cg@[k]).cn@.len() <= 65535,
        decreases dg.cg.len() - g,
    {
        if dg.cg[g].cn.len() > 65535 {
            return false;
        }
        g += 1;
    }
    true
}

/// Reads the records of one data group into the listed channels that are
/// not yet valid.
pub fn read_data3(file: &[u8], dg: &mut Dg3, channel_names: &Vec<String>) -> (r: Result<
    (),
    MdfError,
>)
    ensures
        dg3_read(*old(dg), *final(dg), file@, channel_names@, r),
{
    if dg.block.dg_data == 0 || dg.cg.len() == 0 || !check_chain(dg) {
        return Ok(());
    }
    let start = dg.block.dg_data as u64;
    let total = records_total(&dg.cg);
    let len = file.len() as u64;
    if start > len || total > len - start {
        return Err(
            MdfError::CorruptBlock {
                offset: start,
                expected: total,
                actual: if start >= len {
                    0
                } else {
                    len - start
                },
            },
        );
    }
    let stream = vec_at(file, start as usize, total as usize);
    let mut cgs: Vec<Cg4> = Vec::with_capacity(dg.cg.len());
    let mut g: usize = 0;
    while g < dg.cg.len()
        invariant
            g <= dg.cg.len(),
            fits_chain(*old(dg)),
            dg.block == old(dg).block,
            dg.block_position == old(dg).block_position,
            dg.cg@.len() == old(dg).cg@.len(),
            cgs@.len() == g,
            forall|k: int| g <= k < dg.cg@.len() ==> dg.cg@[k] == old(dg).cg@[k],
            forall|k: int| 0 <= k < g ==> cg4_form(old(dg).cg@[k], #[trigger] cgs@[k]),
            forall|k: int|
                0 <= k < g ==> {
                    &&& (#[trigger] dg.cg@[k]).block == old(dg).cg@[k].block
                    &&& dg.cg@[k].block_position == old(dg).cg@[k].block_position
                    &&& dg.cg@[k].master_channel_name == old(dg).cg@[k].master_channel_name
                    &&& dg.cg@[k].channel_names == old(dg).cg@[k].channel_names
                    &&& dg.cg@[k].record_length == old(dg).cg@[k].record_length
                    &&& dg.cg@[k].cn@.len() == old(dg).cg@[k].cn@.len()
                    &&& forall|i: int|
                        0 <= i < old(dg).cg@[k].cn@.len() ==> with_samples(
                            old(dg).cg@[k].cn@[i],
                            #[trigger] dg.cg@[k].cn@[i],
                            dg.cg@[k].cn@[i].data,
                            old(dg).cg@[k].cn@[i].channel_data_valid,
                        )
                },
        decreases dg.cg.len() - g,
    {
        let cg4 = take_cg4(&mut dg.cg[g]);
        cgs.push(cg4);
        g += 1;
    }
    let mut dg4 = Dg4 {
        block: Dg4Block {
            dg_dg_next: 0,
            dg_cg_first: 0,
            dg_data: dg.block.dg_data as i64,
            dg_rec_id_size: if dg.block.dg_n_record_ids > 0 {
                1
            } else {
                0
            },
        },
        block_position: dg.block_position as i64,
        cg: cgs,
    };
    let ghost before = dg4;
    let ghost emptied = *dg;
    let r = read_stream(stream, &mut dg4, channel_names, start);
    let ghost after = dg4;
    proof {
        assert forall|k: int| 0 <= k < after.cg@.len() implies (#[trigger] after.cg@[k]).cn@.len()
            == emptied.cg@[k].cn@.len() by {
            assert(crate::mdfreader::mdfreader4::same_group(before.cg@[k], after.cg@[k]));
            assert(cg4_form(old(dg).cg@[k], before.cg@[k]));
        }
    }
    let mut j: usize = 0;
    while j < dg.cg.len()
        invariant
            j <= dg.cg.len(),
            dg.block == old(dg).block,
            dg.block_position == old(dg).block_position,
            dg.cg@.len() == old(dg).cg@.len(),
            emptied.cg@.len() == old(dg).cg@.len(),
            dg4.cg@.len() == old(dg).cg@.len(),
            after.cg@.len() == old(dg).cg@.len(),
            forall|k: int| j <= k < dg.cg@.len() ==> dg.cg@[k] == emptied.cg@[k] && dg4.cg@[k]
                == after.cg@[k],
            forall|k: int|
                0 <= k < j ==> group_back(emptied.cg@[k], after.cg@[k], #[trigger] dg.cg@[k]),
            forall|k: int|
                0 <= k < after.cg@.len() ==> (#[trigger] after.cg@[k]).cn@.len()
                    == emptied.cg@[k].cn@.len(),
        decreases dg.cg.len() - j,
    {
        give_back(&mut dg.cg[j], &mut dg4.cg[j]);
        j += 1;
    }
    proof {
        assert(stream@ == records_stream(file@, *old(dg))->Ok_0);
        assert(records_stream(file@, *old(dg)) is Ok);
        assert(dg4_form(*old(dg), before));
        assert(stream_read(before, after, stream@, channel_names@, start, r));
        assert forall|k: int| 0 <= k < old(dg).cg@.len() implies group_back(
            old(dg).cg@[k],
            after.cg@[k],
            #[trigger] dg.cg@[k],
        ) by {
            assert(group_back(emptied.cg@[k], after.cg@[k], dg.cg@[k]));
        }
        assert(samples_back(*old(dg), after, *dg));
    }
    r
}

/// `new` are the data groups `old` after the records of each were read from
/// `file` in turn, with the result `r`: all were read, or the reading ended
/// at the first data group whose records cannot be read.
pub open spec fn dgs3_read(
    old: Seq<Dg3>,
    new: Seq<Dg3>,
    file: Seq<u8>,
    names: Seq<String>,
    r: Result<(), MdfError>,
) -> bool {
    &&& new.len() == old.len()
    &&& match r {
        Ok(()) => forall|i: int|
            0 <= i < old.len() ==> dg3_read(old[i], #[trigger] new[i], file, names, Ok(())),
        Err(e) => exists|k: int|
            {
                &&& 0 <= k < old.len()
                &&& #[trigger] dg3_read(old[k], new[k], file, names, Err(e))
                &&& forall|i: int|
                    0 <= i < k ==> dg3_read(old[i], #[trigger] new[i], file, names, Ok(()))
                &&& forall|i: int| k < i < old.len() ==> new[i] == old[i]
            },
    }
}

/// Reads the records of the file into the listed channels of all data
/// groups that are not yet valid.
pub fn mdfreader3(file: &[u8], info: &mut MdfInfo3, channel_names: &Vec<String>) -> (r: Result<
    (),
    MdfError,
>)
    ensures
        final(info).id_block == old(info).id_block,
        final(info).hd_block == old(info).hd_block,
        final(info).file_name == old(info).file_name,
        final(info).sharable == old(info).sharable,
        final(info).channel_names_set == old(info).channel_names_set,
        dgs3_read(old(info).dg@, final(info).dg@, file@, channel_names@, r),
{
    let mut i: usize = 0;
    while i < info.dg.len()
        invariant
            i <= info.dg.len(),
            info.id_block == old(info).id_block,
            info.hd_block == old(info).hd_block,
            info.file_name == old(info).file_name,
            info.sharable == old(info).sharable,
            info.channel_names_set == old(info).channel_names_set,
            info.dg@.len() == old(info).dg@.len(),
            forall|k: int| i <= k < info.dg@.len() ==> info.dg@[k] == old(info).dg@[k],
            forall|k: int|
                0 <= k < i ==> dg3_read(
                    old(info).dg@[k],
                    #[trigger] info.dg@[k],
                    file@,
                    channel_names@,
                    Ok(()),
                ),
        decreases info.dg.len() - i,
    {
        let one = read_data3(file, &mut info.dg[i], channel_names);
        match one {
            Ok(()) => {
                proof {
                    let o = old(info).dg@[i as int];
                    let n = info.dg@[i as int];
                    if !(o.block.dg_data == 0 || o.cg@.len() == 0 || !fits_chain(o)) {
                        let stream = records_stream(file@, o)->Ok_0;
                        let position = o.block.dg_data as u64;
                        let (before, after) = choose|before: Dg4, after: Dg4|
                            {
                                &&& #[trigger] dg4_form(o, before)
                                &&& #[trigger] stream_read(
                                    before,
                                    after,
                                    stream,
                                    channel_names@,
                                    position,
                                    one,
                                )
                                &&& samples_back(o, after, n)
                            };
                        assert(stream_read(
                            before,
                            after,
                            stream,
                            channel_names@,
                            position,
                            Ok(()),
                        ));
                    }
                    assert(dg3_read(o, n, file@, channel_names@, Ok(())));
                }
            },
            Err(e) => {
                proof {
                    assert(dg3_read(
                        old(info).dg@[i as int],
                        info.dg@[i as int],
                        file@,
                        channel_names@,
                        Err(e),
                    ));
                }
                return Err(e);
            },
        }
        i += 1;
    }
    Ok(())
}

} // verus!
