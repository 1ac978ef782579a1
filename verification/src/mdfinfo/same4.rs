//! Two readings of the same 4.x file: what is read is determined by the
//! bytes of the file.

use crate::mdfinfo::channel_db4::cg4_named;
use crate::mdfinfo::channel_db4::cgs4_named;
use crate::mdfinfo::channel_db4::cns4_renamed;
use crate::mdfinfo::channel_db4::dgs4_named;
use crate::mdfinfo::channel_db4::master_of4;
use crate::mdfinfo::channel_db4::owner_in;
use crate::mdfinfo::channel_db4::owner_of;
use crate::mdfinfo::channel_db4::seen_after_cgs;
use crate::mdfinfo::channel_db4::seen_after_cns;
use crate::mdfinfo::channel_db4::seen_after_dgs;
use crate::mdfinfo::channel_db4::vlsd_linked;
use crate::mdfinfo::channel_db4::vlsd_of;
use crate::mdfinfo::graph4::are_cg4;
use crate::mdfinfo::graph4::are_cn4;
use crate::mdfinfo::graph4::are_dg4;
use crate::mdfinfo::graph4::is_cg4;
use crate::mdfinfo::graph4::is_cn4;
use crate::mdfinfo::graph4::is_dg4;
use crate::mdfinfo::mdfinfo4::Cg4;
use crate::mdfinfo::mdfinfo4::Cn4;
use crate::mdfinfo::mdfinfo4::Compo;
use crate::mdfinfo::mdfinfo4::Composition;
use crate::mdfinfo::mdfinfo4::Dg4;
use crate::mdfinfo::mdfinfo4::InvalidMask;
use crate::mdfinfo::mdfinfo4::SharableBlocks;
use crate::mdfinfo::all_vlsd_linked;
use crate::mdfinfo::channel_db4::texts_of;
use crate::mdfinfo::graph4::dg4_chain;
use crate::mdfinfo::graph4::MAX_CHAIN4;
use crate::mdfinfo::is_info4;
use crate::mdfinfo::lemma_id_block_determined;
use crate::mdfinfo::mdfinfo4::comments_view;
use crate::mdfinfo::mdfinfo4::fh_chain;
use crate::mdfinfo::mdfinfo4::is_fh_entry;
use crate::mdfinfo::mdfinfo4::MdfInfo4;
use crate::mdfinfo::mdfinfo4::MAX_HISTORY;
use crate::mdfreader::channel_data::ChannelData;
use vstd::prelude::*;

verus! {

/// Two compositions say the same: both none, both the same array, or both
/// the same structure.
pub open spec fn same_composition(a: Option<Composition>, b: Option<Composition>) -> bool {
    match (a, b) {
        (None, None) => true,
        (
            Some(Composition { block: Compo::CA(x) }),
            Some(Composition { block: Compo::CA(y) }),
        ) => x.shape@ == y.shape@ && x.pnd == y.pnd,
        (
            Some(Composition { block: Compo::CN(x) }),
            Some(Composition { block: Compo::CN(y) }),
        ) => x == y,
        _ => false,
    }
}

/// Two invalidation masks say the same.
pub open spec fn same_mask(a: Option<InvalidMask>, b: Option<InvalidMask>) -> bool {
    match (a, b) {
        (None, None) => true,
        (Some(x), Some(y)) => x.mask@ == y.mask@ && x.byte_position == y.byte_position
            && x.byte_mask == y.byte_mask,
        _ => false,
    }
}

/// Two columns are empty, of the same kind and of the same dimensions.
pub open spec fn same_empty_column(a: ChannelData, b: ChannelData) -> bool {
    &&& a.kind() == b.kind()
    &&& a.shape() == b.shape()
    &&& a.spec_len() == 0
    &&& b.spec_len() == 0
}

/// Two channels without samples say the same.
pub open spec fn same_cn4(a: Cn4, b: Cn4) -> bool {
    &&& a.block == b.block
    &&& a.block_position == b.block_position
    &&& a.rec_pos == b.rec_pos
    &&& a.unique_name@ == b.unique_name@
    &&& a.pos_byte_beg == b.pos_byte_beg
    &&& a.n_bytes == b.n_bytes
    &&& a.endian == b.endian
    &&& a.channel_data_valid == b.channel_data_valid
    &&& same_composition(a.composition, b.composition)
    &&& same_mask(a.invalid_mask, b.invalid_mask)
    &&& same_empty_column(a.data, b.data)
}

/// Two lists of channels say the same, channel by channel.
pub open spec fn same_cns4(a: Seq<Cn4>, b: Seq<Cn4>) -> bool {
    &&& a.len() == b.len()
    &&& forall|i: int| 0 <= i < a.len() ==> same_cn4(#[trigger] a[i], b[i])
}

/// Two channel groups say the same.
pub open spec fn same_cg4(a: Cg4, b: Cg4) -> bool {
    &&& a.block == b.block
    &&& a.block_position == b.block_position
    &&& a.master_channel_name@ == b.master_channel_name@
    &&& a.record_length == b.record_length
    &&& a.vlsd == b.vlsd
    &&& same_cns4(a.cn@, b.cn@)
}

/// Two lists of channel groups say the same, group by group.
pub open spec fn same_cgs4(a: Seq<Cg4>, b: Seq<Cg4>) -> bool {
    &&& a.len() == b.len()
    &&& forall|i: int| 0 <= i < a.len() ==> same_cg4(#[trigger] a[i], b[i])
}

/// Two data groups say the same.
pub open spec fn same_dg4(a: Dg4, b: Dg4) -> bool {
    &&& a.block == b.block
    &&& a.block_position == b.block_position
    &&& same_cgs4(a.cg@, b.cg@)
}

/// Two lists of data groups say the same, group by group.
pub open spec fn same_dgs4(a: Seq<Dg4>, b: Seq<Dg4>) -> bool {
    &&& a.len() == b.len()
    &&& forall|i: int| 0 <= i < a.len() ==> same_dg4(#[trigger] a[i], b[i])
}

/// A channel block is read in one way only.
pub proof fn lemma_cn4_determined(
    a: Cn4,
    b: Cn4,
    data: Seq<u8>,
    target: i64,
    index: int,
    rec_id_size: u8,
    cg_data_bytes: u32,
    cg_inval_bytes: u32,
)
    requires
        is_cn4(a, data, target, index, rec_id_size, cg_data_bytes, cg_inval_bytes),
        is_cn4(b, data, target, index, rec_id_size, cg_data_bytes, cg_inval_bytes),
    ensures
        same_cn4(a, b),
{
    assert(a.block == b.block);
    assert(a.n_bytes == b.n_bytes);
    assert(same_composition(a.composition, b.composition));
    assert(a.data.kind() == b.data.kind());
    assert(a.data.shape() == b.data.shape());
    match (a.invalid_mask, b.invalid_mask) {
        (Some(x), Some(y)) => {
            assert(x.mask@ =~= y.mask@);
        },
        _ => {},
    }
}

/// A chain of channel blocks is read in one way only, whatever else the
/// stores of conversions hold.
pub proof fn lemma_cns4_determined(
    a: Seq<Cn4>,
    b: Seq<Cn4>,
    offsets: Seq<i64>,
    data: Seq<u8>,
    rec_id_size: u8,
    cg_data_bytes: u32,
    cg_inval_bytes: u32,
    store_a: SharableBlocks,
    store_b: SharableBlocks,
)
    requires
        are_cn4(a, offsets, data, rec_id_size, cg_data_bytes, cg_inval_bytes, store_a),
        are_cn4(b, offsets, data, rec_id_size, cg_data_bytes, cg_inval_bytes, store_b),
    ensures
        same_cns4(a, b),
{
    assert forall|i: int| 0 <= i < a.len() implies same_cn4(#[trigger] a[i], b[i]) by {
        lemma_cn4_determined(
            a[i],
            b[i],
            data,
            offsets[i],
            i,
            rec_id_size,
            cg_data_bytes,
            cg_inval_bytes,
        );
    }
}

/// A channel group block with its channels is read in one way only.
pub proof fn lemma_cg4_determined(
    a: Cg4,
    b: Cg4,
    data: Seq<u8>,
    target: i64,
    rec_id_size: u8,
    store_a: SharableBlocks,
    store_b: SharableBlocks,
)
    requires
        is_cg4(a, data, target, rec_id_size, store_a),
        is_cg4(b, data, target, rec_id_size, store_b),
    ensures
        same_cg4(a, b),
{
    assert(a.block == b.block);
    lemma_cns4_determined(
        a.cn@,
        b.cn@,
        crate::mdfinfo::graph4::cn4_chain(
            data,
            a.block.cg_cn_first,
            rec_id_size,
            crate::mdfinfo::graph4::MAX_CHAIN4 as nat,
        )->Ok_0,
        data,
        rec_id_size,
        a.block.cg_data_bytes,
        a.block.cg_inval_bytes,
        store_a,
        store_b,
    );
}

/// A chain of channel groups is read in one way only.
pub proof fn lemma_cgs4_determined(
    a: Seq<Cg4>,
    b: Seq<Cg4>,
    offsets: Seq<i64>,
    data: Seq<u8>,
    rec_id_size: u8,
    store_a: SharableBlocks,
    store_b: SharableBlocks,
)
    requires
        are_cg4(a, offsets, data, rec_id_size, store_a),
        are_cg4(b, offsets, data, rec_id_size, store_b),
    ensures
        same_cgs4(a, b),
{
    assert forall|i: int| 0 <= i < a.len() implies same_cg4(#[trigger] a[i], b[i]) by {
        lemma_cg4_determined(a[i], b[i], data, offsets[i], rec_id_size, store_a, store_b);
    }
}

/// A chain of data groups is read in one way only.
pub proof fn lemma_dgs4_determined(
    a: Seq<Dg4>,
    b: Seq<Dg4>,
    offsets: Seq<i64>,
    data: Seq<u8>,
    store_a: SharableBlocks,
    store_b: SharableBlocks,
)
    requires
        are_dg4(a, offsets, data, store_a),
        are_dg4(b, offsets, data, store_b),
    ensures
        same_dgs4(a, b),
{
    assert forall|i: int| 0 <= i < a.len() implies same_dg4(#[trigger] a[i], b[i]) by {
        assert(is_dg4(a[i], data, offsets[i], store_a));
        assert(is_dg4(b[i], data, offsets[i], store_b));
        assert(a[i].block == b[i].block);
        lemma_cgs4_determined(
            a[i].cg@,
            b[i].cg@,
            crate::mdfinfo::graph4::cg4_chain(
                data,
                a[i].block.dg_cg_first,
                a[i].block.dg_rec_id_size,
                crate::mdfinfo::graph4::MAX_CHAIN4 as nat,
            )->Ok_0,
            data,
            a[i].block.dg_rec_id_size,
            store_a,
            store_b,
        );
    }
}

/// Channels that say the same have the same owner of the values of
/// variable length of a block.
pub proof fn lemma_owner_in_same(a: Seq<Cn4>, b: Seq<Cn4>, from: int, pos: i64)
    requires
        same_cns4(a, b),
    ensures
        owner_in(a, from, pos) == owner_in(b, from, pos),
    decreases a.len() - from,
{
    if 0 <= from < a.len() {
        assert(same_cn4(a[from], b[from]));
        lemma_owner_in_same(a, b, from + 1, pos);
    }
}

/// Groups that say the same have the same owner of the values of variable
/// length of a block.
pub proof fn lemma_owner_of_same(a: Seq<Cg4>, b: Seq<Cg4>, from: int, pos: i64)
    requires
        same_cgs4(a, b),
    ensures
        owner_of(a, from, pos) == owner_of(b, from, pos),
    decreases a.len() - from,
{
    if 0 <= from < a.len() {
        assert(same_cg4(a[from], b[from]));
        lemma_owner_in_same(a[from].cn@, b[from].cn@, 0, pos);
        match owner_in(a[from].cn@, 0, pos) {
            Some(i) => {
                lemma_owner_in_bounds(a[from].cn@, 0, pos);
                assert(same_cn4(a[from].cn@[i], b[from].cn@[i]));
            },
            None => {
                lemma_owner_of_same(a, b, from + 1, pos);
            },
        }
    }
}

/// The owner that is found is one of the channels.
pub proof fn lemma_owner_in_bounds(cns: Seq<Cn4>, from: int, pos: i64)
    requires
        0 <= from,
    ensures
        owner_in(cns, from, pos) is Some ==> from <= owner_in(cns, from, pos)->0 < cns.len(),
    decreases cns.len() - from,
{
    if from < cns.len() {
        lemma_owner_in_bounds(cns, from + 1, pos);
    }
}

/// Entering the owners of the values of variable length keeps groups that
/// say the same the same.
pub proof fn lemma_linked_same(pa: Seq<Cg4>, pb: Seq<Cg4>, la: Seq<Cg4>, lb: Seq<Cg4>)
    requires
        same_cgs4(pa, pb),
        vlsd_linked(pa, la),
        vlsd_linked(pb, lb),
    ensures
        same_cgs4(la, lb),
{
    assert forall|t: int| 0 <= t < la.len() implies same_cg4(#[trigger] la[t], lb[t]) by {
        assert(same_cg4(pa[t], pb[t]));
        assert(la[t].cn == pa[t].cn);
        assert(lb[t].cn == pb[t].cn);
        lemma_owner_of_same(pa, pb, 0, pa[t].block_position);
        assert(vlsd_of(pa, t) == vlsd_of(pb, t));
    }
}

/// The same for all data groups of a file.
pub proof fn lemma_all_linked_same(pa: Seq<Dg4>, pb: Seq<Dg4>, la: Seq<Dg4>, lb: Seq<Dg4>)
    requires
        same_dgs4(pa, pb),
        all_vlsd_linked(pa, la),
        all_vlsd_linked(pb, lb),
    ensures
        same_dgs4(la, lb),
{
    assert forall|i: int| 0 <= i < la.len() implies same_dg4(#[trigger] la[i], lb[i]) by {
        assert(same_dg4(pa[i], pb[i]));
        lemma_linked_same(pa[i].cg@, pb[i].cg@, la[i].cg@, lb[i].cg@);
    }
}

/// Channels that say the same take the same names.
pub proof fn lemma_seen_cns_same(seen: Seq<Seq<char>>, a: Seq<Cn4>, b: Seq<Cn4>)
    requires
        same_cns4(a, b),
    ensures
        seen_after_cns(seen, a) == seen_after_cns(seen, b),
    decreases a.len(),
{
    if a.len() > 0 {
        assert(same_cn4(a[a.len() - 1], b[b.len() - 1]));
        assert forall|i: int| 0 <= i < a.drop_last().len() implies same_cn4(
            #[trigger] a.drop_last()[i],
            b.drop_last()[i],
        ) by {
            assert(same_cn4(a[i], b[i]));
        }
        lemma_seen_cns_same(seen, a.drop_last(), b.drop_last());
    }
}

/// Groups that say the same take the same names.
pub proof fn lemma_seen_cgs_same(seen: Seq<Seq<char>>, a: Seq<Cg4>, b: Seq<Cg4>)
    requires
        same_cgs4(a, b),
    ensures
        seen_after_cgs(seen, a) == seen_after_cgs(seen, b),
    decreases a.len(),
{
    if a.len() > 0 {
        assert(same_cg4(a[a.len() - 1], b[b.len() - 1]));
        assert forall|i: int| 0 <= i < a.drop_last().len() implies same_cg4(
            #[trigger] a.drop_last()[i],
            b.drop_last()[i],
        ) by {
            assert(same_cg4(a[i], b[i]));
        }
        lemma_seen_cgs_same(seen, a.drop_last(), b.drop_last());
        lemma_seen_cns_same(seen_after_cgs(seen, a.drop_last()), a.last().cn@, b.last().cn@);
    }
}

/// Data groups that say the same take the same names.
pub proof fn lemma_seen_dgs_same(seen: Seq<Seq<char>>, a: Seq<Dg4>, b: Seq<Dg4>)
    requires
        same_dgs4(a, b),
    ensures
        seen_after_dgs(seen, a) == seen_after_dgs(seen, b),
    decreases a.len(),
{
    if a.len() > 0 {
        assert(same_dg4(a[a.len() - 1], b[b.len() - 1]));
        assert forall|i: int| 0 <= i < a.drop_last().len() implies same_dg4(
            #[trigger] a.drop_last()[i],
            b.drop_last()[i],
        ) by {
            assert(same_dg4(a[i], b[i]));
        }
        lemma_seen_dgs_same(seen, a.drop_last(), b.drop_last());
        lemma_seen_cgs_same(seen_after_dgs(seen, a.drop_last()), a.last().cg@, b.last().cg@);
    }
}

/// Channels that say the same have the same master.
pub proof fn lemma_master_same(a: Seq<Cn4>, b: Seq<Cn4>, from: int, block_position: i64)
    requires
        same_cns4(a, b),
    ensures
        master_of4(a, from, block_position) == master_of4(b, from, block_position),
    decreases a.len() - from,
{
    if 0 <= from < a.len() {
        assert(same_cn4(a[from], b[from]));
        lemma_master_same(a, b, from + 1, block_position);
    }
}

/// Naming keeps channels that say the same the same.
pub proof fn lemma_cns_renamed_same(
    seen: Seq<Seq<char>>,
    oa: Seq<Cn4>,
    ob: Seq<Cn4>,
    na: Seq<Cn4>,
    nb: Seq<Cn4>,
)
    requires
        same_cns4(oa, ob),
        cns4_renamed(seen, oa, na),
        cns4_renamed(seen, ob, nb),
    ensures
        same_cns4(na, nb),
{
    assert forall|k: int| 0 <= k < na.len() implies same_cn4(#[trigger] na[k], nb[k]) by {
        assert(same_cn4(oa[k], ob[k]));
        assert forall|i: int| 0 <= i < k implies same_cn4(
            #[trigger] oa.subrange(0, k)[i],
            ob.subrange(0, k)[i],
        ) by {
            assert(same_cn4(oa[i], ob[i]));
        }
        lemma_seen_cns_same(seen, oa.subrange(0, k), ob.subrange(0, k));
    }
}

/// Naming keeps groups that say the same the same.
pub proof fn lemma_cgs_named_same(
    seen: Seq<Seq<char>>,
    oa: Seq<Cg4>,
    ob: Seq<Cg4>,
    na: Seq<Cg4>,
    nb: Seq<Cg4>,
)
    requires
        same_cgs4(oa, ob),
        cgs4_named(seen, oa, na),
        cgs4_named(seen, ob, nb),
    ensures
        same_cgs4(na, nb),
{
    assert forall|j: int| 0 <= j < na.len() implies same_cg4(#[trigger] na[j], nb[j]) by {
        assert(same_cg4(oa[j], ob[j]));
        assert forall|i: int| 0 <= i < j implies same_cg4(
            #[trigger] oa.subrange(0, j)[i],
            ob.subrange(0, j)[i],
        ) by {
            assert(same_cg4(oa[i], ob[i]));
        }
        lemma_seen_cgs_same(seen, oa.subrange(0, j), ob.subrange(0, j));
        let before = seen_after_cgs(seen, oa.subrange(0, j));
        assert(cg4_named(before, oa[j], na[j]));
        assert(cg4_named(before, ob[j], nb[j]));
        lemma_cns_renamed_same(before, oa[j].cn@, ob[j].cn@, na[j].cn@, nb[j].cn@);
        lemma_master_same(na[j].cn@, nb[j].cn@, 0, oa[j].block_position);
    }
}

/// Naming keeps data groups that say the same the same.
pub proof fn lemma_dgs_named_same(
    seen: Seq<Seq<char>>,
    oa: Seq<Dg4>,
    ob: Seq<Dg4>,
    na: Seq<Dg4>,
    nb: Seq<Dg4>,
)
    requires
        same_dgs4(oa, ob),
        dgs4_named(seen, oa, na),
        dgs4_named(seen, ob, nb),
    ensures
        same_dgs4(na, nb),
{
    assert forall|i: int| 0 <= i < na.len() implies same_dg4(#[trigger] na[i], nb[i]) by {
        assert(same_dg4(oa[i], ob[i]));
        assert forall|k: int| 0 <= k < i implies same_dg4(
            #[trigger] oa.subrange(0, i)[k],
            ob.subrange(0, i)[k],
        ) by {
            assert(same_dg4(oa[k], ob[k]));
        }
        lemma_seen_dgs_same(seen, oa.subrange(0, i), ob.subrange(0, i));
        lemma_cgs_named_same(
            seen_after_dgs(seen, oa.subrange(0, i)),
            oa[i].cg@,
            ob[i].cg@,
            na[i].cg@,
            nb[i].cg@,
        );
    }
}

/// Two readings of a 4.x file say the same: the same blocks, comments and
/// history, the same data groups, channel groups and channels under the same
/// names, the same names of all channels, and the same conversion wherever
/// both hold the conversion of a link.
pub open spec fn same_info4(a: MdfInfo4, b: MdfInfo4) -> bool {
    &&& a.file_name@ == b.file_name@
    &&& a.id_block == b.id_block
    &&& a.hd_block == b.hd_block
    &&& comments_view(a.hd_comment@) == comments_view(b.hd_comment@)
    &&& a.fh@.len() == b.fh@.len()
    &&& forall|i: int|
        0 <= i < a.fh@.len() ==> (#[trigger] a.fh@[i]).block == b.fh@[i].block && comments_view(
            a.fh@[i].comments@,
        ) == comments_view(b.fh@[i].comments@)
    &&& same_dgs4(a.dg@, b.dg@)
    &&& texts_of(a.channel_names@) == texts_of(b.channel_names@)
    &&& forall|k: i64|
        a.sharable.cc@.contains_key(k) && b.sharable.cc@.contains_key(k) ==> (
        #[trigger] a.sharable.cc@[k]).cc_type == b.sharable.cc@[k].cc_type
            && a.sharable.cc@[k].cc_val@ == b.sharable.cc@[k].cc_val@
}

/// Reading a 4.x file twice gives the same: whatever two readings of the
/// same bytes under the same name hold, they say the same.
pub proof fn lemma_info4_determined(a: MdfInfo4, b: MdfInfo4, data: Seq<u8>, file_name: Seq<char>)
    requires
        is_info4(a, data, file_name),
        is_info4(b, data, file_name),
    ensures
        same_info4(a, b),
{
    lemma_id_block_determined(a.id_block, b.id_block, data);
    assert(a.hd_block == b.hd_block) by {
        assert(a.hd_block.hd_id@ =~= b.hd_block.hd_id@);
        assert(a.hd_block.hd_reserved@ =~= b.hd_block.hd_reserved@);
        vstd::array::axiom_array_ext_equal(a.hd_block.hd_id, b.hd_block.hd_id);
        vstd::array::axiom_array_ext_equal(a.hd_block.hd_reserved, b.hd_block.hd_reserved);
    }
    let offsets = fh_chain(data, a.hd_block.hd_fh_first, MAX_HISTORY as nat)->Ok_0;
    assert forall|i: int| 0 <= i < a.fh@.len() implies (#[trigger] a.fh@[i]).block
        == b.fh@[i].block && comments_view(a.fh@[i].comments@) == comments_view(
        b.fh@[i].comments@,
    ) by {
        let x = a.fh@[i];
        let y = b.fh@[i];
        assert(is_fh_entry(x, data, offsets[i]));
        assert(is_fh_entry(y, data, offsets[i]));
        assert(x.block.fh_id@ =~= y.block.fh_id@);
        assert(x.block.fh_gap@ =~= y.block.fh_gap@);
        assert(x.block.fh_reserved@ =~= y.block.fh_reserved@);
        vstd::array::axiom_array_ext_equal(x.block.fh_id, y.block.fh_id);
        vstd::array::axiom_array_ext_equal(x.block.fh_gap, y.block.fh_gap);
        vstd::array::axiom_array_ext_equal(x.block.fh_reserved, y.block.fh_reserved);
        assert(x.block == y.block);
    }
    let chain = dg4_chain(data, a.hd_block.hd_dg_first, MAX_CHAIN4 as nat)->Ok_0;
    let (pa, la) = choose|pa: Seq<Dg4>, la: Seq<Dg4>|
        {
            &&& #[trigger] are_dg4(pa, chain, data, a.sharable)
            &&& #[trigger] all_vlsd_linked(pa, la)
            &&& dgs4_named(Seq::empty(), la, a.dg@)
            &&& texts_of(a.channel_names@) == seen_after_dgs(Seq::empty(), la)
        };
    let (pb, lb) = choose|pb: Seq<Dg4>, lb: Seq<Dg4>|
        {
            &&& #[trigger] are_dg4(pb, chain, data, b.sharable)
            &&& #[trigger] all_vlsd_linked(pb, lb)
            &&& dgs4_named(Seq::empty(), lb, b.dg@)
            &&& texts_of(b.channel_names@) == seen_after_dgs(Seq::empty(), lb)
        };
    lemma_dgs4_determined(pa, pb, chain, data, a.sharable, b.sharable);
    lemma_all_linked_same(pa, pb, la, lb);
    lemma_dgs_named_same(Seq::empty(), la, lb, a.dg@, b.dg@);
    lemma_seen_dgs_same(Seq::empty(), la, lb);
    reveal(SharableBlocks::wf);
}

} // verus!
