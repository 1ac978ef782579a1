//! Two readings of the same 3.x file: what is read is determined by the
//! bytes of the file.

use crate::mdfinfo::channel_db3::cg_named;
use crate::mdfinfo::channel_db3::cgs_named;
use crate::mdfinfo::channel_db3::cns_renamed;
use crate::mdfinfo::channel_db3::dgs_named;
use crate::mdfinfo::channel_db3::master_of;
use crate::mdfinfo::channel_db3::mastered_cgs;
use crate::mdfinfo::channel_db3::mastered_cns;
use crate::mdfinfo::channel_db3::mastered_dgs;
use crate::mdfinfo::channel_db3::named_cgs;
use crate::mdfinfo::channel_db3::named_cns;
use crate::mdfinfo::channel_db3::named_dgs;
use crate::mdfinfo::channel_db3::names_of;
use crate::mdfinfo::channel_db3::source_suffix;
use crate::mdfinfo::channel_db3::strings_view;
use crate::mdfinfo::channel_db3::ChannelIdView;
use crate::mdfinfo::id_error;
use crate::mdfinfo::is_info3;
use crate::mdfinfo::lemma_id_block_determined;
use crate::mdfinfo::mdfinfo3::are_cg3;
use crate::mdfinfo::mdfinfo3::are_cn3;
use crate::mdfinfo::mdfinfo3::are_dg3;
use crate::mdfinfo::mdfinfo3::cg_chain;
use crate::mdfinfo::mdfinfo3::cn_chain;
use crate::mdfinfo::mdfinfo3::cns_linked;
use crate::mdfinfo::mdfinfo3::dg_chain;
use crate::mdfinfo::mdfinfo3::is_cg3;
use crate::mdfinfo::mdfinfo3::is_cn3;
use crate::mdfinfo::mdfinfo3::is_dg3;
use crate::mdfinfo::mdfinfo3::CeBlock;
use crate::mdfinfo::mdfinfo3::CeSupplement;
use crate::mdfinfo::mdfinfo3::Cg3;
use crate::mdfinfo::mdfinfo3::Cn3;
use crate::mdfinfo::mdfinfo3::Conversion;
use crate::mdfinfo::mdfinfo3::Dg3;
use crate::mdfinfo::mdfinfo3::Hd3;
use crate::mdfinfo::mdfinfo3::MdfInfo3;
use crate::mdfinfo::mdfinfo3::RangeRow;
use crate::mdfinfo::mdfinfo3::SharableBlocks3;
use crate::mdfinfo::mdfinfo3::TextRow;
use crate::mdfinfo::mdfinfo3::MAX_CHAIN;
use crate::mdfinfo::mdfinfo4::text_of;
use crate::mdfinfo::same4::same_empty_column;
use vstd::prelude::*;

verus! {

/// Two channels without samples say the same.
pub open spec fn same_cn3(a: Cn3, b: Cn3) -> bool {
    &&& a.block1 == b.block1
    &&& a.block2 == b.block2
    &&& a.block_position == b.block_position
    &&& a.unique_name@ == b.unique_name@
    &&& a.comment@ == b.comment@
    &&& a.description@ == b.description@
    &&& a.pos_byte_beg == b.pos_byte_beg
    &&& a.n_bytes == b.n_bytes
    &&& a.endian == b.endian
    &&& a.channel_data_valid == b.channel_data_valid
    &&& same_empty_column(a.data, b.data)
}

/// Two lists of channels say the same, channel by channel.
pub open spec fn same_cns3(a: Seq<Cn3>, b: Seq<Cn3>) -> bool {
    &&& a.len() == b.len()
    &&& forall|i: int| 0 <= i < a.len() ==> same_cn3(#[trigger] a[i], b[i])
}

/// Two channel groups say the same.
pub open spec fn same_cg3(a: Cg3, b: Cg3) -> bool {
    &&& a.block == b.block
    &&& a.block_position == b.block_position
    &&& a.master_channel_name@ == b.master_channel_name@
    &&& strings_view(a.channel_names@) == strings_view(b.channel_names@)
    &&& a.record_length == b.record_length
    &&& same_cns3(a.cn@, b.cn@)
}

/// Two lists of channel groups say the same, group by group.
pub open spec fn same_cgs3(a: Seq<Cg3>, b: Seq<Cg3>) -> bool {
    &&& a.len() == b.len()
    &&& forall|i: int| 0 <= i < a.len() ==> same_cg3(#[trigger] a[i], b[i])
}

/// Two data groups say the same.
pub open spec fn same_dg3(a: Dg3, b: Dg3) -> bool {
    &&& a.block == b.block
    &&& a.block_position == b.block_position
    &&& same_cgs3(a.cg@, b.cg@)
}

/// Two lists of data groups say the same, group by group.
pub open spec fn same_dgs3(a: Seq<Dg3>, b: Seq<Dg3>) -> bool {
    &&& a.len() == b.len()
    &&& forall|i: int| 0 <= i < a.len() ==> same_dg3(#[trigger] a[i], b[i])
}

/// A channel block is read in one way only.
pub proof fn lemma_cn3_determined(
    a: Cn3,
    b: Cn3,
    data: Seq<u8>,
    target: u32,
    record_id_size: u16,
    default_byte_order: u16,
)
    requires
        is_cn3(a, data, target, record_id_size, default_byte_order),
        is_cn3(b, data, target, record_id_size, default_byte_order),
    ensures
        same_cn3(a, b),
{
    assert(a.block1.cn_id@ =~= b.block1.cn_id@);
    assert(a.block1.cn_short_name@ =~= b.block1.cn_short_name@);
    vstd::array::axiom_array_ext_equal(a.block1.cn_id, b.block1.cn_id);
    vstd::array::axiom_array_ext_equal(a.block1.cn_short_name, b.block1.cn_short_name);
    assert(a.block1 == b.block1);
    assert(a.block2 == b.block2);
}

/// A chain of channel blocks is read in one way only.
pub proof fn lemma_cns3_determined(
    a: Seq<Cn3>,
    b: Seq<Cn3>,
    offsets: Seq<u32>,
    data: Seq<u8>,
    record_id_size: u16,
    default_byte_order: u16,
)
    requires
        are_cn3(a, offsets, data, record_id_size, default_byte_order),
        are_cn3(b, offsets, data, record_id_size, default_byte_order),
    ensures
        same_cns3(a, b),
{
    assert forall|i: int| 0 <= i < a.len() implies same_cn3(#[trigger] a[i], b[i]) by {
        lemma_cn3_determined(a[i], b[i], data, offsets[i], record_id_size, default_byte_order);
    }
}

/// A channel group block with its channels is read in one way only.
pub proof fn lemma_cg3_determined(
    a: Cg3,
    b: Cg3,
    data: Seq<u8>,
    target: u32,
    record_id_size: u16,
    default_byte_order: u16,
)
    requires
        is_cg3(a, data, target, record_id_size, default_byte_order),
        is_cg3(b, data, target, record_id_size, default_byte_order),
    ensures
        same_cg3(a, b),
{
    assert(a.block.cg_id@ =~= b.block.cg_id@);
    vstd::array::axiom_array_ext_equal(a.block.cg_id, b.block.cg_id);
    assert(a.block == b.block);
    lemma_cns3_determined(
        a.cn@,
        b.cn@,
        cn_chain(data, a.block.cg_cn_first, record_id_size, MAX_CHAIN as nat)->Ok_0,
        data,
        record_id_size,
        default_byte_order,
    );
    assert(strings_view(a.channel_names@) =~= strings_view(b.channel_names@));
}

/// A chain of channel groups is read in one way only, whatever else the
/// stores of shared blocks hold.
pub proof fn lemma_cgs3_determined(
    a: Seq<Cg3>,
    b: Seq<Cg3>,
    offsets: Seq<u32>,
    data: Seq<u8>,
    record_id_size: u16,
    default_byte_order: u16,
    store_a: SharableBlocks3,
    store_b: SharableBlocks3,
)
    requires
        are_cg3(a, offsets, data, record_id_size, default_byte_order, store_a),
        are_cg3(b, offsets, data, record_id_size, default_byte_order, store_b),
    ensures
        same_cgs3(a, b),
{
    assert forall|i: int| 0 <= i < a.len() implies same_cg3(#[trigger] a[i], b[i]) by {
        lemma_cg3_determined(
            a[i],
            b[i],
            data,
            offsets[i],
            record_id_size,
            default_byte_order,
        );
    }
}

/// A chain of data groups is read in one way only.
pub proof fn lemma_dgs3_determined(
    a: Seq<Dg3>,
    b: Seq<Dg3>,
    offsets: Seq<u32>,
    data: Seq<u8>,
    default_byte_order: u16,
    store_a: SharableBlocks3,
    store_b: SharableBlocks3,
)
    requires
        are_dg3(a, offsets, data, default_byte_order, store_a),
        are_dg3(b, offsets, data, default_byte_order, store_b),
    ensures
        same_dgs3(a, b),
{
    assert forall|i: int| 0 <= i < a.len() implies same_dg3(#[trigger] a[i], b[i]) by {
        assert(is_dg3(a[i], data, offsets[i], default_byte_order, store_a));
        assert(is_dg3(b[i], data, offsets[i], default_byte_order, store_b));
        assert(a[i].block.dg_id@ =~= b[i].block.dg_id@);
        vstd::array::axiom_array_ext_equal(a[i].block.dg_id, b[i].block.dg_id);
        assert(a[i].block == b[i].block);
        lemma_cgs3_determined(
            a[i].cg@,
            b[i].cg@,
            cg_chain(
                data,
                a[i].block.dg_cg_first,
                a[i].block.dg_n_record_ids,
                MAX_CHAIN as nat,
            )->Ok_0,
            data,
            a[i].block.dg_n_record_ids,
            default_byte_order,
            store_a,
            store_b,
        );
    }
}

/// Two tables from values to texts say the same.
pub open spec fn same_text_rows(a: Seq<TextRow>, b: Seq<TextRow>) -> bool {
    &&& a.len() == b.len()
    &&& forall|i: int|
        0 <= i < a.len() ==> (#[trigger] a[i]).value == b[i].value && a[i].text@ == b[i].text@
}

/// Two tables from ranges of values to texts say the same.
pub open spec fn same_range_rows(a: Seq<RangeRow>, b: Seq<RangeRow>) -> bool {
    &&& a.len() == b.len()
    &&& forall|i: int|
        0 <= i < a.len() ==> (#[trigger] a[i]).low == b[i].low && a[i].high == b[i].high
            && a[i].text@ == b[i].text@
}

/// Two conversions say the same: the same rule with the same parameters.
pub open spec fn same_conversion(a: Conversion, b: Conversion) -> bool {
    match (a, b) {
        (Conversion::Linear(x), Conversion::Linear(y)) => x@ == y@,
        (Conversion::TabularInterpolation(x), Conversion::TabularInterpolation(y)) => x@ == y@,
        (Conversion::Tabular(x), Conversion::Tabular(y)) => x@ == y@,
        (Conversion::Polynomial(x), Conversion::Polynomial(y)) => x@ == y@,
        (Conversion::Exponential(x), Conversion::Exponential(y)) => x@ == y@,
        (Conversion::Logarithmic(x), Conversion::Logarithmic(y)) => x@ == y@,
        (Conversion::Rational(x), Conversion::Rational(y)) => x@ == y@,
        (Conversion::Formula(x), Conversion::Formula(y)) => x@ == y@,
        (Conversion::TextTable(x), Conversion::TextTable(y)) => same_text_rows(x@, y@),
        (Conversion::TextRangeTable(x), Conversion::TextRangeTable(y)) => same_range_rows(
            x@,
            y@,
        ),
        (Conversion::Date, Conversion::Date) => true,
        (Conversion::Time, Conversion::Time) => true,
        (Conversion::Identity, Conversion::Identity) => true,
        _ => false,
    }
}

/// Two channel extensions say the same.
pub open spec fn same_ce(a: CeBlock, b: CeBlock) -> bool {
    &&& a.ce_id == b.ce_id
    &&& a.ce_len == b.ce_len
    &&& a.ce_extension_type == b.ce_extension_type
    &&& match (a.ce_extension, b.ce_extension) {
        (CeSupplement::DIM(x), CeSupplement::DIM(y)) => {
            &&& x.ce_module_number == y.ce_module_number
            &&& x.ce_address == y.ce_address
            &&& x.ce_desc@ == y.ce_desc@
            &&& x.ce_ecu_id@ == y.ce_ecu_id@
        },
        (CeSupplement::CAN(x), CeSupplement::CAN(y)) => {
            &&& x.ce_can_id == y.ce_can_id
            &&& x.ce_can_index == y.ce_can_index
            &&& x.ce_message_name@ == y.ce_message_name@
            &&& x.ce_sender_name@ == y.ce_sender_name@
        },
        (CeSupplement::Absent, CeSupplement::Absent) => true,
        _ => false,
    }
}

/// Two stores of shared blocks agree: what both hold under an offset says
/// the same, and neither holds a channel extension under the offset 0.
pub open spec fn stores_agree(a: SharableBlocks3, b: SharableBlocks3) -> bool {
    &&& forall|k: u32|
        a.cc@.contains_key(k) && b.cc@.contains_key(k) ==> (#[trigger] a.cc@[k]).block
            == b.cc@[k].block && same_conversion(a.cc@[k].conversion, b.cc@[k].conversion)
    &&& forall|k: u32|
        a.ce@.contains_key(k) && b.ce@.contains_key(k) ==> same_ce(#[trigger] a.ce@[k], b.ce@[k])
    &&& !a.ce@.contains_key(0)
    &&& !b.ce@.contains_key(0)
}

/// Stores that hold blocks of the same file agree.
pub proof fn lemma_stores_agree(a: SharableBlocks3, b: SharableBlocks3, data: Seq<u8>)
    requires
        a.wf(data),
        b.wf(data),
        id_error(data) is None,
    ensures
        stores_agree(a, b),
{
    reveal(SharableBlocks3::wf);
    assert(data[0] == 0x4d) by {
        assert(crate::bytes::field(data, 0, 8)[0] == crate::mdfinfo::mdf_magic()[0]);
    }
    assert(crate::bytes::field(data, 0, 2)[0] != crate::mdfinfo::mdfinfo3::id_ce()[0]);
    assert forall|k: u32| a.cc@.contains_key(k) && b.cc@.contains_key(k) implies (
    #[trigger] a.cc@[k]).block == b.cc@[k].block && same_conversion(
        a.cc@[k].conversion,
        b.cc@[k].conversion,
    ) by {
        let x = a.cc@[k];
        let y = b.cc@[k];
        assert(x.block.cc_id@ =~= y.block.cc_id@);
        assert(x.block.cc_unit@ =~= y.block.cc_unit@);
        vstd::array::axiom_array_ext_equal(x.block.cc_id, y.block.cc_id);
        vstd::array::axiom_array_ext_equal(x.block.cc_unit, y.block.cc_unit);
        assert(x.block == y.block);
    }
    assert forall|k: u32| a.ce@.contains_key(k) && b.ce@.contains_key(k) implies same_ce(
        #[trigger] a.ce@[k],
        b.ce@[k],
    ) by {
        let x = a.ce@[k];
        let y = b.ce@[k];
        assert(x.ce_id@ =~= y.ce_id@);
        vstd::array::axiom_array_ext_equal(x.ce_id, y.ce_id);
    }
}

/// Every channel of the groups finds its blocks in the store.
pub open spec fn cgs_linked(cgs: Seq<Cg3>, sharable: SharableBlocks3) -> bool {
    forall|i: int| 0 <= i < cgs.len() ==> cns_linked((#[trigger] cgs[i]).cn@, sharable)
}

/// Every channel of the data groups finds its blocks in the store.
pub open spec fn dgs_linked(dgs: Seq<Dg3>, sharable: SharableBlocks3) -> bool {
    forall|i: int| 0 <= i < dgs.len() ==> cgs_linked((#[trigger] dgs[i]).cg@, sharable)
}

/// Channels that say the same get the same suffix from stores that agree.
pub proof fn lemma_suffix_same(a: Cn3, b: Cn3, store_a: SharableBlocks3, store_b: SharableBlocks3)
    requires
        same_cn3(a, b),
        stores_agree(store_a, store_b),
        store_a.has_ce(a.block1.cn_ce_source),
        store_b.has_ce(b.block1.cn_ce_source),
    ensures
        source_suffix(a, store_a) == source_suffix(b, store_b),
{
    let link = a.block1.cn_ce_source;
    if link != 0 {
        assert(same_ce(store_a.ce@[link], store_b.ce@[link]));
    }
}

/// Channels that say the same are filed under the same names.
pub proof fn lemma_named_cns_same(
    m: Map<Seq<char>, ChannelIdView>,
    a: Seq<Cn3>,
    b: Seq<Cn3>,
    store_a: SharableBlocks3,
    store_b: SharableBlocks3,
    dg_pos: u32,
    cg_pos: u32,
    rec_id: u16,
)
    requires
        same_cns3(a, b),
        stores_agree(store_a, store_b),
        cns_linked(a, store_a),
        cns_linked(b, store_b),
    ensures
        named_cns(m, a, store_a, dg_pos, cg_pos, rec_id) == named_cns(
            m,
            b,
            store_b,
            dg_pos,
            cg_pos,
            rec_id,
        ),
    decreases a.len(),
{
    if a.len() > 0 {
        let n = a.len() - 1;
        assert(same_cn3(a[n], b[n]));
        assert(store_a.has_ce(a[n].block1.cn_ce_source));
        assert(store_b.has_ce(b[n].block1.cn_ce_source));
        assert forall|i: int| 0 <= i < n implies same_cn3(
            #[trigger] a.drop_last()[i],
            b.drop_last()[i],
        ) by {
            assert(same_cn3(a[i], b[i]));
        }
        assert forall|i: int| 0 <= i < n implies store_a.has_cc(
            (#[trigger] a.drop_last()[i]).block1.cn_cc_conversion,
        ) && store_a.has_ce(a.drop_last()[i].block1.cn_ce_source) by {
            assert(a.drop_last()[i] == a[i]);
        }
        assert forall|i: int| 0 <= i < n implies store_b.has_cc(
            (#[trigger] b.drop_last()[i]).block1.cn_cc_conversion,
        ) && store_b.has_ce(b.drop_last()[i].block1.cn_ce_source) by {
            assert(b.drop_last()[i] == b[i]);
        }
        lemma_named_cns_same(
            m,
            a.drop_last(),
            b.drop_last(),
            store_a,
            store_b,
            dg_pos,
            cg_pos,
            rec_id,
        );
        lemma_suffix_same(a[n], b[n], store_a, store_b);
    }
}

/// Groups that say the same have their channels filed under the same names.
pub proof fn lemma_named_cgs_same(
    m: Map<Seq<char>, ChannelIdView>,
    a: Seq<Cg3>,
    b: Seq<Cg3>,
    store_a: SharableBlocks3,
    store_b: SharableBlocks3,
    dg_pos: u32,
)
    requires
        same_cgs3(a, b),
        stores_agree(store_a, store_b),
        cgs_linked(a, store_a),
        cgs_linked(b, store_b),
    ensures
        named_cgs(m, a, store_a, dg_pos) == named_cgs(m, b, store_b, dg_pos),
    decreases a.len(),
{
    if a.len() > 0 {
        let n = a.len() - 1;
        assert(same_cg3(a[n], b[n]));
        assert(cns_linked(a[n].cn@, store_a));
        assert(cns_linked(b[n].cn@, store_b));
        assert forall|i: int| 0 <= i < n implies same_cg3(
            #[trigger] a.drop_last()[i],
            b.drop_last()[i],
        ) by {
            assert(same_cg3(a[i], b[i]));
        }
        assert forall|i: int| 0 <= i < n implies cns_linked(
            (#[trigger] a.drop_last()[i]).cn@,
            store_a,
        ) by {
            assert(a.drop_last()[i] == a[i]);
        }
        assert forall|i: int| 0 <= i < n implies cns_linked(
            (#[trigger] b.drop_last()[i]).cn@,
            store_b,
        ) by {
            assert(b.drop_last()[i] == b[i]);
        }
        lemma_named_cgs_same(m, a.drop_last(), b.drop_last(), store_a, store_b, dg_pos);
        lemma_named_cns_same(
            named_cgs(m, a.drop_last(), store_a, dg_pos),
            a[n].cn@,
            b[n].cn@,
            store_a,
            store_b,
            dg_pos,
            a[n].block_position,
            a[n].block.cg_record_id,
        );
    }
}

/// Data groups that say the same have their channels filed under the same
/// names.
pub proof fn lemma_named_dgs_same(
    m: Map<Seq<char>, ChannelIdView>,
    a: Seq<Dg3>,
    b: Seq<Dg3>,
    store_a: SharableBlocks3,
    store_b: SharableBlocks3,
)
    requires
        same_dgs3(a, b),
        stores_agree(store_a, store_b),
        dgs_linked(a, store_a),
        dgs_linked(b, store_b),
    ensures
        named_dgs(m, a, store_a) == named_dgs(m, b, store_b),
    decreases a.len(),
{
    if a.len() > 0 {
        let n = a.len() - 1;
        assert(same_dg3(a[n], b[n]));
        assert(cgs_linked(a[n].cg@, store_a));
        assert(cgs_linked(b[n].cg@, store_b));
        assert forall|i: int| 0 <= i < n implies same_dg3(
            #[trigger] a.drop_last()[i],
            b.drop_last()[i],
        ) by {
            assert(same_dg3(a[i], b[i]));
        }
        assert forall|i: int| 0 <= i < n implies cgs_linked(
            (#[trigger] a.drop_last()[i]).cg@,
            store_a,
        ) by {
            assert(a.drop_last()[i] == a[i]);
        }
        assert forall|i: int| 0 <= i < n implies cgs_linked(
            (#[trigger] b.drop_last()[i]).cg@,
            store_b,
        ) by {
            assert(b.drop_last()[i] == b[i]);
        }
        lemma_named_dgs_same(m, a.drop_last(), b.drop_last(), store_a, store_b);
        lemma_named_cgs_same(
            named_dgs(m, a.drop_last(), store_a),
            a[n].cg@,
            b[n].cg@,
            store_a,
            store_b,
            a[n].block_position,
        );
    }
}

/// The first channels of lists that say the same say the same, and find
/// their blocks where the whole lists find theirs.
pub proof fn lemma_first_cns(a: Seq<Cn3>, b: Seq<Cn3>, k: int, store: SharableBlocks3)
    requires
        same_cns3(a, b),
        0 <= k <= a.len(),
    ensures
        same_cns3(a.subrange(0, k), b.subrange(0, k)),
        cns_linked(a, store) ==> cns_linked(a.subrange(0, k), store),
{
    assert forall|i: int| 0 <= i < k implies same_cn3(
        #[trigger] a.subrange(0, k)[i],
        b.subrange(0, k)[i],
    ) by {
        assert(same_cn3(a[i], b[i]));
    }
    if cns_linked(a, store) {
        assert forall|i: int| 0 <= i < k implies store.has_cc(
            (#[trigger] a.subrange(0, k)[i]).block1.cn_cc_conversion,
        ) && store.has_ce(a.subrange(0, k)[i].block1.cn_ce_source) by {
            assert(a.subrange(0, k)[i] == a[i]);
        }
    }
}

/// The first groups of lists that say the same say the same, and find their
/// blocks where the whole lists find theirs.
pub proof fn lemma_first_cgs(a: Seq<Cg3>, b: Seq<Cg3>, k: int, store: SharableBlocks3)
    requires
        same_cgs3(a, b),
        0 <= k <= a.len(),
    ensures
        same_cgs3(a.subrange(0, k), b.subrange(0, k)),
        cgs_linked(a, store) ==> cgs_linked(a.subrange(0, k), store),
{
    assert forall|i: int| 0 <= i < k implies same_cg3(
        #[trigger] a.subrange(0, k)[i],
        b.subrange(0, k)[i],
    ) by {
        assert(same_cg3(a[i], b[i]));
    }
    if cgs_linked(a, store) {
        assert forall|i: int| 0 <= i < k implies cns_linked(
            (#[trigger] a.subrange(0, k)[i]).cn@,
            store,
        ) by {
            assert(a.subrange(0, k)[i] == a[i]);
        }
    }
}

/// The first data groups of lists that say the same say the same, and find
/// their blocks where the whole lists find theirs.
pub proof fn lemma_first_dgs(a: Seq<Dg3>, b: Seq<Dg3>, k: int, store: SharableBlocks3)
    requires
        same_dgs3(a, b),
        0 <= k <= a.len(),
    ensures
        same_dgs3(a.subrange(0, k), b.subrange(0, k)),
        dgs_linked(a, store) ==> dgs_linked(a.subrange(0, k), store),
{
    assert forall|i: int| 0 <= i < k implies same_dg3(
        #[trigger] a.subrange(0, k)[i],
        b.subrange(0, k)[i],
    ) by {
        assert(same_dg3(a[i], b[i]));
    }
    if dgs_linked(a, store) {
        assert forall|i: int| 0 <= i < k implies cgs_linked(
            (#[trigger] a.subrange(0, k)[i]).cg@,
            store,
        ) by {
            assert(a.subrange(0, k)[i] == a[i]);
        }
    }
}

/// Channels that say the same have the same master.
pub proof fn lemma_master_same(a: Seq<Cn3>, b: Seq<Cn3>, cg_pos: u32)
    requires
        same_cns3(a, b),
    ensures
        master_of(a, cg_pos) == master_of(b, cg_pos),
    decreases a.len(),
{
    if a.len() > 0 {
        assert(same_cn3(a[a.len() - 1], b[b.len() - 1]));
        assert forall|i: int| 0 <= i < a.len() - 1 implies same_cn3(
            #[trigger] a.drop_last()[i],
            b.drop_last()[i],
        ) by {
            assert(same_cn3(a[i], b[i]));
        }
        lemma_master_same(a.drop_last(), b.drop_last(), cg_pos);
    }
}

/// Naming keeps channels that say the same the same.
pub proof fn lemma_cns_renamed_same(
    m: Map<Seq<char>, ChannelIdView>,
    oa: Seq<Cn3>,
    ob: Seq<Cn3>,
    na: Seq<Cn3>,
    nb: Seq<Cn3>,
    store_a: SharableBlocks3,
    store_b: SharableBlocks3,
    dg_pos: u32,
    cg_pos: u32,
    rec_id: u16,
)
    requires
        same_cns3(oa, ob),
        stores_agree(store_a, store_b),
        cns_linked(oa, store_a),
        cns_linked(ob, store_b),
        cns_renamed(m, oa, na, store_a, dg_pos, cg_pos, rec_id),
        cns_renamed(m, ob, nb, store_b, dg_pos, cg_pos, rec_id),
    ensures
        same_cns3(na, nb),
{
    assert forall|k: int| 0 <= k < na.len() implies same_cn3(#[trigger] na[k], nb[k]) by {
        assert(same_cn3(oa[k], ob[k]));
        lemma_first_cns(oa, ob, k, store_a);
        lemma_first_cns(ob, oa, k, store_b);
        lemma_named_cns_same(
            m,
            oa.subrange(0, k),
            ob.subrange(0, k),
            store_a,
            store_b,
            dg_pos,
            cg_pos,
            rec_id,
        );
        lemma_suffix_same(oa[k], ob[k], store_a, store_b);
    }
}

/// Naming keeps groups that say the same the same.
pub proof fn lemma_cgs_named_same(
    m: Map<Seq<char>, ChannelIdView>,
    oa: Seq<Cg3>,
    ob: Seq<Cg3>,
    na: Seq<Cg3>,
    nb: Seq<Cg3>,
    store_a: SharableBlocks3,
    store_b: SharableBlocks3,
    dg_pos: u32,
)
    requires
        same_cgs3(oa, ob),
        stores_agree(store_a, store_b),
        cgs_linked(oa, store_a),
        cgs_linked(ob, store_b),
        cgs_named(m, oa, na, store_a, dg_pos),
        cgs_named(m, ob, nb, store_b, dg_pos),
    ensures
        same_cgs3(na, nb),
{
    assert forall|j: int| 0 <= j < na.len() implies same_cg3(#[trigger] na[j], nb[j]) by {
        assert(same_cg3(oa[j], ob[j]));
        assert(cns_linked(oa[j].cn@, store_a));
        assert(cns_linked(ob[j].cn@, store_b));
        lemma_first_cgs(oa, ob, j, store_a);
        lemma_first_cgs(ob, oa, j, store_b);
        lemma_named_cgs_same(m, oa.subrange(0, j), ob.subrange(0, j), store_a, store_b, dg_pos);
        let before = named_cgs(m, oa.subrange(0, j), store_a, dg_pos);
        assert(cg_named(before, oa[j], na[j], store_a, dg_pos));
        assert(cg_named(before, ob[j], nb[j], store_b, dg_pos));
        lemma_cns_renamed_same(
            before,
            oa[j].cn@,
            ob[j].cn@,
            na[j].cn@,
            nb[j].cn@,
            store_a,
            store_b,
            dg_pos,
            oa[j].block_position,
            oa[j].block.cg_record_id,
        );
        lemma_master_same(na[j].cn@, nb[j].cn@, oa[j].block_position);
        assert(names_of(na[j].cn@) =~= names_of(nb[j].cn@)) by {
            assert forall|k: int| 0 <= k < na[j].cn@.len() implies names_of(na[j].cn@)[k]
                == names_of(nb[j].cn@)[k] by {
                assert(same_cn3(na[j].cn@[k], nb[j].cn@[k]));
            }
        }
    }
}

/// Naming keeps data groups that say the same the same.
pub proof fn lemma_dgs_named_same(
    m: Map<Seq<char>, ChannelIdView>,
    oa: Seq<Dg3>,
    ob: Seq<Dg3>,
    na: Seq<Dg3>,
    nb: Seq<Dg3>,
    store_a: SharableBlocks3,
    store_b: SharableBlocks3,
)
    requires
        same_dgs3(oa, ob),
        stores_agree(store_a, store_b),
        dgs_linked(oa, store_a),
        dgs_linked(ob, store_b),
        dgs_named(m, oa, na, store_a),
        dgs_named(m, ob, nb, store_b),
    ensures
        same_dgs3(na, nb),
{
    assert forall|i: int| 0 <= i < na.len() implies same_dg3(#[trigger] na[i], nb[i]) by {
        assert(same_dg3(oa[i], ob[i]));
        assert(cgs_linked(oa[i].cg@, store_a));
        assert(cgs_linked(ob[i].cg@, store_b));
        lemma_first_dgs(oa, ob, i, store_a);
        lemma_first_dgs(ob, oa, i, store_b);
        lemma_named_dgs_same(m, oa.subrange(0, i), ob.subrange(0, i), store_a, store_b);
        lemma_cgs_named_same(
            named_dgs(m, oa.subrange(0, i), store_a),
            oa[i].cg@,
            ob[i].cg@,
            na[i].cg@,
            nb[i].cg@,
            store_a,
            store_b,
            oa[i].block_position,
        );
    }
}

/// Channels that say the same get their master entered under the same
/// names.
pub proof fn lemma_mastered_cns_same(
    m: Map<Seq<char>, ChannelIdView>,
    a: Seq<Cn3>,
    b: Seq<Cn3>,
    master: Seq<char>,
)
    requires
        same_cns3(a, b),
    ensures
        mastered_cns(m, a, master) == mastered_cns(m, b, master),
    decreases a.len(),
{
    if a.len() > 0 {
        assert(same_cn3(a[a.len() - 1], b[b.len() - 1]));
        assert forall|i: int| 0 <= i < a.len() - 1 implies same_cn3(
            #[trigger] a.drop_last()[i],
            b.drop_last()[i],
        ) by {
            assert(same_cn3(a[i], b[i]));
        }
        lemma_mastered_cns_same(m, a.drop_last(), b.drop_last(), master);
    }
}

/// Groups that say the same get their masters entered alike.
pub proof fn lemma_mastered_cgs_same(m: Map<Seq<char>, ChannelIdView>, a: Seq<Cg3>, b: Seq<Cg3>)
    requires
        same_cgs3(a, b),
    ensures
        mastered_cgs(m, a) == mastered_cgs(m, b),
    decreases a.len(),
{
    if a.len() > 0 {
        assert(same_cg3(a[a.len() - 1], b[b.len() - 1]));
        assert forall|i: int| 0 <= i < a.len() - 1 implies same_cg3(
            #[trigger] a.drop_last()[i],
            b.drop_last()[i],
        ) by {
            assert(same_cg3(a[i], b[i]));
        }
        lemma_mastered_cgs_same(m, a.drop_last(), b.drop_last());
        lemma_mastered_cns_same(
            mastered_cgs(m, a.drop_last()),
            a.last().cn@,
            b.last().cn@,
            a.last().master_channel_name@,
        );
    }
}

/// Data groups that say the same get their masters entered alike.
pub proof fn lemma_mastered_dgs_same(m: Map<Seq<char>, ChannelIdView>, a: Seq<Dg3>, b: Seq<Dg3>)
    requires
        same_dgs3(a, b),
    ensures
        mastered_dgs(m, a) == mastered_dgs(m, b),
    decreases a.len(),
{
    if a.len() > 0 {
        assert(same_dg3(a[a.len() - 1], b[b.len() - 1]));
        assert forall|i: int| 0 <= i < a.len() - 1 implies same_dg3(
            #[trigger] a.drop_last()[i],
            b.drop_last()[i],
        ) by {
            assert(same_dg3(a[i], b[i]));
        }
        lemma_mastered_dgs_same(m, a.drop_last(), b.drop_last());
        lemma_mastered_cgs_same(mastered_dgs(m, a.drop_last()), a.last().cg@, b.last().cg@);
    }
}

/// Two headers say the same.
pub open spec fn same_hd3(a: Hd3, b: Hd3) -> bool {
    &&& a.hd_id == b.hd_id
    &&& a.hd_len == b.hd_len
    &&& a.hd_dg_first == b.hd_dg_first
    &&& a.hd_md_comment == b.hd_md_comment
    &&& a.hd_pr == b.hd_pr
    &&& a.hd_n_datagroups == b.hd_n_datagroups
    &&& a.hd_date == b.hd_date
    &&& a.hd_time == b.hd_time
    &&& a.hd_author@ == b.hd_author@
    &&& a.hd_organization@ == b.hd_organization@
    &&& a.hd_project@ == b.hd_project@
    &&& a.hd_subject@ == b.hd_subject@
    &&& a.hd_start_time_ns == b.hd_start_time_ns
    &&& a.hd_time_offset == b.hd_time_offset
    &&& a.hd_time_quality == b.hd_time_quality
    &&& text_of(a.hd_time_identifier) == text_of(b.hd_time_identifier)
}

/// Two readings of a 3.x file say the same: the same blocks and comment,
/// the same data groups, channel groups and channels under the same names,
/// the same places and masters filed under the same names, and the same
/// conversion or channel extension wherever both hold the block of a link.
pub open spec fn same_info3(a: MdfInfo3, b: MdfInfo3) -> bool {
    &&& a.file_name@ == b.file_name@
    &&& a.id_block == b.id_block
    &&& same_hd3(a.hd_block, b.hd_block)
    &&& a.hd_comment@ == b.hd_comment@
    &&& same_dgs3(a.dg@, b.dg@)
    &&& a.channel_names_set.map() == b.channel_names_set.map()
    &&& stores_agree(a.sharable, b.sharable)
}

/// Reading a 3.x file twice gives the same: whatever two readings of the
/// same bytes under the same name hold, they say the same.
pub proof fn lemma_info3_determined(a: MdfInfo3, b: MdfInfo3, data: Seq<u8>, file_name: Seq<char>)
    requires
        id_error(data) is None,
        is_info3(a, data, file_name),
        is_info3(b, data, file_name),
    ensures
        same_info3(a, b),
{
    lemma_id_block_determined(a.id_block, b.id_block, data);
    assert(a.hd_block.hd_id@ =~= b.hd_block.hd_id@);
    vstd::array::axiom_array_ext_equal(a.hd_block.hd_id, b.hd_block.hd_id);
    assert(same_hd3(a.hd_block, b.hd_block));
    lemma_stores_agree(a.sharable, b.sharable, data);
    let chain = dg_chain(data, a.hd_block.hd_dg_first, MAX_CHAIN as nat)->Ok_0;
    let order = a.id_block.id_default_byteorder;
    let pa = choose|pa: Seq<Dg3>|
        {
            &&& #[trigger] are_dg3(pa, chain, data, order, a.sharable)
            &&& dgs_named(Map::empty(), pa, a.dg@, a.sharable)
            &&& a.channel_names_set.map() == mastered_dgs(
                named_dgs(Map::empty(), pa, a.sharable),
                a.dg@,
            )
        };
    let pb = choose|pb: Seq<Dg3>|
        {
            &&& #[trigger] are_dg3(pb, chain, data, order, b.sharable)
            &&& dgs_named(Map::empty(), pb, b.dg@, b.sharable)
            &&& b.channel_names_set.map() == mastered_dgs(
                named_dgs(Map::empty(), pb, b.sharable),
                b.dg@,
            )
        };
    lemma_dgs3_determined(pa, pb, chain, data, order, a.sharable, b.sharable);
    assert(dgs_linked(pa, a.sharable)) by {
        assert forall|i: int| 0 <= i < pa.len() implies cgs_linked(
            (#[trigger] pa[i]).cg@,
            a.sharable,
        ) by {
            assert(is_dg3(pa[i], data, chain[i], order, a.sharable));
        }
    }
    assert(dgs_linked(pb, b.sharable)) by {
        assert forall|i: int| 0 <= i < pb.len() implies cgs_linked(
            (#[trigger] pb[i]).cg@,
            b.sharable,
        ) by {
            assert(is_dg3(pb[i], data, chain[i], order, b.sharable));
        }
    }
    lemma_dgs_named_same(Map::empty(), pa, pb, a.dg@, b.dg@, a.sharable, b.sharable);
    lemma_named_dgs_same(Map::empty(), pa, pb, a.sharable, b.sharable);
    lemma_mastered_dgs_same(named_dgs(Map::empty(), pa, a.sharable), a.dg@, b.dg@);
}

} // verus!
