//! Reading the data blocks of a 4.x file into the columns of its channels.

use crate::error::MdfError;
use crate::mdfinfo::mdfinfo4::Cg4;
use crate::mdfinfo::mdfinfo4::Dg4;
use crate::mdfinfo::mdfinfo4::MdfInfo4;
use crate::mdfreader::bit_field::bits_normalised;
use crate::mdfreader::data_blocks::data_stream;
use crate::mdfreader::data_blocks::read_data_stream;
use crate::mdfreader::data_read4::entries_per_sample;
use crate::mdfreader::data_read4::fixed_length_type;
use crate::mdfreader::data_read4::value_shape;
use crate::mdfreader::data_read4::values_per_record;
use crate::mdfreader::data_read4::layout_of;
use crate::mdfreader::unsorted::read_all_channels_unsorted_from_bytes;
use crate::mdfreader::unsorted::stream_corrupt;
use crate::mdfreader::unsorted::stream_end;
use crate::mdfreader::unsorted::unsorted_read;
use crate::mdfinfo::mdfinfo4::Cn4;
use crate::mdfinfo::mdfinfo4::Compo;
use crate::mdfinfo::mdfinfo4::Composition;
use crate::mdfreader::bit_field::data_normalised;
use crate::mdfreader::bit_field::has_bit_field;
use crate::mdfreader::bit_field::normalise_bits;
use crate::mdfreader::channel_data::counting_ints;
use crate::mdfreader::channel_data::data_init;
use crate::mdfreader::channel_data::elem_kind_of;
use crate::mdfreader::channel_data::empty_array;
use crate::mdfreader::channel_data::is_zeroed;
use crate::mdfreader::channel_data::kind_of;
use crate::mdfreader::channel_data::product_of;
use crate::mdfreader::channel_data::shape_product;
use crate::mdfreader::channel_data::stored_len;
use crate::mdfreader::channel_data::virtual_type;
use crate::mdfreader::channel_data::ChannelData;
use crate::mdfreader::channel_data::ElemKind;
use crate::mdfreader::data_read4::channel_layout;
use crate::mdfreader::data_read4::channel_read;
use crate::mdfreader::data_read4::decode_plan;
use crate::mdfreader::data_read4::has_room;
use crate::mdfreader::data_read4::channel_selected;
use crate::mdfreader::data_read4::is_listed;
use crate::mdfreader::data_read4::plan_of;
use crate::mdfreader::data_read4::lemma_chunked_read;
use crate::mdfreader::data_read4::lemma_decode_nothing;
use crate::mdfreader::data_read4::name_listed;
use crate::mdfreader::data_read4::read_channels_from_bytes;
use crate::mdfreader::data_read4::same_description;
use vstd::prelude::*;

verus! {

/// The number of bytes of records that are decoded in one go. A large value
/// saves calls, a small one saves memory.
pub const CHUNK_SIZE_READING: usize = 524288;

/// The number of chunks in which the records of a group are read, not
/// counting a last shorter one.
pub open spec fn chunk_count(record_length: nat, cycle_count: nat) -> nat {
    (record_length * cycle_count) / (CHUNK_SIZE_READING as nat) + 1
}

/// The number of records in each of those chunks.
pub open spec fn records_per_chunk(record_length: nat, cycle_count: nat) -> nat {
    ((record_length * cycle_count) / chunk_count(record_length, cycle_count)) / record_length
}

/// The chunks in which the records of a group are read: for each its number
/// of records and its number of bytes. Chunks of equal size come first; the
/// records that are left over make a last chunk.
pub open spec fn chunk_plan(record_length: nat, cycle_count: nat) -> Seq<(usize, usize)> {
    let n = chunk_count(record_length, cycle_count);
    let per = records_per_chunk(record_length, cycle_count);
    let rest = cycle_count - per * n;
    let full = Seq::new(n, |i: int| (per as usize, (record_length * per) as usize));
    if rest > 0 {
        full.push((rest as usize, (record_length * rest) as usize))
    } else {
        full
    }
}

/// The number of records in the chunks of a plan.
pub open spec fn planned_records(plan: Seq<(usize, usize)>) -> nat
    decreases plan.len(),
{
    if plan.len() == 0 {
        0
    } else {
        planned_records(plan.drop_last()) + plan.last().0 as nat
    }
}

/// The chunks of equal size hold no more records than the group has.
pub proof fn lemma_chunk_sizes(record_length: nat, cycle_count: nat)
    requires
        record_length > 0,
    ensures
        records_per_chunk(record_length, cycle_count) * chunk_count(record_length, cycle_count)
            <= cycle_count,
        records_per_chunk(record_length, cycle_count) <= cycle_count,
        record_length * records_per_chunk(record_length, cycle_count) <= record_length
            * cycle_count,
        chunk_count(record_length, cycle_count) <= record_length * cycle_count + 1,
{
    let total = (record_length * cycle_count) as int;
    let n = chunk_count(record_length, cycle_count) as int;
    let q = total / n;
    let per = q / (record_length as int);
    let rl = record_length as int;
    let cc = cycle_count as int;
    assert(total >= 0) by (nonlinear_arith)
        requires
            total == rl * cc,
            rl >= 0,
            cc >= 0,
    ;
    vstd::arithmetic::div_mod::lemma_div_pos_is_pos(total, CHUNK_SIZE_READING as int);
    vstd::arithmetic::div_mod::lemma_div_is_ordered_by_denominator(
        total,
        1,
        CHUNK_SIZE_READING as int,
    );
    vstd::arithmetic::div_mod::lemma_div_basics(total);
    vstd::arithmetic::div_mod::lemma_fundamental_div_mod(total, n);
    vstd::arithmetic::div_mod::lemma_mod_bound(total, n);
    vstd::arithmetic::div_mod::lemma_div_pos_is_pos(total, n);
    vstd::arithmetic::div_mod::lemma_fundamental_div_mod(q, rl);
    vstd::arithmetic::div_mod::lemma_mod_bound(q, rl);
    vstd::arithmetic::div_mod::lemma_div_pos_is_pos(q, rl);
    assert(per * n <= cc && per <= cc && rl * per <= rl * cc) by (nonlinear_arith)
        requires
            total == rl * cc,
            total == n * q + total % n,
            0 <= total % n,
            q == rl * per + q % rl,
            0 <= q % rl,
            rl > 0,
            n >= 1,
            per >= 0,
            cc >= 0,
            q >= 0,
    ;
}

/// A plan of `n` chunks of `per` records holds `n * per` records.
proof fn lemma_equal_chunks(n: nat, chunk: (usize, usize))
    ensures
        planned_records(Seq::new(n, |i: int| chunk)) == n * (chunk.0 as nat),
    decreases n,
{
    let plan = Seq::new(n, |i: int| chunk);
    if n > 0 {
        assert(plan.drop_last() =~= Seq::new((n - 1) as nat, |i: int| chunk));
        lemma_equal_chunks((n - 1) as nat, chunk);
        assert((n - 1) * (chunk.0 as nat) + chunk.0 as nat == n * (chunk.0 as nat))
            by (nonlinear_arith);
    } else {
        assert(0 * (chunk.0 as nat) == 0) by (nonlinear_arith);
    }
}

/// The chunks of a plan hold every record of the group once, and each
/// chunk's bytes are those of its records.
pub proof fn lemma_chunks_cover(record_length: nat, cycle_count: nat)
    requires
        record_length > 0,
        record_length * cycle_count <= usize::MAX,
    ensures
        planned_records(chunk_plan(record_length, cycle_count)) == cycle_count,
        forall|i: int|
            0 <= i < chunk_plan(record_length, cycle_count).len() ==> (#[trigger] chunk_plan(
                record_length,
                cycle_count,
            )[i]).1 == record_length * chunk_plan(record_length, cycle_count)[i].0,
{
    lemma_chunk_sizes(record_length, cycle_count);
    let n = chunk_count(record_length, cycle_count);
    let per = records_per_chunk(record_length, cycle_count);
    let rest = cycle_count - per * n;
    let chunk = (per as usize, (record_length * per) as usize);
    let full = Seq::new(n, |i: int| chunk);
    lemma_equal_chunks(n, chunk);
    assert(n * per == per * n) by (nonlinear_arith);
    assert(rest <= cycle_count && record_length * rest <= record_length * cycle_count)
        by (nonlinear_arith)
        requires
            rest == cycle_count - per * n,
            per * n >= 0,
            rest >= 0,
            record_length >= 0,
    ;
    assert(cycle_count <= record_length * cycle_count) by (nonlinear_arith)
        requires
            record_length >= 1,
    ;
    if rest > 0 {
        assert(full.push((rest as usize, (record_length * rest) as usize)).drop_last() =~= full);
    }
}

/// Plans the chunks in which the records of the group are read.
pub fn generate_chunks(channel_group: &Cg4) -> (chunks: Vec<(usize, usize)>)
    requires
        channel_group.record_length > 0,
        channel_group.record_length * channel_group.block.cg_cycle_count <= usize::MAX,
    ensures
        chunks@ == chunk_plan(
            channel_group.record_length as nat,
            channel_group.block.cg_cycle_count as nat,
        ),
{
    let ghost rl = channel_group.record_length as nat;
    let ghost cc = channel_group.block.cg_cycle_count as nat;
    proof {
        lemma_chunk_sizes(rl, cc);
        assert(cc <= rl * cc) by (nonlinear_arith)
            requires
                rl >= 1,
        ;
    }
    let record_length = channel_group.record_length as usize;
    let cg_cycle_count = channel_group.block.cg_cycle_count as usize;
    let total = record_length * cg_cycle_count;
    let n_chunks = total / CHUNK_SIZE_READING + 1;
    let chunk_length = total / n_chunks;
    let n_record_chunk = chunk_length / record_length;
    let chunk = (n_record_chunk, record_length * n_record_chunk);
    let mut chunks: Vec<(usize, usize)> = Vec::with_capacity(n_chunks);
    let mut i: usize = 0;
    while i < n_chunks
        invariant
            i <= n_chunks,
            chunks@ == Seq::new(i as nat, |k: int| chunk),
        decreases n_chunks - i,
    {
        chunks.push(chunk);
        proof {
            assert(chunks@ =~= Seq::new((i + 1) as nat, |k: int| chunk));
        }
        i += 1;
    }
    let rest = cg_cycle_count - n_record_chunk * n_chunks;
    if rest > 0 {
        proof {
            assert(record_length * rest <= record_length * cg_cycle_count) by (nonlinear_arith)
                requires
                    rest <= cg_cycle_count,
            ;
        }
        chunks.push((rest, record_length * rest));
    }
    chunks
}

/// The dimensions of a sample in the column that is made for the channel:
/// those of its array block where it has one and holds numbers that are
/// stored, and none otherwise.
pub open spec fn init_shape(cn: Cn4) -> Option<Seq<usize>> {
    if !virtual_type(cn.block.cn_type) && kind_of(
        cn.block.cn_type,
        cn.block.cn_data_type,
        cn.n_bytes,
    ).numeric() {
        match cn.composition {
            Some(Composition { block: Compo::CA(ca) }) => Some(ca.shape@),
            _ => None,
        }
    } else {
        None
    }
}

/// A column for `cycle_count` samples of the channel can be made: its size
/// fits the machine's word, and the array block, if any, is consistent.
pub open spec fn init_possible(cn: Cn4, cycle_count: u64) -> bool {
    &&& cycle_count * (if cn.n_bytes > 2 {
        cn.n_bytes as nat
    } else {
        2
    }) <= usize::MAX
    &&& match (init_shape(cn), cn.composition) {
        (Some(shape), Some(Composition { block: Compo::CA(ca) })) => {
            &&& ca.pnd == shape_product(shape)
            &&& stored_len(
                kind_of(cn.block.cn_type, cn.block.cn_data_type, cn.n_bytes),
                Some(shape),
                cycle_count as nat,
                cn.n_bytes as nat,
            ) <= usize::MAX
        },
        _ => true,
    }
}

/// `new` is the channel `old` with a fresh column for `cycle_count` samples:
/// the numbers from 0 on for a virtual channel, and else zeros, empty strings
/// or zeroed byte strings in the representation that the channel's data type
/// calls for. All samples count as valid. Where no such column can be made,
/// the channel's column is emptied.
pub open spec fn initialised(old: Cn4, new: Cn4, cycle_count: u64) -> bool {
    if init_possible(old, cycle_count) {
        &&& same_description(old, new)
        &&& new.channel_data_valid == old.channel_data_valid
        &&& new.data.shape() == init_shape(old)
        &&& if virtual_type(old.block.cn_type) {
            &&& new.data.kind() == ElemKind::UInt64
            &&& new.data.ints() == counting_ints(cycle_count as nat)
            &&& new.data.spec_len() == cycle_count
        } else {
            &&& new.data.kind() == kind_of(
                old.block.cn_type,
                old.block.cn_data_type,
                old.n_bytes,
            )
            &&& is_zeroed(new.data, cycle_count as nat, old.n_bytes as nat)
        }
        &&& match old.invalid_mask {
            Some(m) => {
                &&& new.invalid_mask is Some
                &&& new.invalid_mask->0.byte_position == m.byte_position
                &&& new.invalid_mask->0.byte_mask == m.byte_mask
                &&& new.invalid_mask->0.mask@ == Seq::new(cycle_count as nat, |i: int| true)
            },
            None => new.invalid_mask is None,
        }
    } else {
        &&& same_description(old, new)
        &&& new.channel_data_valid == old.channel_data_valid
        &&& new.invalid_mask == old.invalid_mask
        &&& new.data.kind() == ElemKind::UInt8
        &&& new.data.shape() is None
        &&& new.data.spec_len() == 0
    }
}

/// Makes the column of one channel.
fn initialise_channel(cn: &mut Cn4, cycle_count: u64)
    ensures
        initialised(*old(cn), *final(cn), cycle_count),
{
    let width: u64 = if cn.n_bytes > 2 {
        cn.n_bytes as u64
    } else {
        2
    };
    match cycle_count.checked_mul(width) {
        Some(t) => {
            if t > usize::MAX as u64 {
                cn.data = ChannelData::default();
                return ;
            }
        },
        None => {
            cn.data = ChannelData::default();
            return ;
        },
    }
    let cn_type = cn.block.cn_type;
    let is_virtual = cn_type == 3 || cn_type == 6;
    let kind = elem_kind_of(cn_type, cn.block.cn_data_type, cn.n_bytes);
    let mut array: Option<(Vec<usize>, usize)> = None;
    if !is_virtual && kind.is_numeric() {
        match &cn.composition {
            Some(compo) => match &compo.block {
                Compo::CA(ca) => {
                    array = Some((ca.shape.clone(), ca.pnd));
                },
                Compo::CN(_) => {},
            },
            None => {},
        }
    }
    let data = match array {
        Some((shape, pnd)) => {
            match product_of(&shape) {
                Some(p) => {
                    if p != pnd {
                        cn.data = ChannelData::default();
                        return ;
                    }
                },
                None => {
                    cn.data = ChannelData::default();
                    return ;
                },
            }
            let model = empty_array(kind, shape);
            match model.stored_count(cycle_count, cn.n_bytes) {
                Some(_) => {},
                None => {
                    cn.data = ChannelData::default();
                    return ;
                },
            }
            proof {
                assert(cycle_count <= usize::MAX) by (nonlinear_arith)
                    requires
                        cycle_count * width <= usize::MAX,
                        width >= 2,
                ;
            }
            model.zeros(cycle_count, cn.n_bytes)
        },
        None => data_init(cn_type, cn.block.cn_data_type, cn.n_bytes, cycle_count),
    };
    proof {
        assert(cycle_count <= usize::MAX) by (nonlinear_arith)
            requires
                cycle_count * width <= usize::MAX,
                width >= 2,
        ;
    }
    cn.data = data;
    match &mut cn.invalid_mask {
        Some(m) => {
            let fresh = vec![true; cycle_count as usize];
            proof {
                assert(fresh@ =~= Seq::new(cycle_count as nat, |i: int| true));
            }
            m.mask = fresh;
        },
        None => {},
    }
}

/// Makes the columns of the listed channels of the group that are not yet
/// valid, each for `cycle_count` samples.
pub fn initialise_arrays(
    channel_group: &mut Cg4,
    channel_names_to_read_in_dg: &Vec<String>,
    cycle_count: u64,
)
    ensures
        same_group(*old(channel_group), *final(channel_group)),
        forall|i: int|
            0 <= i < old(channel_group).cn@.len() ==> if name_listed(
                channel_names_to_read_in_dg@,
                old(channel_group).cn@[i].unique_name@,
            ) && !old(channel_group).cn@[i].channel_data_valid {
                initialised(
                    old(channel_group).cn@[i],
                    #[trigger] final(channel_group).cn@[i],
                    cycle_count,
                )
            } else {
                final(channel_group).cn@[i] == old(channel_group).cn@[i]
            },
{
    let mut i: usize = 0;
    while i < channel_group.cn.len()
        invariant
            i <= channel_group.cn.len(),
            same_group(*old(channel_group), *channel_group),
            forall|j: int|
                0 <= j < i ==> if name_listed(
                    channel_names_to_read_in_dg@,
                    old(channel_group).cn@[j].unique_name@,
                ) && !old(channel_group).cn@[j].channel_data_valid {
                    initialised(
                        old(channel_group).cn@[j],
                        #[trigger] channel_group.cn@[j],
                        cycle_count,
                    )
                } else {
                    channel_group.cn@[j] == old(channel_group).cn@[j]
                },
            forall|j: int|
                i <= j < channel_group.cn@.len() ==> channel_group.cn@[j] == old(
                    channel_group,
                ).cn@[j],
        decreases channel_group.cn.len() - i,
    {
        let cn = &mut channel_group.cn[i];
        if is_listed(channel_names_to_read_in_dg, &cn.unique_name) && !cn.channel_data_valid {
            initialise_channel(cn, cycle_count);
        }
        i += 1;
    }
}

/// Everything of a group but its channels is the same in `a` and `b`, and
/// both have as many channels.
pub open spec fn same_group(a: Cg4, b: Cg4) -> bool {
    &&& a.block == b.block
    &&& a.block_position == b.block_position
    &&& a.master_channel_name == b.master_channel_name
    &&& a.record_length == b.record_length
    &&& a.vlsd == b.vlsd
    &&& a.cn@.len() == b.cn@.len()
}

/// A channel whose column was made for `cycle_count` samples has room for
/// them.
pub proof fn lemma_initialised_has_room(
    old: Cn4,
    new: Cn4,
    cycle_count: u64,
    record_length: nat,
)
    requires
        init_possible(old, cycle_count),
        initialised(old, new, cycle_count),
        record_length <= usize::MAX,
    ensures
        has_room(new, record_length, cycle_count as nat),
{
    match channel_layout(new, record_length) {
        Some(lay) => {
            let kind = new.data.kind();
            let per = lay.per_record as nat;
            let cc = cycle_count as nat;
            let pnd = entries_per_sample(new)->0;
            let comps = kind.components();
            assert(value_shape(new) is Some);
            assert(per == values_per_record(kind, new.n_bytes as nat, pnd));
            if virtual_type(old.block.cn_type) {
                assert(kind == ElemKind::UInt64);
                assert(new.data.shape() is None);
                assert(pnd == 1 && comps == 1);
                assert(per == 1) by (nonlinear_arith)
                    requires
                        per == comps * pnd,
                        comps == 1,
                        pnd == 1,
                ;
                assert(cc * per == cc) by (nonlinear_arith)
                    requires
                        per == 1,
                ;
            } else {
                let len = stored_len(kind, new.data.shape(), cc, old.n_bytes as nat);
                assert(new.data.spec_len() == len);
                if kind.numeric() {
                    match new.data.shape() {
                        Some(shape) => {
                            assert(pnd == shape_product(shape));
                            assert(len == cc * per) by (nonlinear_arith)
                                requires
                                    len == cc * (comps * shape_product(shape)),
                                    per == comps * pnd,
                                    pnd == shape_product(shape),
                            ;
                        },
                        None => {
                            assert(pnd == 1);
                            assert(len == cc * per) by (nonlinear_arith)
                                requires
                                    len == cc * comps,
                                    per == comps * pnd,
                                    pnd == 1,
                            ;
                        },
                    }
                } else if kind is FixedSizeByteArray {
                    assert(len == cc * per);
                } else {
                    assert(pnd == 1 && comps == 1);
                    assert(per == 1) by (nonlinear_arith)
                        requires
                            per == comps * pnd,
                            comps == 1,
                            pnd == 1,
                    ;
                    assert(len == cc * per) by (nonlinear_arith)
                        requires
                            len == cc,
                            per == 1,
                    ;
                }
            }
        },
        None => {},
    }
}

/// A channel that has room for a number of samples has room for fewer.
pub proof fn lemma_room_for_fewer(cn: Cn4, record_length: nat, samples: nat, fewer: nat)
    requires
        has_room(cn, record_length, samples),
        fewer <= samples,
    ensures
        has_room(cn, record_length, fewer),
{
    match channel_layout(cn, record_length) {
        Some(lay) => {
            assert(fewer * lay.per_record <= samples * lay.per_record) by (nonlinear_arith)
                requires
                    fewer <= samples,
                    lay.per_record >= 0,
            ;
        },
        None => {},
    }
}

/// Reading no record leaves a channel as it is.
pub proof fn lemma_read_nothing(
    cn: Cn4,
    record_length: nat,
    previous_index: nat,
    names: Seq<String>,
    record_with_invalid_data: bool,
)
    requires
        record_length > 0,
    ensures
        channel_read(
            cn,
            cn,
            Seq::<u8>::empty(),
            record_length,
            previous_index,
            names,
            record_with_invalid_data,
        ),
{
    let nothing = Seq::<u8>::empty();
    assert(nothing.len() / record_length == 0) by (nonlinear_arith)
        requires
            nothing.len() == 0,
            record_length > 0,
    ;
    match decode_plan(cn, 0, record_length, previous_index) {
        Some(lay) => {
            lemma_decode_nothing(cn.data, nothing, lay, previous_index * lay.per_record);
            assert(0 * lay.per_record == 0) by (nonlinear_arith);
        },
        None => {},
    }
    match cn.invalid_mask {
        Some(m) => {
            assert(m.mask@ =~= Seq::new(
                m.mask@.len(),
                |k: int|
                    if previous_index <= k < previous_index + nothing.len() / record_length {
                        (m.byte_mask & nothing[(k - previous_index) * record_length
                            + m.byte_position]) == 0
                    } else {
                        m.mask@[k]
                    },
            ));
        },
        None => {},
    }
}

/// The first chunks of a plan hold no more records than the whole plan.
pub proof fn lemma_planned_prefix(plan: Seq<(usize, usize)>, i: int)
    requires
        0 <= i <= plan.len(),
    ensures
        planned_records(plan.subrange(0, i)) <= planned_records(plan),
        i < plan.len() ==> planned_records(plan.subrange(0, i + 1)) == planned_records(
            plan.subrange(0, i),
        ) + plan[i].0,
    decreases plan.len() - i,
{
    if i < plan.len() {
        assert(plan.subrange(0, i + 1).drop_last() =~= plan.subrange(0, i));
        lemma_planned_prefix(plan, i + 1);
    } else {
        assert(plan.subrange(0, i) =~= plan);
    }
}

/// Decodes the records of a sorted group, which lie one after the other at
/// the start of `data`, chunk by chunk into the listed channels.
///
/// The channels end as one read of all records leaves them.
pub fn decode_sorted(
    data: &[u8],
    channel_group: &mut Cg4,
    channel_names_to_read_in_dg: &Vec<String>,
)
    requires
        old(channel_group).record_length > 0,
        old(channel_group).record_length * old(channel_group).block.cg_cycle_count <= data.len(),
        forall|i: int|
            0 <= i < old(channel_group).cn@.len() && channel_selected(
                #[trigger] old(channel_group).cn@[i],
                channel_names_to_read_in_dg@,
            ) ==> has_room(
                old(channel_group).cn@[i],
                old(channel_group).record_length as nat,
                old(channel_group).block.cg_cycle_count as nat,
            ),
    ensures
        same_group(*old(channel_group), *final(channel_group)),
        forall|i: int|
            0 <= i < old(channel_group).cn@.len() ==> channel_read(
                old(channel_group).cn@[i],
                #[trigger] final(channel_group).cn@[i],
                data@.subrange(
                    0,
                    old(channel_group).record_length * old(channel_group).block.cg_cycle_count,
                ),
                old(channel_group).record_length as nat,
                0,
                channel_names_to_read_in_dg@,
                old(channel_group).block.cg_inval_bytes > 0,
            ),
{
    let chunks = generate_chunks(channel_group);
    let record_length = channel_group.record_length as usize;
    let with_invalid = channel_group.block.cg_inval_bytes > 0;
    let ghost rl = record_length as nat;
    let ghost cc = channel_group.block.cg_cycle_count as nat;
    let ghost names = channel_names_to_read_in_dg@;
    let mut previous_index: usize = 0;
    let mut position: usize = 0;
    let mut c: usize = 0;
    proof {
        lemma_chunks_cover(rl, cc);
        assert(cc <= rl * cc) by (nonlinear_arith)
            requires
                rl >= 1,
        ;
        assert(chunks@.subrange(0, 0) =~= Seq::<(usize, usize)>::empty());
        assert(data@.subrange(0, 0) =~= Seq::<u8>::empty());
        assert forall|i: int| 0 <= i < channel_group.cn@.len() implies channel_read(
            channel_group.cn@[i],
            #[trigger] channel_group.cn@[i],
            data@.subrange(0, 0),
            rl,
            0,
            names,
            with_invalid,
        ) by {
            lemma_read_nothing(channel_group.cn@[i], rl, 0, names, with_invalid);
        }
    }
    while c < chunks.len()
        invariant
            c <= chunks.len(),
            rl > 0,
            rl == record_length,
            rl * cc <= data.len(),
            chunks@ == chunk_plan(rl, cc),
            planned_records(chunks@) == cc,
            forall|i: int| 0 <= i < chunks@.len() ==> (#[trigger] chunks@[i]).1 == rl * chunks@[i].0,
            previous_index == planned_records(chunks@.subrange(0, c as int)),
            previous_index <= cc <= usize::MAX,
            position == rl * previous_index,
            position <= data.len(),
            same_group(*old(channel_group), *channel_group),
            with_invalid == (old(channel_group).block.cg_inval_bytes > 0),
            names == channel_names_to_read_in_dg@,
            forall|i: int|
                0 <= i < old(channel_group).cn@.len() && channel_selected(
                    #[trigger] old(channel_group).cn@[i],
                    names,
                ) ==> has_room(old(channel_group).cn@[i], rl, cc),
            forall|i: int|
                0 <= i < old(channel_group).cn@.len() ==> channel_read(
                    old(channel_group).cn@[i],
                    #[trigger] channel_group.cn@[i],
                    data@.subrange(0, position as int),
                    rl,
                    0,
                    names,
                    with_invalid,
                ),
        decreases chunks.len() - c,
    {
        let (n_record_chunk, chunk_size) = chunks[c];
        proof {
            lemma_planned_prefix(chunks@, c as int);
            lemma_planned_prefix(chunks@, c + 1);
            assert(rl * (previous_index + n_record_chunk) == position + chunk_size
                && position + chunk_size <= rl * cc) by (nonlinear_arith)
                requires
                    position == rl * previous_index,
                    chunk_size == rl * n_record_chunk,
                    previous_index + n_record_chunk <= cc,
                    rl > 0,
            ;
        }
        let data_chunk = vstd::slice::slice_subrange(data, position, position + chunk_size);
        let ghost before = channel_group.cn@;
        let _ = read_channels_from_bytes(
            data_chunk,
            &mut channel_group.cn,
            record_length,
            previous_index,
            channel_names_to_read_in_dg,
            with_invalid,
        );
        proof {
            let a = data@.subrange(0, position as int);
            let b = data_chunk@;
            assert(a + b =~= data@.subrange(0, position + chunk_size));
            assert(b.len() / rl == n_record_chunk) by {
                vstd::arithmetic::div_mod::lemma_div_multiples_vanish(
                    n_record_chunk as int,
                    rl as int,
                );
                assert(rl * n_record_chunk == n_record_chunk * rl) by (nonlinear_arith);
            }
            assert(a.len() == previous_index * rl) by (nonlinear_arith)
                requires
                    a.len() == rl * previous_index,
            ;
            assert forall|i: int| 0 <= i < old(channel_group).cn@.len() implies channel_read(
                old(channel_group).cn@[i],
                #[trigger] channel_group.cn@[i],
                data@.subrange(0, position + chunk_size),
                rl,
                0,
                names,
                with_invalid,
            ) by {
                if channel_selected(old(channel_group).cn@[i], names) {
                    lemma_room_for_fewer(
                        old(channel_group).cn@[i],
                        rl,
                        cc,
                        (previous_index + n_record_chunk) as nat,
                    );
                }
                lemma_chunked_read(
                    old(channel_group).cn@[i],
                    before[i],
                    channel_group.cn@[i],
                    a,
                    b,
                    rl,
                    0,
                    previous_index as nat,
                    names,
                    with_invalid,
                );
            }
        }
        proof {
            lemma_planned_prefix(chunks@, c + 1);
        }
        previous_index += n_record_chunk;
        position += chunk_size;
        c += 1;
    }
    proof {
        assert(chunks@.subrange(0, c as int) =~= chunks@);
    }
}

/// A channel holds samples that a read of `chunk_len` bytes of records made
/// complete: it is not empty, and it is virtual or its values were decoded.
pub open spec fn readable(cn: Cn4, chunk_len: nat, record_length: nat) -> bool {
    cn.data.spec_len() > 0 && (virtual_type(cn.block.cn_type) || decode_plan(
        cn,
        chunk_len,
        record_length,
        0,
    ) is Some)
}

/// `new` is the channel `pre` after its read was completed: where its
/// samples are complete, its integers are reduced to the bits of the
/// channel's value and it is marked valid.
pub open spec fn completed(pre: Cn4, new: Cn4, chunk_len: nat, record_length: nat) -> bool {
    let ok = readable(pre, chunk_len, record_length);
    &&& same_description(pre, new)
    &&& new.invalid_mask == pre.invalid_mask
    &&& new.channel_data_valid == ok
    &&& if ok && has_bit_field(pre) {
        data_normalised(
            pre.data,
            new.data,
            pre.block.cn_bit_offset as nat,
            pre.block.cn_bit_count as nat,
        )
    } else {
        new.data == pre.data
    }
}

/// The steps by which the records of a sorted group come into a channel:
/// `mid` is `old` with a fresh column, `pre` is `mid` after the read of all
/// records, and `new` is `pre` completed.
pub open spec fn sorted_read_via(
    old: Cn4,
    mid: Cn4,
    pre: Cn4,
    new: Cn4,
    records: Seq<u8>,
    record_length: nat,
    cycle_count: u64,
    names: Seq<String>,
    record_with_invalid_data: bool,
) -> bool {
    &&& initialised(old, mid, cycle_count)
    &&& if record_length > 0 {
        channel_read(mid, pre, records, record_length, 0, names, record_with_invalid_data)
    } else {
        pre == mid
    }
    &&& completed(pre, new, records.len(), record_length)
}

/// `new` is the channel `old` after the records of its sorted group were
/// read: untouched unless it is listed and not yet valid, and else given a
/// fresh column, filled from the records, and marked valid where that
/// succeeded.
pub open spec fn sorted_read(
    old: Cn4,
    new: Cn4,
    records: Seq<u8>,
    record_length: nat,
    cycle_count: u64,
    names: Seq<String>,
    record_with_invalid_data: bool,
) -> bool {
    if name_listed(names, old.unique_name@) && !old.channel_data_valid {
        exists|mid: Cn4, pre: Cn4| #[trigger]
            sorted_read_via(
                old,
                mid,
                pre,
                new,
                records,
                record_length,
                cycle_count,
                names,
                record_with_invalid_data,
            )
    } else {
        new == old
    }
}

/// The number of bytes that the records of a group take.
pub open spec fn records_bytes(cg: Cg4) -> nat {
    cg.record_length as nat * cg.block.cg_cycle_count as nat
}

/// `n` as a `u64`, or the largest `u64` where it does not fit.
pub open spec fn clamped(n: nat) -> u64 {
    if n > u64::MAX {
        u64::MAX
    } else {
        n as u64
    }
}

/// Completes the read of a sorted group of which `total` bytes of records
/// were decoded: every listed channel that was not yet valid and whose
/// samples are complete has its integers reduced to the bits of its value and
/// is marked valid.
pub fn finish_sorted(
    channel_group: &mut Cg4,
    channel_names_to_read_in_dg: &Vec<String>,
    total: usize,
)
    ensures
        same_group(*old(channel_group), *final(channel_group)),
        forall|j: int|
            0 <= j < old(channel_group).cn@.len() ==> if name_listed(
                channel_names_to_read_in_dg@,
                old(channel_group).cn@[j].unique_name@,
            ) && !old(channel_group).cn@[j].channel_data_valid {
                completed(
                    old(channel_group).cn@[j],
                    #[trigger] final(channel_group).cn@[j],
                    total as nat,
                    old(channel_group).record_length as nat,
                )
            } else {
                final(channel_group).cn@[j] == old(channel_group).cn@[j]
            },
{
    let record_length = channel_group.record_length;
    let ghost pre = channel_group.cn@;
    let ghost names = channel_names_to_read_in_dg@;
    let mut i: usize = 0;
    while i < channel_group.cn.len()
        invariant
            i <= channel_group.cn.len(),
            same_group(*old(channel_group), *channel_group),
            pre == old(channel_group).cn@,
            pre.len() == channel_group.cn@.len(),
            record_length == old(channel_group).record_length,
            forall|j: int| i <= j < pre.len() ==> channel_group.cn@[j] == pre[j],
            forall|j: int|
                0 <= j < i ==> if name_listed(names, pre[j].unique_name@)
                    && !pre[j].channel_data_valid {
                    completed(
                        pre[j],
                        #[trigger] channel_group.cn@[j],
                        total as nat,
                        record_length as nat,
                    )
                } else {
                    channel_group.cn@[j] == pre[j]
                },
            names == channel_names_to_read_in_dg@,
        decreases channel_group.cn.len() - i,
    {
        let cn = &mut channel_group.cn[i];
        if is_listed(channel_names_to_read_in_dg, &cn.unique_name) && !cn.channel_data_valid {
            let complete = !cn.data.is_empty() && (cn.block.cn_type == 3 || cn.block.cn_type == 6
                || plan_of(cn, total, record_length as usize, 0).is_some());
            if complete {
                normalise_bits(cn);
            }
            cn.channel_data_valid = complete;
        }
        i += 1;
    }
}

/// Reads the records of a sorted group out of `data`, its data block's
/// payload, into the listed channels that are not yet valid.
///
/// Fails, leaving the group as it was, where the payload is shorter than the
/// group's records; `block_position` is the block's offset, for the error.
pub fn read_all_channels_sorted_from_bytes(
    data: &[u8],
    channel_group: &mut Cg4,
    channel_names_to_read_in_dg: &Vec<String>,
    block_position: u64,
) -> (r: Result<(), MdfError>)
    ensures
        match r {
            Ok(()) => {
                &&& records_bytes(*old(channel_group)) <= data.len()
                &&& same_group(*old(channel_group), *final(channel_group))
                &&& forall|i: int|
                    0 <= i < old(channel_group).cn@.len() ==> sorted_read(
                        old(channel_group).cn@[i],
                        #[trigger] final(channel_group).cn@[i],
                        data@.subrange(0, records_bytes(*old(channel_group)) as int),
                        old(channel_group).record_length as nat,
                        old(channel_group).block.cg_cycle_count,
                        channel_names_to_read_in_dg@,
                        old(channel_group).block.cg_inval_bytes > 0,
                    )
            },
            Err(e) => {
                &&& records_bytes(*old(channel_group)) > data.len()
                &&& *final(channel_group) == *old(channel_group)
                &&& e == (MdfError::CorruptBlock {
                    offset: block_position,
                    expected: clamped(records_bytes(*old(channel_group))),
                    actual: data.len() as u64,
                })
            },
        },
{
    let cycle_count = channel_group.block.cg_cycle_count;
    let record_length = channel_group.record_length;
    let available = data.len();
    let needed: usize = match (record_length as u64).checked_mul(cycle_count) {
        Some(n) => {
            if n > available as u64 {
                return Err(
                    MdfError::CorruptBlock {
                        offset: block_position,
                        expected: n,
                        actual: available as u64,
                    },
                );
            }
            n as usize
        },
        None => {
            return Err(
                MdfError::CorruptBlock {
                    offset: block_position,
                    expected: u64::MAX,
                    actual: available as u64,
                },
            );
        },
    };
    let ghost names = channel_names_to_read_in_dg@;
    let ghost rl = record_length as nat;
    let with_invalid = channel_group.block.cg_inval_bytes > 0;
    initialise_arrays(channel_group, channel_names_to_read_in_dg, cycle_count);
    let ghost mid = channel_group.cn@;
    if record_length > 0 {
        proof {
            assert forall|i: int|
                0 <= i < mid.len() && channel_selected(#[trigger] mid[i], names) implies has_room(
                mid[i],
                rl,
                cycle_count as nat,
            ) by {
                lemma_room_after_init(old(channel_group).cn@[i], mid[i], cycle_count, rl, names);
            }
        }
        decode_sorted(data, channel_group, channel_names_to_read_in_dg);
    }
    let ghost pre = channel_group.cn@;
    finish_sorted(channel_group, channel_names_to_read_in_dg, needed);
    proof {
        let records = data@.subrange(0, needed as int);
        assert forall|j: int| 0 <= j < old(channel_group).cn@.len() implies sorted_read(
            old(channel_group).cn@[j],
            #[trigger] channel_group.cn@[j],
            records,
            rl,
            cycle_count,
            names,
            with_invalid,
        ) by {
            let o = old(channel_group).cn@[j];
            if name_listed(names, o.unique_name@) && !o.channel_data_valid {
                assert(sorted_read_via(
                    o,
                    mid[j],
                    pre[j],
                    channel_group.cn@[j],
                    records,
                    rl,
                    cycle_count,
                    names,
                    with_invalid,
                ));
            }
        }
    }
    Ok(())
}

/// After the columns of a group were made, every channel that a read touches
/// has room for the group's samples.
pub proof fn lemma_room_after_init(
    old: Cn4,
    new: Cn4,
    cycle_count: u64,
    record_length: nat,
    names: Seq<String>,
)
    requires
        record_length <= usize::MAX,
        if name_listed(names, old.unique_name@) && !old.channel_data_valid {
            initialised(old, new, cycle_count)
        } else {
            new == old
        },
    ensures
        channel_selected(new, names) ==> has_room(new, record_length, cycle_count as nat),
{
    if name_listed(names, old.unique_name@) && !old.channel_data_valid {
        if init_possible(old, cycle_count) {
            lemma_initialised_has_room(old, new, cycle_count, record_length);
        }
    }
}

/// `new` are the groups `old` with fresh columns for the listed channels
/// that are not yet valid, each for the samples of its group.
pub open spec fn groups_initialised(old: Seq<Cg4>, new: Seq<Cg4>, names: Seq<String>) -> bool {
    &&& new.len() == old.len()
    &&& forall|g: int|
        0 <= g < old.len() ==> same_group(old[g], #[trigger] new[g]) && forall|i: int|
            0 <= i < old[g].cn@.len() ==> if name_listed(names, old[g].cn@[i].unique_name@)
                && !old[g].cn@[i].channel_data_valid {
                initialised(old[g].cn@[i], #[trigger] new[g].cn@[i], old[g].block.cg_cycle_count)
            } else {
                new[g].cn@[i] == old[g].cn@[i]
            }
}

/// A channel of unsorted data holds samples that a read made complete: it
/// is not empty, and it is virtual, or of variable length, or its values
/// lie in the records of its group.
pub open spec fn readable_unsorted(cn: Cn4, record_length: nat) -> bool {
    cn.data.spec_len() > 0 && (virtual_type(cn.block.cn_type) || cn.block.cn_type == 1 || (
    fixed_length_type(cn.block.cn_type) && channel_layout(cn, record_length) is Some))
}

/// `new` is the channel `pre` of unsorted data after its read was
/// completed: where its samples are complete, its integers are reduced to the
/// bits of the channel's value and it is marked valid.
pub open spec fn completed_unsorted(pre: Cn4, new: Cn4, record_length: nat) -> bool {
    let ok = readable_unsorted(pre, record_length);
    &&& same_description(pre, new)
    &&& new.invalid_mask == pre.invalid_mask
    &&& new.channel_data_valid == ok
    &&& if ok && has_bit_field(pre) {
        data_normalised(
            pre.data,
            new.data,
            pre.block.cn_bit_offset as nat,
            pre.block.cn_bit_count as nat,
        )
    } else {
        new.data == pre.data
    }
}

/// `new` are the groups `pre` after the reads of their listed channels were
/// completed.
pub open spec fn groups_completed(pre: Seq<Cg4>, new: Seq<Cg4>, names: Seq<String>) -> bool {
    &&& new.len() == pre.len()
    &&& forall|g: int|
        0 <= g < pre.len() ==> same_group(pre[g], #[trigger] new[g]) && forall|i: int|
            0 <= i < pre[g].cn@.len() ==> if name_listed(names, pre[g].cn@[i].unique_name@)
                && !pre[g].cn@[i].channel_data_valid {
                completed_unsorted(
                    pre[g].cn@[i],
                    #[trigger] new[g].cn@[i],
                    pre[g].record_length as nat,
                )
            } else {
                new[g].cn@[i] == pre[g].cn@[i]
            }
}

/// Makes the columns of the listed channels of all groups.
fn initialise_groups(cgs: &mut Vec<Cg4>, names: &Vec<String>)
    ensures
        groups_initialised(old(cgs)@, final(cgs)@, names@),
{
    let mut g: usize = 0;
    while g < cgs.len()
        invariant
            g <= cgs.len(),
            cgs@.len() == old(cgs)@.len(),
            forall|k: int| g <= k < cgs@.len() ==> cgs@[k] == old(cgs)@[k],
            forall|k: int|
                0 <= k < g ==> same_group(old(cgs)@[k], #[trigger] cgs@[k]) && forall|i: int|
                    0 <= i < old(cgs)@[k].cn@.len() ==> if name_listed(
                        names@,
                        old(cgs)@[k].cn@[i].unique_name@,
                    ) && !old(cgs)@[k].cn@[i].channel_data_valid {
                        initialised(
                            old(cgs)@[k].cn@[i],
                            #[trigger] cgs@[k].cn@[i],
                            old(cgs)@[k].block.cg_cycle_count,
                        )
                    } else {
                        cgs@[k].cn@[i] == old(cgs)@[k].cn@[i]
                    },
        decreases cgs.len() - g,
    {
        let cg = &mut cgs[g];
        let cycle_count = cg.block.cg_cycle_count;
        initialise_arrays(cg, names, cycle_count);
        g += 1;
    }
}

/// Completes the reads of the listed channels of one group of unsorted data.
fn complete_group(cg: &mut Cg4, names: &Vec<String>)
    ensures
        same_group(*old(cg), *final(cg)),
        forall|i: int|
            0 <= i < old(cg).cn@.len() ==> if name_listed(names@, old(cg).cn@[i].unique_name@)
                && !old(cg).cn@[i].channel_data_valid {
                completed_unsorted(
                    old(cg).cn@[i],
                    #[trigger] final(cg).cn@[i],
                    old(cg).record_length as nat,
                )
            } else {
                final(cg).cn@[i] == old(cg).cn@[i]
            },
{
    let record_length = cg.record_length as usize;
    let mut i: usize = 0;
    while i < cg.cn.len()
        invariant
            i <= cg.cn.len(),
            same_group(*old(cg), *cg),
            record_length == old(cg).record_length,
            forall|k: int| i <= k < cg.cn@.len() ==> cg.cn@[k] == old(cg).cn@[k],
            forall|k: int|
                0 <= k < i ==> if name_listed(names@, old(cg).cn@[k].unique_name@) && !old(
                    cg,
                ).cn@[k].channel_data_valid {
                    completed_unsorted(
                        old(cg).cn@[k],
                        #[trigger] cg.cn@[k],
                        old(cg).record_length as nat,
                    )
                } else {
                    cg.cn@[k] == old(cg).cn@[k]
                },
        decreases cg.cn.len() - i,
    {
        let cn = &mut cg.cn[i];
        if is_listed(names, &cn.unique_name) && !cn.channel_data_valid {
            let cn_type = cn.block.cn_type;
            let complete = !cn.data.is_empty() && (cn_type == 3 || cn_type == 6 || cn_type == 1 || (
            (cn_type == 0 || cn_type == 2 || cn_type == 4 || cn_type == 5) && layout_of(
                cn,
                record_length,
            ).is_some()));
            if complete {
                normalise_bits(cn);
            }
            cn.channel_data_valid = complete;
        }
        i += 1;
    }
}

/// Completes the reads of the listed channels of all groups.
fn complete_groups(cgs: &mut Vec<Cg4>, names: &Vec<String>)
    ensures
        groups_completed(old(cgs)@, final(cgs)@, names@),
{
    let mut g: usize = 0;
    while g < cgs.len()
        invariant
            g <= cgs.len(),
            cgs@.len() == old(cgs)@.len(),
            forall|k: int| g <= k < cgs@.len() ==> cgs@[k] == old(cgs)@[k],
            forall|k: int|
                0 <= k < g ==> same_group(old(cgs)@[k], #[trigger] cgs@[k]) && forall|i: int|
                    0 <= i < old(cgs)@[k].cn@.len() ==> if name_listed(
                        names@,
                        old(cgs)@[k].cn@[i].unique_name@,
                    ) && !old(cgs)@[k].cn@[i].channel_data_valid {
                        completed_unsorted(
                            old(cgs)@[k].cn@[i],
                            #[trigger] cgs@[k].cn@[i],
                            old(cgs)@[k].record_length as nat,
                        )
                    } else {
                        cgs@[k].cn@[i] == old(cgs)@[k].cn@[i]
                    },
        decreases cgs.len() - g,
    {
        complete_group(&mut cgs[g], names);
        g += 1;
    }
}

/// A list of `n` zeros.
pub open spec fn zero_counts(n: nat) -> Seq<usize> {
    Seq::new(n, |i: int| 0usize)
}

/// What is wrong with a stream of unsorted data that is read whole: it
/// holds what cannot be a record, or ends within a record.
pub open spec fn unsorted_error(
    stream: Seq<u8>,
    rec_id_size: u8,
    cgs: Seq<Cg4>,
    block_position: u64,
) -> Option<MdfError> {
    if stream_corrupt(stream, rec_id_size, cgs) || stream_end(stream, 0, rec_id_size, cgs)
        < stream.len() {
        Some(
            MdfError::CorruptBlock {
                offset: block_position,
                expected: stream_end(stream, 0, rec_id_size, cgs) as u64,
                actual: stream.len() as u64,
            },
        )
    } else {
        None
    }
}

/// `new` are the groups `old` after the whole stream of their unsorted
/// data was read: fresh columns were made, the records were read, and the
/// reads were completed.
pub open spec fn unsorted_done(
    old: Seq<Cg4>,
    new: Seq<Cg4>,
    stream: Seq<u8>,
    rec_id_size: u8,
    names: Seq<String>,
) -> bool {
    exists|fresh: Seq<Cg4>, read: Seq<Cg4>|
        {
            &&& #[trigger] groups_initialised(old, fresh, names)
            &&& #[trigger] unsorted_read(
                fresh,
                read,
                stream,
                rec_id_size,
                zero_counts(old.len()),
                names,
            )
            &&& groups_completed(read, new, names)
        }
}

/// Reads the whole stream of the unsorted data of a data group into the
/// listed channels of its groups that are not yet valid.
///
/// Fails where the stream holds what cannot be a record or ends within a
/// record; the channels are then not valid.
pub fn read_all_channels_unsorted(
    stream: Vec<u8>,
    dg: &mut Dg4,
    channel_names_to_read_in_dg: &Vec<String>,
    block_position: u64,
) -> (r: Result<(), MdfError>)
    ensures
        final(dg).block == old(dg).block,
        final(dg).block_position == old(dg).block_position,
        final(dg).cg@.len() == old(dg).cg@.len(),
        forall|g: int|
            0 <= g < old(dg).cg@.len() ==> same_group(old(dg).cg@[g], #[trigger] final(dg).cg@[g]),
        r is Ok ==> unsorted_done(
            old(dg).cg@,
            final(dg).cg@,
            stream@,
            old(dg).block.dg_rec_id_size,
            channel_names_to_read_in_dg@,
        ),
        r is Err ==> exists|fresh: Seq<Cg4>|
            {
                &&& #[trigger] groups_initialised(
                    old(dg).cg@,
                    fresh,
                    channel_names_to_read_in_dg@,
                )
                &&& unsorted_error(
                    stream@,
                    old(dg).block.dg_rec_id_size,
                    fresh,
                    block_position,
                ) == Some(r->Err_0)
            },
{
    initialise_groups(&mut dg.cg, channel_names_to_read_in_dg);
    let ghost fresh = dg.cg@;
    proof {
        assert forall|k: int| 0 <= k < old(dg).cg@.len() implies same_group(
            old(dg).cg@[k],
            #[trigger] fresh[k],
        ) by {}
    }
    let mut record_counter: Vec<usize> = Vec::with_capacity(dg.cg.len());
    let mut g: usize = 0;
    while g < dg.cg.len()
        invariant
            g <= dg.cg.len(),
            record_counter@.len() == g,
            forall|k: int| 0 <= k < g ==> #[trigger] record_counter@[k] == 0,
        decreases dg.cg.len() - g,
    {
        record_counter.push(0);
        g += 1;
    }
    proof {
        assert(record_counter@ =~= zero_counts(fresh.len()));
    }
    let mut data = stream;
    let total = data.len();
    match read_all_channels_unsorted_from_bytes(
        &mut data,
        dg,
        &mut record_counter,
        channel_names_to_read_in_dg,
        block_position,
    ) {
        Ok(()) => {},
        Err(e) => {
            proof {
                assert(groups_initialised(old(dg).cg@, fresh, channel_names_to_read_in_dg@));
            }
            return Err(e);
        },
    }
    proof {
        assert(stream_end(stream@, 0, old(dg).block.dg_rec_id_size, fresh) <= stream@.len());
    }
    let left = data.len();
    if left > 0 {
        proof {
            assert(groups_initialised(old(dg).cg@, fresh, channel_names_to_read_in_dg@));
            assert(total - left == stream_end(stream@, 0, old(dg).block.dg_rec_id_size, fresh));
        }
        return Err(
            MdfError::CorruptBlock {
                offset: block_position,
                expected: (total - left) as u64,
                actual: total as u64,
            },
        );
    }
    let ghost read = dg.cg@;
    complete_groups(&mut dg.cg, channel_names_to_read_in_dg);
    proof {
        assert forall|k: int| 0 <= k < old(dg).cg@.len() implies same_group(
            old(dg).cg@[k],
            #[trigger] dg.cg@[k],
        ) by {
            assert(same_group(old(dg).cg@[k], fresh[k]));
            assert(same_group(fresh[k], read[k]));
            assert(same_group(read[k], dg.cg@[k]));
        }
        assert(groups_initialised(old(dg).cg@, fresh, channel_names_to_read_in_dg@));
        assert(unsorted_read(
            fresh,
            read,
            stream@,
            old(dg).block.dg_rec_id_size,
            zero_counts(old(dg).cg@.len()),
            channel_names_to_read_in_dg@,
        ));
    }
    Ok(())
}

/// `new` is the data group `old`, which has at least one channel group,
/// after the stream `stream` of its data was read, with the result `r`;
/// `position` is the offset of the data in the file, for errors.
///
/// A data group of one channel group holds sorted data, which is read as
/// `read_all_channels_sorted_from_bytes` says; one of several groups holds
/// unsorted data, which is read as `read_all_channels_unsorted` says.
pub open spec fn stream_read(
    old: Dg4,
    new: Dg4,
    stream: Seq<u8>,
    names: Seq<String>,
    position: u64,
    r: Result<(), MdfError>,
) -> bool {
    &&& new.block == old.block
    &&& new.block_position == old.block_position
    &&& new.cg@.len() == old.cg@.len()
    &&& forall|g: int| 0 <= g < old.cg@.len() ==> same_group(old.cg@[g], #[trigger] new.cg@[g])
    &&& if old.cg@.len() == 1 {
        let cg = old.cg@[0];
        if records_bytes(cg) > stream.len() {
            &&& new.cg@ == old.cg@
            &&& r == Err::<(), MdfError>(
                MdfError::CorruptBlock {
                    offset: position,
                    expected: clamped(records_bytes(cg)),
                    actual: stream.len() as u64,
                },
            )
        } else {
            &&& r is Ok
            &&& same_group(cg, new.cg@[0])
            &&& forall|i: int|
                0 <= i < cg.cn@.len() ==> sorted_read(
                    cg.cn@[i],
                    #[trigger] new.cg@[0].cn@[i],
                    stream.subrange(0, records_bytes(cg) as int),
                    cg.record_length as nat,
                    cg.block.cg_cycle_count,
                    names,
                    cg.block.cg_inval_bytes > 0,
                )
        }
    } else {
        &&& r is Ok ==> unsorted_done(old.cg@, new.cg@, stream, old.block.dg_rec_id_size, names)
        &&& r is Err ==> exists|fresh: Seq<Cg4>|
            {
                &&& #[trigger] groups_initialised(old.cg@, fresh, names)
                &&& unsorted_error(stream, old.block.dg_rec_id_size, fresh, position) == Some(
                    r->Err_0,
                )
            }
    }
}

/// Reads the stream of the data of a data group, which has at least one
/// channel group, into the listed channels that are not yet valid.
pub fn read_stream(
    stream: Vec<u8>,
    dg: &mut Dg4,
    channel_names_to_read_in_dg: &Vec<String>,
    position: u64,
) -> (r: Result<(), MdfError>)
    requires
        old(dg).cg@.len() > 0,
    ensures
        stream_read(*old(dg), *final(dg), stream@, channel_names_to_read_in_dg@, position, r),
{
    if dg.cg.len() == 1 {
        let r = read_all_channels_sorted_from_bytes(
            stream.as_slice(),
            &mut dg.cg[0],
            channel_names_to_read_in_dg,
            position,
        );
        proof {
            if r is Err {
                assert(dg.cg@ =~= old(dg).cg@);
            }
        }
        r
    } else {
        read_all_channels_unsorted(stream, dg, channel_names_to_read_in_dg, position)
    }
}

/// `new` is the data group `old` after its data was read from `file`, with
/// the result `r`.
///
/// A data group without data or without channel groups is unchanged. The
/// stream of the group's data is gathered; a group whose data cannot be
/// gathered is unchanged, and its error is the result. The stream is then
/// read as `stream_read` says.
pub open spec fn dg_read(
    old: Dg4,
    new: Dg4,
    file: Seq<u8>,
    names: Seq<String>,
    r: Result<(), MdfError>,
) -> bool {
    &&& new.block == old.block
    &&& new.block_position == old.block_position
    &&& new.cg@.len() == old.cg@.len()
    &&& if old.block.dg_data == 0 || old.cg@.len() == 0 {
        r is Ok && new.cg@ == old.cg@
    } else {
        match data_stream(file, old.block.dg_data) {
            Err(e) => r == Err::<(), MdfError>(e) && new.cg@ == old.cg@,
            Ok(stream) => stream_read(old, new, stream, names, old.block.dg_data as u64, r),
        }
    }
}

/// Reads the data of a data group, whatever its layout, into the listed
/// channels that are not yet valid: plain or compressed, in one block or in
/// a list of blocks, sorted or unsorted.
pub fn read_data(file: &[u8], dg: &mut Dg4, channel_names_to_read_in_dg: &Vec<String>) -> (r:
    Result<(), MdfError>)
    ensures
        dg_read(*old(dg), *final(dg), file@, channel_names_to_read_in_dg@, r),
{
    if dg.block.dg_data == 0 || dg.cg.len() == 0 {
        return Ok(());
    }
    let stream = match read_data_stream(file, dg.block.dg_data) {
        Ok(s) => s,
        Err(e) => {
            return Err(e);
        },
    };
    let position = dg.block.dg_data as u64;
    read_stream(stream, dg, channel_names_to_read_in_dg, position)
}

/// Reduces the stored integers of every channel of the data group to the
/// bits of the channel's value. To be applied once, after the records of the
/// data group were decoded.
pub fn apply_bit_mask_offset(dg: &mut Dg4)
    ensures
        final(dg).block == old(dg).block,
        final(dg).block_position == old(dg).block_position,
        final(dg).cg@.len() == old(dg).cg@.len(),
        forall|g: int|
            0 <= g < old(dg).cg@.len() ==> same_group(old(dg).cg@[g], #[trigger] final(dg).cg@[g])
                && forall|i: int|
                0 <= i < old(dg).cg@[g].cn@.len() ==> bits_normalised(
                    old(dg).cg@[g].cn@[i],
                    #[trigger] final(dg).cg@[g].cn@[i],
                ),
{
    let mut g: usize = 0;
    while g < dg.cg.len()
        invariant
            g <= dg.cg.len(),
            dg.block == old(dg).block,
            dg.block_position == old(dg).block_position,
            dg.cg@.len() == old(dg).cg@.len(),
            forall|k: int| g <= k < dg.cg@.len() ==> dg.cg@[k] == old(dg).cg@[k],
            forall|k: int|
                0 <= k < g ==> same_group(old(dg).cg@[k], #[trigger] dg.cg@[k]) && forall|i: int|
                    0 <= i < old(dg).cg@[k].cn@.len() ==> bits_normalised(
                        old(dg).cg@[k].cn@[i],
                        #[trigger] dg.cg@[k].cn@[i],
                    ),
        decreases dg.cg.len() - g,
    {
        normalise_group(&mut dg.cg[g]);
        g += 1;
    }
}

/// Reduces the stored integers of every channel of the group to the bits of
/// the channel's value.
fn normalise_group(cg: &mut Cg4)
    ensures
        same_group(*old(cg), *final(cg)),
        forall|i: int|
            0 <= i < old(cg).cn@.len() ==> bits_normalised(
                old(cg).cn@[i],
                #[trigger] final(cg).cn@[i],
            ),
{
    let mut i: usize = 0;
    while i < cg.cn.len()
        invariant
            i <= cg.cn.len(),
            same_group(*old(cg), *cg),
            forall|k: int| i <= k < cg.cn@.len() ==> cg.cn@[k] == old(cg).cn@[k],
            forall|k: int|
                0 <= k < i ==> bits_normalised(old(cg).cn@[k], #[trigger] cg.cn@[k]),
        decreases cg.cn.len() - i,
    {
        normalise_bits(&mut cg.cn[i]);
        i += 1;
    }
}

/// `new` are the data groups `old` after the data of each was read from
/// `file` in turn, with the result `r`: all were read, or the reading ended
/// at the first data group whose data cannot be read, which and those after
/// it hold no samples of this read.
pub open spec fn dgs_read(
    old: Seq<Dg4>,
    new: Seq<Dg4>,
    file: Seq<u8>,
    names: Seq<String>,
    r: Result<(), MdfError>,
) -> bool {
    &&& new.len() == old.len()
    &&& match r {
        Ok(()) => forall|i: int|
            0 <= i < old.len() ==> dg_read(old[i], #[trigger] new[i], file, names, Ok(())),
        Err(e) => exists|k: int|
            {
                &&& 0 <= k < old.len()
                &&& #[trigger] dg_read(old[k], new[k], file, names, Err(e))
                &&& forall|i: int|
                    0 <= i < k ==> dg_read(old[i], #[trigger] new[i], file, names, Ok(()))
                &&& forall|i: int| k < i < old.len() ==> new[i] == old[i]
            },
    }
}

/// Reads the records of the file into the listed channels of all data
/// groups that are not yet valid.
pub fn mdfreader4(file: &[u8], info: &mut MdfInfo4, channel_names: &Vec<String>) -> (r: Result<
    (),
    MdfError,
>)
    ensures
        final(info).id_block == old(info).id_block,
        final(info).hd_block == old(info).hd_block,
        final(info).file_name == old(info).file_name,
        final(info).sharable == old(info).sharable,
        final(info).channel_names == old(info).channel_names,
        dgs_read(old(info).dg@, final(info).dg@, file@, channel_names@, r),
{
    let mut i: usize = 0;
    while i < info.dg.len()
        invariant
            i <= info.dg.len(),
            info.id_block == old(info).id_block,
            info.hd_block == old(info).hd_block,
            info.file_name == old(info).file_name,
            info.sharable == old(info).sharable,
            info.channel_names == old(info).channel_names,
            info.dg@.len() == old(info).dg@.len(),
            forall|k: int| i <= k < info.dg@.len() ==> info.dg@[k] == old(info).dg@[k],
            forall|k: int|
                0 <= k < i ==> dg_read(
                    old(info).dg@[k],
                    #[trigger] info.dg@[k],
                    file@,
                    channel_names@,
                    Ok(()),
                ),
        decreases info.dg.len() - i,
    {
        match read_data(file, &mut info.dg[i], channel_names) {
            Ok(()) => {},
            Err(e) => {
                proof {
                    assert(dg_read(
                        old(info).dg@[i as int],
                        info.dg@[i as int],
                        file@,
                        channel_names@,
                        Err(e),
                    ));
                }
                return Err(e);
            },
        }
        i += 1;
    }
    Ok(())
}

} // verus!
