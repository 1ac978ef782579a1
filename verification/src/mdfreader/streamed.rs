//! Reading the records of a sorted group out of a file piece by piece.
//!
//! Whoever holds the file, and not its bytes, asks with `find_records`
//! where the records of a group lie, makes the columns with
//! `initialise_arrays`, reads the pieces that `plan_pieces` lists one at a
//! time, hands each to `read_channels_from_bytes` with the number of its first
//! record, and ends with `finish_sorted`. No more than one piece is held at a
//! time.

use crate::bytes::field;
use crate::bytes::u64_at;
use crate::bytes::u64_le_at;
use crate::mdfinfo::mdfinfo4::Cg4;
use crate::mdfinfo::mdfinfo4::Dg4;
use crate::mdfinfo::mdfinfo4::HEADER4_SIZE;
use crate::mdfreader::data_blocks::data_kind;
use crate::mdfreader::data_blocks::data_kind_of;
use crate::mdfreader::data_blocks::DataKind;
use crate::mdfreader::data_read4::channel_read;
use crate::mdfreader::data_read4::channel_selected;
use crate::mdfreader::data_read4::has_room;
use crate::mdfreader::data_read4::lemma_chunked_read;
use crate::mdfreader::data_read4::name_listed;
use crate::mdfreader::data_read4::read_channels_from_bytes;
use crate::mdfreader::mdfreader4::chunk_plan;
use crate::mdfreader::mdfreader4::finish_sorted;
use crate::mdfreader::mdfreader4::initialise_arrays;
use crate::mdfreader::mdfreader4::lemma_read_nothing;
use crate::mdfreader::mdfreader4::lemma_room_after_init;
use crate::mdfreader::mdfreader4::lemma_room_for_fewer;
use crate::mdfreader::mdfreader4::same_group;
use crate::mdfreader::mdfreader4::sorted_read;
use crate::mdfreader::mdfreader4::sorted_read_via;
use crate::mdfreader::mdfreader4::generate_chunks;
use crate::mdfreader::mdfreader4::lemma_chunks_cover;
use crate::mdfreader::mdfreader4::lemma_planned_prefix;
use crate::mdfreader::mdfreader4::planned_records;
use crate::mdfreader::mdfreader4::records_bytes;
use vstd::prelude::*;

verus! {

/// A piece of the records of a group as it lies in a file.
#[derive(Debug, Clone, Copy, PartialEq, Eq, Structural)]
pub struct Piece {
    /// The offset of the first byte of the piece in the file.
    pub offset: u64,
    /// The number of bytes of the piece.
    pub len: usize,
    /// The number of the first record of the piece, counted from 0.
    pub first_record: usize,
    /// The number of records of the piece.
    pub records: usize,
}

/// Piece `k` of the records that are read by the plan `plan` and lie from
/// `start` on: it follows the records of the chunks before it.
pub open spec fn piece_at(plan: Seq<(usize, usize)>, k: int, start: u64, record_length: nat) -> Piece {
    let before = planned_records(plan.subrange(0, k));
    Piece {
        offset: (start + before * record_length) as u64,
        len: plan[k].1,
        first_record: before as usize,
        records: plan[k].0,
    }
}

/// The pieces in which the records of the group are read, the first of
/// which lies at `start`: one for each chunk of the group's plan.
pub open spec fn pieces_of(cg: Cg4, start: u64) -> Seq<Piece> {
    let plan = chunk_plan(cg.record_length as nat, cg.block.cg_cycle_count as nat);
    Seq::new(plan.len(), |k: int| piece_at(plan, k, start, cg.record_length as nat))
}

/// The offset of the first record of the one channel group of a data group
/// of sorted data, of whose data block `header` holds the first bytes.
/// `None` where the records cannot be read piece by piece: the data group has
/// no data or not exactly one channel group, the block holds no plain records
/// or fewer than the group has, the group's records have no length, or they
/// are more than the machine can count.
pub open spec fn records_start(header: Seq<u8>, dg: Dg4) -> Option<u64> {
    let link = dg.block.dg_data;
    if dg.cg@.len() == 1 && header.len() >= HEADER4_SIZE && link > 0 && data_kind_of(
        field(header, 0, 4),
    ) == DataKind::Plain && dg.cg@[0].record_length > 0 && records_bytes(dg.cg@[0]) <= usize::MAX
        && HEADER4_SIZE + records_bytes(dg.cg@[0]) <= u64_at(header, 8) && link + u64_at(header, 8)
        <= u64::MAX {
        Some((link + HEADER4_SIZE) as u64)
    } else {
        None
    }
}

/// Finds the first record of the channel group of a data group of sorted
/// data in its data block, of which `header` holds the first bytes.
pub fn find_records(header: &[u8], dg: &Dg4) -> (r: Option<u64>)
    ensures
        r == records_start(header@, *dg),
        r is Some ==> dg.cg@.len() == 1 && dg.cg@[0].record_length > 0 && records_bytes(dg.cg@[0])
            <= usize::MAX && r->0 + records_bytes(dg.cg@[0]) <= u64::MAX,
{
    let link = dg.block.dg_data;
    if dg.cg.len() != 1 || header.len() < HEADER4_SIZE || link <= 0 {
        return None;
    }
    let cg = &dg.cg[0];
    if cg.record_length == 0 {
        return None;
    }
    match data_kind(header, 0) {
        DataKind::Plain => {},
        _ => {
            return None;
        },
    }
    let total: u64 = match (cg.record_length as u64).checked_mul(cg.block.cg_cycle_count) {
        Some(t) => t,
        None => {
            return None;
        },
    };
    if total > usize::MAX as u64 {
        return None;
    }
    let len = u64_le_at(header, 8);
    if len < HEADER4_SIZE as u64 || len - (HEADER4_SIZE as u64) < total {
        return None;
    }
    if len > u64::MAX - link as u64 {
        return None;
    }
    Some(link as u64 + HEADER4_SIZE as u64)
}

/// Lists the pieces in which the records of the group are read, the first
/// of which lies at `start`.
pub fn plan_pieces(cg: &Cg4, start: u64) -> (r: Vec<Piece>)
    requires
        cg.record_length > 0,
        records_bytes(*cg) <= usize::MAX,
        start + records_bytes(*cg) <= u64::MAX,
    ensures
        r@ == pieces_of(*cg, start),
{
    let chunks = generate_chunks(cg);
    let record_length = cg.record_length as usize;
    let ghost rl = cg.record_length as nat;
    let ghost cc = cg.block.cg_cycle_count as nat;
    let mut pieces: Vec<Piece> = Vec::with_capacity(chunks.len());
    let mut first: usize = 0;
    let mut k: usize = 0;
    proof {
        lemma_chunks_cover(rl, cc);
        assert(chunks@.subrange(0, 0) =~= Seq::<(usize, usize)>::empty());
        assert(cc <= rl * cc) by (nonlinear_arith)
            requires
                rl >= 1,
        ;
    }
    while k < chunks.len()
        invariant
            k <= chunks.len(),
            rl > 0,
            cc <= usize::MAX,
            rl == record_length,
            rl * cc <= usize::MAX,
            start + rl * cc <= u64::MAX,
            chunks@ == chunk_plan(rl, cc),
            planned_records(chunks@) == cc,
            first == planned_records(chunks@.subrange(0, k as int)),
            first <= cc,
            pieces@ == Seq::new(k as nat, |j: int| piece_at(chunks@, j, start, rl)),
        decreases chunks.len() - k,
    {
        let (n, size) = chunks[k];
        proof {
            lemma_planned_prefix(chunks@, k as int);
            lemma_planned_prefix(chunks@, k + 1);
            assert(first * rl <= rl * cc) by (nonlinear_arith)
                requires
                    first <= cc,
                    rl > 0,
            ;
        }
        let offset = start + (first * record_length) as u64;
        pieces.push(Piece { offset, len: size, first_record: first, records: n });
        proof {
            assert(pieces@ =~= Seq::new((k + 1) as nat, |j: int| piece_at(chunks@, j, start, rl)));
        }
        first += n;
        k += 1;
    }
    proof {
        assert(pieces@ =~= pieces_of(*cg, start));
    }
    pieces
}

/// The pieces lie one after the other from `start` on and hold every record
/// of the group once: the first piece starts with record 0, each piece holds
/// the bytes of its records and starts where they lie, each following piece
/// starts with the record after the last of the piece before, and the last
/// piece ends with the last record.
pub proof fn lemma_pieces_tile(cg: Cg4, start: u64)
    requires
        cg.record_length > 0,
        records_bytes(cg) <= usize::MAX,
        start + records_bytes(cg) <= u64::MAX,
    ensures
        pieces_of(cg, start).len() > 0,
        pieces_of(cg, start)[0].first_record == 0,
        forall|k: int|
            0 <= k < pieces_of(cg, start).len() ==> {
                let p = #[trigger] pieces_of(cg, start)[k];
                &&& p.len == p.records * cg.record_length
                &&& p.offset == start + p.first_record * cg.record_length
                &&& if k + 1 < pieces_of(cg, start).len() {
                    pieces_of(cg, start)[k + 1].first_record == p.first_record + p.records
                } else {
                    p.first_record + p.records == cg.block.cg_cycle_count
                }
            },
{
    let rl = cg.record_length as nat;
    let cc = cg.block.cg_cycle_count as nat;
    let plan = chunk_plan(rl, cc);
    let pieces = pieces_of(cg, start);
    lemma_chunks_cover(rl, cc);
    assert(plan.subrange(0, 0) =~= Seq::<(usize, usize)>::empty());
    assert forall|k: int| 0 <= k < pieces.len() implies {
        let p = #[trigger] pieces[k];
        &&& p.len == p.records * cg.record_length
        &&& p.offset == start + p.first_record * cg.record_length
        &&& if k + 1 < pieces.len() {
            pieces[k + 1].first_record == p.first_record + p.records
        } else {
            p.first_record + p.records == cg.block.cg_cycle_count
        }
    } by {
        lemma_planned_prefix(plan, k);
        lemma_planned_prefix(plan, k + 1);
        let before = planned_records(plan.subrange(0, k));
        assert(plan[k].1 == rl * plan[k].0);
        assert(rl * plan[k].0 == plan[k].0 * rl) by (nonlinear_arith);
        assert(before * rl <= rl * cc) by (nonlinear_arith)
            requires
                before <= cc,
                rl > 0,
        ;
        assert(cc <= rl * cc) by (nonlinear_arith)
            requires
                rl >= 1,
        ;
        if k + 1 == pieces.len() {
            assert(plan.subrange(0, k + 1) =~= plan);
        }
    }
}

/// The records of the channel group of a data group of sorted data as they
/// lie in `file`; `None` where they cannot be read piece by piece or `file`
/// ends before them.
pub open spec fn records_in(file: Seq<u8>, dg: Dg4) -> Option<Seq<u8>> {
    let link = dg.block.dg_data;
    if 0 < link && link + HEADER4_SIZE <= file.len() {
        match records_start(field(file, link as int, HEADER4_SIZE as int), dg) {
            Some(start) => if start + records_bytes(dg.cg@[0]) <= file.len() {
                Some(file.subrange(start as int, start + records_bytes(dg.cg@[0])))
            } else {
                None
            },
            None => None,
        }
    } else {
        None
    }
}

/// Reads the records of a sorted group, which lie in `file` from `start`
/// on, piece by piece into the listed channels that are not yet valid.
///
/// The channels end as one read of all records leaves them.
pub fn read_pieces(
    file: &[u8],
    channel_group: &mut Cg4,
    channel_names_to_read_in_dg: &Vec<String>,
    start: u64,
)
    requires
        old(channel_group).record_length > 0,
        start + records_bytes(*old(channel_group)) <= file.len(),
    ensures
        same_group(*old(channel_group), *final(channel_group)),
        forall|i: int|
            0 <= i < old(channel_group).cn@.len() ==> sorted_read(
                old(channel_group).cn@[i],
                #[trigger] final(channel_group).cn@[i],
                file@.subrange(start as int, start + records_bytes(*old(channel_group))),
                old(channel_group).record_length as nat,
                old(channel_group).block.cg_cycle_count,
                channel_names_to_read_in_dg@,
                old(channel_group).block.cg_inval_bytes > 0,
            ),
{
    let cycle_count = channel_group.block.cg_cycle_count;
    let record_length = channel_group.record_length as usize;
    let with_invalid = channel_group.block.cg_inval_bytes > 0;
    let ghost rl = record_length as nat;
    let ghost cc = cycle_count as nat;
    let ghost names = channel_names_to_read_in_dg@;
    let ghost from = start as int;
    proof {
        assert(cc <= rl * cc) by (nonlinear_arith)
            requires
                rl >= 1,
        ;
    }
    let total: usize = record_length * (cycle_count as usize);
    initialise_arrays(channel_group, channel_names_to_read_in_dg, cycle_count);
    let ghost mid = channel_group.cn@;
    let pieces = plan_pieces(channel_group, start);
    let ghost plan = chunk_plan(rl, cc);
    let mut k: usize = 0;
    proof {
        lemma_chunks_cover(rl, cc);
        assert(plan.subrange(0, 0) =~= Seq::<(usize, usize)>::empty());
        assert(file@.subrange(from, from + 0) =~= Seq::<u8>::empty());
        assert forall|i: int| 0 <= i < mid.len() implies channel_read(
            mid[i],
            #[trigger] channel_group.cn@[i],
            file@.subrange(from, from + 0),
            rl,
            0,
            names,
            with_invalid,
        ) by {
            lemma_read_nothing(mid[i], rl, 0, names, with_invalid);
        }
        assert forall|i: int|
            0 <= i < mid.len() && channel_selected(#[trigger] mid[i], names) implies has_room(
            mid[i],
            rl,
            cc,
        ) by {
            lemma_room_after_init(old(channel_group).cn@[i], mid[i], cycle_count, rl, names);
        }
    }
    let ghost mut done: nat = 0;
    while k < pieces.len()
        invariant
            k <= pieces.len(),
            rl > 0,
            rl == record_length,
            from == start,
            from + rl * cc <= file.len(),
            cc <= usize::MAX,
            plan == chunk_plan(rl, cc),
            pieces@ == Seq::new(plan.len(), |j: int| piece_at(plan, j, start, rl)),
            planned_records(plan) == cc,
            forall|i: int| 0 <= i < plan.len() ==> (#[trigger] plan[i]).1 == rl * plan[i].0,
            done == planned_records(plan.subrange(0, k as int)),
            done <= cc,
            same_group(*old(channel_group), *channel_group),
            mid.len() == channel_group.cn@.len(),
            with_invalid == (old(channel_group).block.cg_inval_bytes > 0),
            names == channel_names_to_read_in_dg@,
            forall|i: int|
                0 <= i < mid.len() && channel_selected(#[trigger] mid[i], names) ==> has_room(
                    mid[i],
                    rl,
                    cc,
                ),
            forall|i: int|
                0 <= i < mid.len() ==> channel_read(
                    mid[i],
                    #[trigger] channel_group.cn@[i],
                    file@.subrange(from, from + rl * done),
                    rl,
                    0,
                    names,
                    with_invalid,
                ),
        decreases pieces.len() - k,
    {
        let piece = pieces[k];
        proof {
            assert(piece == piece_at(plan, k as int, start, rl));
            lemma_planned_prefix(plan, k as int);
            lemma_planned_prefix(plan, k + 1);
            assert(rl * (done + plan[k as int].0) == rl * done + rl * plan[k as int].0 && rl * (
            done + plan[k as int].0) <= rl * cc && done * rl == rl * done) by (nonlinear_arith)
                requires
                    done + plan[k as int].0 <= cc,
                    rl > 0,
            ;
        }
        let at = piece.offset as usize;
        let bytes = vstd::slice::slice_subrange(file, at, at + piece.len);
        let ghost before = channel_group.cn@;
        let _ = read_channels_from_bytes(
            bytes,
            &mut channel_group.cn,
            record_length,
            piece.first_record,
            channel_names_to_read_in_dg,
            with_invalid,
        );
        proof {
            let a = file@.subrange(from, from + rl * done);
            let b = bytes@;
            let n = plan[k as int].0 as nat;
            assert(a + b =~= file@.subrange(from, from + rl * (done + n)));
            assert(b.len() / rl == n) by {
                vstd::arithmetic::div_mod::lemma_div_multiples_vanish(n as int, rl as int);
                assert(rl * n == n * rl) by (nonlinear_arith);
            }
            assert(a.len() == done * rl) by (nonlinear_arith)
                requires
                    a.len() == rl * done,
            ;
            assert forall|i: int| 0 <= i < mid.len() implies channel_read(
                mid[i],
                #[trigger] channel_group.cn@[i],
                file@.subrange(from, from + rl * (done + n)),
                rl,
                0,
                names,
                with_invalid,
            ) by {
                if channel_selected(mid[i], names) {
                    lemma_room_for_fewer(mid[i], rl, cc, done + n);
                }
                lemma_chunked_read(
                    mid[i],
                    before[i],
                    channel_group.cn@[i],
                    a,
                    b,
                    rl,
                    0,
                    done,
                    names,
                    with_invalid,
                );
            }
            done = done + n;
        }
        k += 1;
    }
    let ghost pre = channel_group.cn@;
    finish_sorted(channel_group, channel_names_to_read_in_dg, total);
    proof {
        assert(plan.subrange(0, k as int) =~= plan);
        let records = file@.subrange(from, from + rl * cc);
        assert forall|j: int| 0 <= j < old(channel_group).cn@.len() implies sorted_read(
            old(channel_group).cn@[j],
            #[trigger] channel_group.cn@[j],
            records,
            rl,
            cycle_count,
            names,
            with_invalid,
        ) by {
            let o = old(channel_group).cn@[j];
            if name_listed(names, o.unique_name@) && !o.channel_data_valid {
                assert(sorted_read_via(
                    o,
                    mid[j],
                    pre[j],
                    channel_group.cn@[j],
                    records,
                    rl,
                    cycle_count,
                    names,
                    with_invalid,
                ));
            }
        }
    }
}

/// Reads the records of the channel group of a data group of sorted data
/// out of `file` piece by piece, as a caller does that holds the file and
/// not its bytes. Tells whether the records were read; where they cannot be
/// read in this way, the data group stays as it was.
pub fn read_in_pieces(file: &[u8], dg: &mut Dg4, channel_names_to_read_in_dg: &Vec<String>) -> (done:
    bool)
    ensures
        final(dg).block == old(dg).block,
        final(dg).block_position == old(dg).block_position,
        match records_in(file@, *old(dg)) {
            None => !done && *final(dg) == *old(dg),
            Some(records) => {
                &&& done
                &&& final(dg).cg@.len() == 1
                &&& same_group(old(dg).cg@[0], final(dg).cg@[0])
                &&& forall|i: int|
                    0 <= i < old(dg).cg@[0].cn@.len() ==> sorted_read(
                        old(dg).cg@[0].cn@[i],
                        #[trigger] final(dg).cg@[0].cn@[i],
                        records,
                        old(dg).cg@[0].record_length as nat,
                        old(dg).cg@[0].block.cg_cycle_count,
                        channel_names_to_read_in_dg@,
                        old(dg).cg@[0].block.cg_inval_bytes > 0,
                    )
            },
        },
{
    let link = dg.block.dg_data;
    let file_len = file.len();
    if link <= 0 || link as u64 > file_len as u64 {
        return false;
    }
    let at = link as usize;
    if file_len - at < HEADER4_SIZE {
        return false;
    }
    let header = vstd::slice::slice_subrange(file, at, at + HEADER4_SIZE);
    let start = match find_records(header, dg) {
        Some(s) => s,
        None => {
            return false;
        },
    };
    let needed: u64 = (dg.cg[0].record_length as u64) * dg.cg[0].block.cg_cycle_count;
    if start > file_len as u64 || file_len as u64 - start < needed {
        return false;
    }
    read_pieces(file, &mut dg.cg[0], channel_names_to_read_in_dg, start);
    true
}

} // verus!
