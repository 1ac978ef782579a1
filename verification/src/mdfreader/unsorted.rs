//! Unsorted data: the records of several channel groups lie mixed in one
//! stream, each behind the record id of its group. The stream is taken apart
//! into one buffer of records per group.

use crate::bytes::field;
use crate::bytes::le_uint;
use crate::bytes::read_uint;
use crate::bytes::u32_at;
use crate::bytes::u32_le_at;
use crate::error::MdfError;
use crate::bytes::vec_at;
use crate::mdfinfo::mdfinfo4::Cg4;
use crate::mdfinfo::mdfinfo4::Cn4;
use crate::mdfinfo::mdfinfo4::Dg4;
use crate::mdfreader::data_read4::channel_read;
use crate::mdfreader::data_read4::read_channels_from_bytes;
use crate::mdfreader::channel_data::byte_rows;
use crate::mdfreader::channel_data::texts;
use crate::mdfreader::channel_data::ChannelData;
use crate::mdfreader::channel_data::ElemKind;
use crate::mdfreader::data_read4::same_description;
use crate::mdfreader::mdfreader4::same_group;
use crate::mdfreader::record_layout::text_value;
use crate::text::sbc_string;
use crate::text::utf16_string;
use crate::text::utf8_string;
use crate::text::MAX_TEXT_BYTES;
use vstd::prelude::*;

verus! {

/// The index of the first group with the record id `rec_id`.
pub open spec fn group_index(cgs: Seq<Cg4>, rec_id: u64) -> Option<int>
    decreases cgs.len(),
{
    if cgs.len() == 0 {
        None
    } else {
        match group_index(cgs.drop_last(), rec_id) {
            Some(i) => Some(i),
            None => if cgs.last().block.cg_record_id == rec_id {
                Some(cgs.len() - 1)
            } else {
                None
            },
        }
    }
}

/// An index that is found among the first groups is found among all.
pub proof fn lemma_group_index_prefix(cgs: Seq<Cg4>, rec_id: u64, k: int)
    requires
        0 <= k <= cgs.len(),
        group_index(cgs.subrange(0, k), rec_id) is Some,
    ensures
        group_index(cgs, rec_id) == group_index(cgs.subrange(0, k), rec_id),
    decreases cgs.len() - k,
{
    if k < cgs.len() {
        assert(cgs.subrange(0, k + 1).drop_last() =~= cgs.subrange(0, k));
        lemma_group_index_prefix(cgs, rec_id, k + 1);
    } else {
        assert(cgs.subrange(0, k) =~= cgs);
    }
}

/// An index that is found is that of a group with the record id.
pub proof fn lemma_group_index_found(cgs: Seq<Cg4>, rec_id: u64)
    ensures
        group_index(cgs, rec_id) is Some ==> 0 <= group_index(cgs, rec_id)->0 < cgs.len()
            && cgs[group_index(cgs, rec_id)->0].block.cg_record_id == rec_id,
    decreases cgs.len(),
{
    if cgs.len() > 0 {
        lemma_group_index_found(cgs.drop_last(), rec_id);
    }
}

/// Finds the first group with the record id `rec_id`.
pub fn find_group(cgs: &Vec<Cg4>, rec_id: u64) -> (r: Option<usize>)
    ensures
        r is Some <==> group_index(cgs@, rec_id) is Some,
        r is Some ==> r->0 == group_index(cgs@, rec_id)->0 && r->0 < cgs@.len(),
{
    let mut i: usize = 0;
    proof {
        assert(cgs@.subrange(0, 0) =~= Seq::<Cg4>::empty());
    }
    while i < cgs.len()
        invariant
            i <= cgs.len(),
            group_index(cgs@.subrange(0, i as int), rec_id) is None,
        decreases cgs.len() - i,
    {
        proof {
            assert(cgs@.subrange(0, i + 1).drop_last() =~= cgs@.subrange(0, i as int));
        }
        if cgs[i].block.cg_record_id == rec_id {
            proof {
                lemma_group_index_prefix(cgs@, rec_id, i + 1);
            }
            return Some(i);
        }
        i += 1;
    }
    proof {
        assert(cgs@.subrange(0, i as int) =~= cgs@);
    }
    None
}

/// A record in a stream of unsorted data.
#[derive(Debug, Clone, Copy, PartialEq, Eq, Structural)]
pub struct RecordAt {
    /// The index of the record's group.
    pub group: usize,
    /// The first byte that is kept of the record: the record id of a record
    /// of fixed length, and the first byte of the value of one of variable
    /// length.
    pub start: usize,
    /// The number of bytes that are kept.
    pub len: usize,
    /// The offset of the byte after the record.
    pub next: usize,
    /// True for a record of variable length.
    pub vlsd: bool,
}

/// What is found at a place in a stream of unsorted data.
#[derive(Debug, Clone, Copy, PartialEq, Eq, Structural)]
pub enum Step {
    /// A whole record.
    Record(RecordAt),
    /// The start of a record whose end is not yet in the stream, or nothing.
    NeedMore,
    /// A record id of no group, a record id of a size that the format does
    /// not have, or a group whose records are shorter than their record id.
    Corrupt,
}

/// True for the sizes that a record id can have.
pub open spec fn id_size_ok(rec_id_size: u8) -> bool {
    rec_id_size == 1 || rec_id_size == 2 || rec_id_size == 4 || rec_id_size == 8
}

/// What is found at `pos` in the stream `data`.
///
/// A record starts with its record id, by which its group is found. A record
/// of a group of fixed length is as long as the group's records are, the
/// record id included, and is kept whole. A record of a group of variable
/// length holds the length of its value in four bytes after the record id,
/// and then the value, which alone is kept.
pub open spec fn step_at(data: Seq<u8>, pos: int, rec_id_size: u8, cgs: Seq<Cg4>) -> Step {
    let remaining = data.len() - pos;
    if !id_size_ok(rec_id_size) {
        Step::Corrupt
    } else if remaining < rec_id_size {
        Step::NeedMore
    } else {
        let rec_id = le_uint(field(data, pos, rec_id_size as int)) as u64;
        match group_index(cgs, rec_id) {
            None => Step::Corrupt,
            Some(g) => {
                let cg = cgs[g];
                if cg.block.cg_flags & 1 != 0 {
                    if remaining < rec_id_size + 4 {
                        Step::NeedMore
                    } else {
                        let len = u32_at(data, pos + rec_id_size);
                        if remaining < rec_id_size + 4 + len {
                            Step::NeedMore
                        } else {
                            Step::Record(
                                RecordAt {
                                    group: g as usize,
                                    start: (pos + rec_id_size + 4) as usize,
                                    len: len as usize,
                                    next: (pos + rec_id_size + 4 + len) as usize,
                                    vlsd: true,
                                },
                            )
                        }
                    }
                } else if cg.record_length < rec_id_size {
                    Step::Corrupt
                } else if remaining < cg.record_length {
                    Step::NeedMore
                } else {
                    Step::Record(
                        RecordAt {
                            group: g as usize,
                            start: pos as usize,
                            len: cg.record_length as usize,
                            next: (pos + cg.record_length) as usize,
                            vlsd: false,
                        },
                    )
                }
            },
        }
    }
}

/// A record that is found lies within the stream and ends after its start.
pub proof fn lemma_step_bounds(data: Seq<u8>, pos: int, rec_id_size: u8, cgs: Seq<Cg4>)
    requires
        0 <= pos <= data.len() <= usize::MAX,
    ensures
        step_at(data, pos, rec_id_size, cgs) matches Step::Record(r) ==> pos < r.next
            <= data.len() && pos <= r.start && r.start + r.len == r.next && r.group < cgs.len(),
{
    if id_size_ok(rec_id_size) && data.len() - pos >= rec_id_size {
        let rec_id = le_uint(field(data, pos, rec_id_size as int)) as u64;
        lemma_group_index_found(cgs, rec_id);
    }
}

/// Looks at what is found at `pos` in the stream.
pub fn next_step(data: &[u8], pos: usize, rec_id_size: u8, cgs: &Vec<Cg4>) -> (r: Step)
    requires
        pos <= data.len(),
    ensures
        r == step_at(data@, pos as int, rec_id_size, cgs@),
{
    let remaining = data.len() - pos;
    if !(rec_id_size == 1 || rec_id_size == 2 || rec_id_size == 4 || rec_id_size == 8) {
        return Step::Corrupt;
    }
    let id_size = rec_id_size as usize;
    if remaining < id_size {
        return Step::NeedMore;
    }
    let rec_id = read_uint(data, pos, id_size, false);
    let g = match find_group(cgs, rec_id) {
        Some(g) => g,
        None => {
            return Step::Corrupt;
        },
    };
    let cg = &cgs[g];
    if cg.block.cg_flags & 1 != 0 {
        if remaining < id_size + 4 {
            return Step::NeedMore;
        }
        let len = u32_le_at(data, pos + id_size) as usize;
        if remaining - id_size - 4 < len {
            return Step::NeedMore;
        }
        Step::Record(
            RecordAt {
                group: g,
                start: pos + id_size + 4,
                len,
                next: pos + id_size + 4 + len,
                vlsd: true,
            },
        )
    } else {
        let record_length = cg.record_length as usize;
        if record_length < id_size {
            return Step::Corrupt;
        }
        if remaining < record_length {
            return Step::NeedMore;
        }
        Step::Record(
            RecordAt {
                group: g,
                start: pos,
                len: record_length,
                next: pos + record_length,
                vlsd: false,
            },
        )
    }
}

/// The records of fixed length of group `g` that the stream holds from
/// `pos` on, one after the other in the order of the stream, up to the first
/// place where no whole record is found.
pub open spec fn fixed_records(
    data: Seq<u8>,
    pos: int,
    rec_id_size: u8,
    cgs: Seq<Cg4>,
    g: int,
) -> Seq<u8>
    decreases data.len() - pos,
{
    if 0 <= pos <= data.len() <= usize::MAX {
        match step_at(data, pos, rec_id_size, cgs) {
            Step::Record(r) => {
                if pos < r.next <= data.len() {
                    let rest = fixed_records(data, r.next as int, rec_id_size, cgs, g);
                    if !r.vlsd && r.group == g {
                        data.subrange(r.start as int, r.start + r.len) + rest
                    } else {
                        rest
                    }
                } else {
                    Seq::empty()
                }
            },
            _ => Seq::empty(),
        }
    } else {
        Seq::empty()
    }
}

/// The records of variable length that the stream holds from `pos` on, in
/// the order of the stream.
pub open spec fn vlsd_records(data: Seq<u8>, pos: int, rec_id_size: u8, cgs: Seq<Cg4>) -> Seq<
    RecordAt,
>
    decreases data.len() - pos,
{
    if 0 <= pos <= data.len() <= usize::MAX {
        match step_at(data, pos, rec_id_size, cgs) {
            Step::Record(r) => {
                if pos < r.next <= data.len() {
                    let rest = vlsd_records(data, r.next as int, rec_id_size, cgs);
                    if r.vlsd {
                        seq![r] + rest
                    } else {
                        rest
                    }
                } else {
                    Seq::empty()
                }
            },
            _ => Seq::empty(),
        }
    } else {
        Seq::empty()
    }
}

/// The first place from `pos` on at which the stream holds no whole record.
pub open spec fn stream_end(data: Seq<u8>, pos: int, rec_id_size: u8, cgs: Seq<Cg4>) -> int
    decreases data.len() - pos,
{
    if 0 <= pos <= data.len() <= usize::MAX {
        match step_at(data, pos, rec_id_size, cgs) {
            Step::Record(r) => {
                if pos < r.next <= data.len() {
                    stream_end(data, r.next as int, rec_id_size, cgs)
                } else {
                    pos
                }
            },
            _ => pos,
        }
    } else {
        pos
    }
}

/// True where the stream, taken record by record, ends at a place that
/// cannot be the start of a record.
pub open spec fn stream_corrupt(data: Seq<u8>, rec_id_size: u8, cgs: Seq<Cg4>) -> bool {
    step_at(data, stream_end(data, 0, rec_id_size, cgs), rec_id_size, cgs) is Corrupt
}

/// What a stream was taken apart into.
#[derive(Debug)]
pub struct Demuxed {
    /// The records of variable length, in the order of the stream.
    pub vlsd: Vec<RecordAt>,
    /// The number of bytes of the stream that were taken: what follows is
    /// the start of a record whose end is yet to come.
    pub consumed: usize,
}

/// Takes a stream of unsorted data apart: the records of fixed length of
/// each group are added to the group's buffer in `sinks`, in the order of the
/// stream, and the records of variable length are listed.
///
/// Fails, with the buffers filled up to that place, where the stream holds
/// what cannot be a record; `block_position` is the offset of the stream in
/// the file, for the error.
pub fn demux(
    data: &[u8],
    rec_id_size: u8,
    cgs: &Vec<Cg4>,
    sinks: &mut Vec<Vec<u8>>,
    block_position: u64,
) -> (r: Result<Demuxed, MdfError>)
    requires
        old(sinks)@.len() == cgs@.len(),
    ensures
        final(sinks)@.len() == cgs@.len(),
        forall|g: int|
            0 <= g < cgs@.len() ==> (#[trigger] final(sinks)@[g])@ == old(sinks)@[g]@
                + fixed_records(data@, 0, rec_id_size, cgs@, g),
        match r {
            Ok(d) => {
                &&& !stream_corrupt(data@, rec_id_size, cgs@)
                &&& d.vlsd@ == vlsd_records(data@, 0, rec_id_size, cgs@)
                &&& d.consumed == stream_end(data@, 0, rec_id_size, cgs@)
                &&& d.consumed <= data@.len()
            },
            Err(e) => {
                &&& stream_corrupt(data@, rec_id_size, cgs@)
                &&& e == MdfError::CorruptBlock {
                    offset: block_position,
                    expected: stream_end(data@, 0, rec_id_size, cgs@) as u64,
                    actual: data@.len() as u64,
                }
            },
        },
{
    let mut vlsd: Vec<RecordAt> = Vec::new();
    let mut pos: usize = 0;
    let total = data.len();
    proof {
        assert forall|g: int| 0 <= g < cgs@.len() implies (#[trigger] sinks@[g])@ + fixed_records(
            data@,
            0,
            rec_id_size,
            cgs@,
            g,
        ) == old(sinks)@[g]@ + fixed_records(data@, 0, rec_id_size, cgs@, g) by {}
        assert(vlsd@ + vlsd_records(data@, 0, rec_id_size, cgs@) =~= vlsd_records(
            data@,
            0,
            rec_id_size,
            cgs@,
        ));
    }
    loop
        invariant
            pos <= data.len(),
            total == data.len(),
            sinks@.len() == cgs@.len(),
            forall|g: int|
                0 <= g < cgs@.len() ==> (#[trigger] sinks@[g])@ + fixed_records(
                    data@,
                    pos as int,
                    rec_id_size,
                    cgs@,
                    g,
                ) == old(sinks)@[g]@ + fixed_records(data@, 0, rec_id_size, cgs@, g),
            vlsd@ + vlsd_records(data@, pos as int, rec_id_size, cgs@) == vlsd_records(
                data@,
                0,
                rec_id_size,
                cgs@,
            ),
            stream_end(data@, pos as int, rec_id_size, cgs@) == stream_end(
                data@,
                0,
                rec_id_size,
                cgs@,
            ),
        decreases data.len() - pos,
    {
        proof {
            lemma_step_bounds(data@, pos as int, rec_id_size, cgs@);
        }
        match next_step(data, pos, rec_id_size, cgs) {
            Step::Record(record) => {
                let ghost before = sinks@;
                let ghost listed = vlsd@;
                if record.vlsd {
                    vlsd.push(record);
                } else {
                    let bytes = vstd::slice::slice_subrange(
                        data,
                        record.start,
                        record.start + record.len,
                    );
                    let sink = &mut sinks[record.group];
                    extend_bytes(sink, bytes);
                }
                proof {
                    let next = record.next as int;
                    assert forall|g: int| 0 <= g < cgs@.len() implies (#[trigger] sinks@[g])@
                        + fixed_records(data@, next, rec_id_size, cgs@, g) == old(sinks)@[g]@
                        + fixed_records(data@, 0, rec_id_size, cgs@, g) by {
                        let rest = fixed_records(data@, next, rec_id_size, cgs@, g);
                        if !record.vlsd && record.group == g {
                            let piece = data@.subrange(
                                record.start as int,
                                record.start + record.len,
                            );
                            assert(sinks@[g]@ + rest =~= before[g]@ + (piece + rest));
                        } else {
                            assert(sinks@[g] == before[g]);
                        }
                    }
                    let rest = vlsd_records(data@, next, rec_id_size, cgs@);
                    if record.vlsd {
                        assert(vlsd@ + rest =~= listed + (seq![record] + rest));
                    }
                }
                pos = record.next;
            },
            Step::NeedMore => {
                proof {
                    assert forall|g: int| 0 <= g < cgs@.len() implies (#[trigger] sinks@[g])@
                        == old(sinks)@[g]@ + fixed_records(data@, 0, rec_id_size, cgs@, g) by {
                        assert(sinks@[g]@ + Seq::<u8>::empty() =~= sinks@[g]@);
                    }
                    assert(vlsd@ + Seq::<RecordAt>::empty() =~= vlsd@);
                }
                return Ok(Demuxed { vlsd, consumed: pos });
            },
            Step::Corrupt => {
                proof {
                    assert forall|g: int| 0 <= g < cgs@.len() implies (#[trigger] sinks@[g])@
                        == old(sinks)@[g]@ + fixed_records(data@, 0, rec_id_size, cgs@, g) by {
                        assert(sinks@[g]@ + Seq::<u8>::empty() =~= sinks@[g]@);
                    }
                }
                return Err(
                    MdfError::CorruptBlock {
                        offset: block_position,
                        expected: pos as u64,
                        actual: total as u64,
                    },
                );
            },
        }
    }
}

/// Adds `bytes` to the end of `sink`.
pub fn extend_bytes(sink: &mut Vec<u8>, bytes: &[u8])
    ensures
        final(sink)@ == old(sink)@ + bytes@,
{
    let mut i: usize = 0;
    proof {
        assert(sink@ =~= old(sink)@ + bytes@.subrange(0, 0));
    }
    while i < bytes.len()
        invariant
            i <= bytes.len(),
            sink@ == old(sink)@ + bytes@.subrange(0, i as int),
        decreases bytes.len() - i,
    {
        sink.push(bytes[i]);
        proof {
            assert(sink@ =~= old(sink)@ + bytes@.subrange(0, i + 1));
        }
        i += 1;
    }
    proof {
        assert(bytes@.subrange(0, i as int) =~= bytes@);
    }
}

/// `new` is the column `old` after the value `record` of variable length
/// was stored as sample `nrecord`: decoded as text where the column holds
/// text, and copied where it holds byte strings. A column of another kind, or
/// one without such a sample, is unchanged; so is a column of text for a
/// value that is too long to decode.
pub open spec fn vlsd_saved(
    old: ChannelData,
    new: ChannelData,
    record: Seq<u8>,
    nrecord: nat,
    big_endian: bool,
) -> bool {
    let kind = old.kind();
    &&& new.kind() == kind
    &&& new.shape() == old.shape()
    &&& new.row_bytes() == old.row_bytes()
    &&& new.ints() == old.ints()
    &&& new.strings() == if kind.text() && nrecord < old.strings().len() && record.len()
        <= MAX_TEXT_BYTES {
        old.strings().update(nrecord as int, text_value(kind, record, big_endian))
    } else {
        old.strings()
    }
    &&& new.rows() == if kind is VariableSizeByteArray && nrecord < old.rows().len() {
        old.rows().update(nrecord as int, record)
    } else {
        old.rows()
    }
}

/// Stores one text of variable length as sample `nrecord` of a column.
fn save_text(v: &mut Vec<String>, record: &[u8], nrecord: usize, kind: ElemKind, endian: bool)
    requires
        kind.text(),
    ensures
        texts(final(v)@) == if nrecord < old(v)@.len() && record@.len() <= MAX_TEXT_BYTES {
            texts(old(v)@).update(nrecord as int, text_value(kind, record@, endian))
        } else {
            texts(old(v)@)
        },
{
    if nrecord < v.len() && record.len() <= MAX_TEXT_BYTES {
        let s = match kind {
            ElemKind::StringUTF8 => utf8_string(record),
            ElemKind::StringUTF16 => utf16_string(record, endian),
            _ => sbc_string(record),
        };
        v[nrecord] = s;
        proof {
            assert(texts(v@) =~= texts(old(v)@).update(
                nrecord as int,
                text_value(kind, record@, endian),
            ));
        }
    }
}

/// Stores one byte string of variable length as sample `nrecord` of a column.
fn save_row(v: &mut Vec<Vec<u8>>, record: &[u8], nrecord: usize)
    ensures
        byte_rows(final(v)@) == if nrecord < old(v)@.len() {
            byte_rows(old(v)@).update(nrecord as int, record@)
        } else {
            byte_rows(old(v)@)
        },
{
    if nrecord < v.len() {
        let row = vec_at(record, 0, record.len());
        proof {
            assert(row@ =~= record@);
        }
        v[nrecord] = row;
        proof {
            assert(byte_rows(v@) =~= byte_rows(old(v)@).update(nrecord as int, record@));
        }
    }
}

/// Stores a value of variable length as sample `nrecord` of a column.
pub fn save_vlsd(data: &mut ChannelData, record: &[u8], nrecord: usize, endian: bool)
    ensures
        vlsd_saved(*old(data), *final(data), record@, nrecord as nat, endian),
{
    let kind = data.elem_kind();
    match data {
        ChannelData::StringSBC(v) => save_text(v, record, nrecord, kind, endian),
        ChannelData::StringUTF8(v) => save_text(v, record, nrecord, kind, endian),
        ChannelData::StringUTF16(v) => save_text(v, record, nrecord, kind, endian),
        ChannelData::VariableSizeByteArray(v) => save_row(v, record, nrecord),
        _ => {},
    }
}

/// The index of the first channel of `cns` at the position `rec_pos` of the
/// record.
pub open spec fn channel_index(cns: Seq<Cn4>, rec_pos: i32) -> Option<int>
    decreases cns.len(),
{
    if cns.len() == 0 {
        None
    } else {
        match channel_index(cns.drop_last(), rec_pos) {
            Some(i) => Some(i),
            None => if cns.last().rec_pos == rec_pos {
                Some(cns.len() - 1)
            } else {
                None
            },
        }
    }
}

/// An index that is found among the first channels is found among all.
pub proof fn lemma_channel_index_prefix(cns: Seq<Cn4>, rec_pos: i32, k: int)
    requires
        0 <= k <= cns.len(),
        channel_index(cns.subrange(0, k), rec_pos) is Some,
    ensures
        channel_index(cns, rec_pos) == channel_index(cns.subrange(0, k), rec_pos),
    decreases cns.len() - k,
{
    if k < cns.len() {
        assert(cns.subrange(0, k + 1).drop_last() =~= cns.subrange(0, k));
        lemma_channel_index_prefix(cns, rec_pos, k + 1);
    } else {
        assert(cns.subrange(0, k) =~= cns);
    }
}

/// Finds the first channel at the position `rec_pos` of the record.
pub fn find_channel(cns: &Vec<Cn4>, rec_pos: i32) -> (r: Option<usize>)
    ensures
        r is Some <==> channel_index(cns@, rec_pos) is Some,
        r is Some ==> r->0 == channel_index(cns@, rec_pos)->0 && r->0 < cns@.len(),
{
    let mut i: usize = 0;
    proof {
        assert(cns@.subrange(0, 0) =~= Seq::<Cn4>::empty());
    }
    while i < cns.len()
        invariant
            i <= cns.len(),
            channel_index(cns@.subrange(0, i as int), rec_pos) is None,
        decreases cns.len() - i,
    {
        proof {
            assert(cns@.subrange(0, i + 1).drop_last() =~= cns@.subrange(0, i as int));
        }
        if cns[i].rec_pos == rec_pos {
            proof {
                lemma_channel_index_prefix(cns@, rec_pos, i + 1);
            }
            return Some(i);
        }
        i += 1;
    }
    proof {
        assert(cns@.subrange(0, i as int) =~= cns@);
    }
    None
}

/// The channel for which the group `g` holds values of variable length.
#[derive(Debug, Clone, Copy, PartialEq, Eq, Structural)]
pub struct Target {
    /// The index of the channel's group.
    pub group: usize,
    /// The index of the channel in its group.
    pub channel: usize,
}

/// The channel to which the values of the group `g` belong; `None` where the
/// group names none, or names one that is not there.
pub open spec fn vlsd_target(cgs: Seq<Cg4>, g: int) -> Option<Target> {
    match cgs[g].vlsd {
        Some((rec_id, rec_pos)) => match group_index(cgs, rec_id) {
            Some(tg) => match channel_index(cgs[tg].cn@, rec_pos) {
                Some(ci) => Some(Target { group: tg as usize, channel: ci as usize }),
                None => None,
            },
            None => None,
        },
        None => None,
    }
}

/// Finds the channel to which the values of the group `g` belong.
pub fn find_target(cgs: &Vec<Cg4>, g: usize) -> (r: Option<Target>)
    requires
        g < cgs@.len(),
    ensures
        r == vlsd_target(cgs@, g as int),
        r is Some ==> r->0.group < cgs@.len() && r->0.channel < cgs@[r->0.group as int].cn@.len(),
{
    match cgs[g].vlsd {
        Some((rec_id, rec_pos)) => match find_group(cgs, rec_id) {
            Some(tg) => match find_channel(&cgs[tg].cn, rec_pos) {
                Some(ci) => Some(Target { group: tg, channel: ci }),
                None => None,
            },
            None => None,
        },
        None => None,
    }
}

/// Everything of a channel but its samples is the same in `a` and `b`.
pub open spec fn same_but_data(a: Cn4, b: Cn4) -> bool {
    &&& same_description(a, b)
    &&& a.invalid_mask == b.invalid_mask
    &&& a.channel_data_valid == b.channel_data_valid
}

/// `new` are the groups `old` after the value of the record `r` of variable
/// length was stored as sample `nrecord` of the channel to which the values
/// of the record's group belong. Nothing changes where there is no such
/// channel.
pub open spec fn stored_one(
    old: Seq<Cg4>,
    new: Seq<Cg4>,
    data: Seq<u8>,
    r: RecordAt,
    nrecord: nat,
) -> bool {
    &&& new.len() == old.len()
    &&& forall|g: int|
        0 <= g < old.len() ==> same_group(old[g], #[trigger] new[g]) && forall|i: int|
            0 <= i < old[g].cn@.len() ==> {
                let target = vlsd_target(old, r.group as int);
                if target is Some && target->0.group == g && target->0.channel == i {
                    &&& same_but_data(old[g].cn@[i], #[trigger] new[g].cn@[i])
                    &&& vlsd_saved(
                        old[g].cn@[i].data,
                        new[g].cn@[i].data,
                        data.subrange(r.start as int, r.start + r.len),
                        nrecord,
                        old[g].cn@[i].endian,
                    )
                } else {
                    new[g].cn@[i] == old[g].cn@[i]
                }
            }
}

/// The number of records of the group `g` among `records`.
pub open spec fn records_of(records: Seq<RecordAt>, g: int) -> nat
    decreases records.len(),
{
    if records.len() == 0 {
        0
    } else {
        records_of(records.drop_last(), g) + if records.last().group == g {
            1nat
        } else {
            0nat
        }
    }
}

/// Stores the value of one record of variable length.
fn store_record(cgs: &mut Vec<Cg4>, data: &[u8], r: &RecordAt, nrecord: usize)
    requires
        r.group < old(cgs)@.len(),
        r.start + r.len <= data@.len(),
    ensures
        stored_one(old(cgs)@, final(cgs)@, data@, *r, nrecord as nat),
        forall|g: int|
            0 <= g < old(cgs)@.len() ==> (#[trigger] final(cgs)@[g]).vlsd == old(cgs)@[g].vlsd,
{
    let total = data.len();
    let target = match find_target(cgs, r.group) {
        Some(t) => t,
        None => {
            return ;
        },
    };
    let bytes = vstd::slice::slice_subrange(data, r.start, r.start + r.len);
    let cg = &mut cgs[target.group];
    let cn = &mut cg.cn[target.channel];
    let endian = cn.endian;
    save_vlsd(&mut cn.data, bytes, nrecord, endian);
    proof {
        let tg = target.group as int;
        let ci = target.channel as int;
        assert forall|g: int| 0 <= g < old(cgs)@.len() implies same_group(
            old(cgs)@[g],
            #[trigger] cgs@[g],
        ) && forall|i: int|
            0 <= i < old(cgs)@[g].cn@.len() ==> {
                let target = vlsd_target(old(cgs)@, r.group as int);
                if target is Some && target->0.group == g && target->0.channel == i {
                    &&& same_but_data(old(cgs)@[g].cn@[i], #[trigger] cgs@[g].cn@[i])
                    &&& vlsd_saved(
                        old(cgs)@[g].cn@[i].data,
                        cgs@[g].cn@[i].data,
                        data@.subrange(r.start as int, r.start + r.len),
                        nrecord as nat,
                        old(cgs)@[g].cn@[i].endian,
                    )
                } else {
                    cgs@[g].cn@[i] == old(cgs)@[g].cn@[i]
                }
            } by {
            if g == tg {
                assert forall|i: int| 0 <= i < old(cgs)@[g].cn@.len() && i != ci implies cgs@[g].cn@[i]
                    == old(cgs)@[g].cn@[i] by {}
            } else {
                assert(cgs@[g] == old(cgs)@[g]);
            }
        }
    }
}

/// `c` counted up by one, unless it is the largest number of the machine.
pub open spec fn bump(c: usize) -> usize {
    if c < usize::MAX {
        (c + 1) as usize
    } else {
        c
    }
}

/// `c` counted up `k` times.
pub open spec fn counted(c: usize, k: nat) -> usize
    decreases k,
{
    if k == 0 {
        c
    } else {
        bump(counted(c, (k - 1) as nat))
    }
}

/// `c` moved on by `n`, or the largest number of the machine.
pub open spec fn moved_on(c: usize, n: nat) -> usize {
    if c + n > usize::MAX {
        usize::MAX
    } else {
        (c + n) as usize
    }
}

/// `states` are the groups as they are before the values of the records
/// `records` are stored and after each of them: each state follows from the
/// one before it by the storing of one value, the values of each group
/// counted on from `counts`.
pub open spec fn stored_steps(
    states: Seq<Seq<Cg4>>,
    data: Seq<u8>,
    records: Seq<RecordAt>,
    counts: Seq<usize>,
) -> bool {
    &&& states.len() == records.len() + 1
    &&& forall|k: int|
        0 <= k < records.len() ==> stored_one(
            #[trigger] states[k],
            states[k + 1],
            data,
            records[k],
            counted(
                counts[records[k].group as int],
                records_of(records.subrange(0, k), records[k].group as int),
            ) as nat,
        )
}

/// `new` are the groups `old` after the values of the records `records`
/// were stored in turn, the values of each group counted on from `counts`.
pub open spec fn vlsd_stored(
    old: Seq<Cg4>,
    new: Seq<Cg4>,
    data: Seq<u8>,
    records: Seq<RecordAt>,
    counts: Seq<usize>,
) -> bool {
    exists|states: Seq<Seq<Cg4>>|
        {
            &&& #[trigger] stored_steps(states, data, records, counts)
            &&& states[0] == old
            &&& states.last() == new
        }
}

/// Stores the values of the records of variable length in turn, and counts
/// them by group.
fn store_records(
    cgs: &mut Vec<Cg4>,
    data: &[u8],
    records: &Vec<RecordAt>,
    record_counter: &mut Vec<usize>,
)
    requires
        old(record_counter)@.len() == old(cgs)@.len(),
        forall|k: int|
            0 <= k < records@.len() ==> (#[trigger] records@[k]).group < old(cgs)@.len()
                && records@[k].start + records@[k].len <= data@.len(),
    ensures
        final(cgs)@.len() == old(cgs)@.len(),
        final(record_counter)@.len() == old(cgs)@.len(),
        vlsd_stored(old(cgs)@, final(cgs)@, data@, records@, old(record_counter)@),
        forall|g: int|
            0 <= g < old(cgs)@.len() ==> #[trigger] final(record_counter)@[g] == counted(
                old(record_counter)@[g],
                records_of(records@, g),
            ),
        forall|g: int|
            0 <= g < old(cgs)@.len() ==> same_group(old(cgs)@[g], #[trigger] final(cgs)@[g]),
{
    let mut k: usize = 0;
    let ghost mut states: Seq<Seq<Cg4>> = seq![cgs@];
    proof {
        assert(records@.subrange(0, 0) =~= Seq::<RecordAt>::empty());
    }
    while k < records.len()
        invariant
            k <= records.len(),
            cgs@.len() == old(cgs)@.len(),
            record_counter@.len() == old(cgs)@.len(),
            old(record_counter)@.len() == old(cgs)@.len(),
            forall|i: int|
                0 <= i < records@.len() ==> (#[trigger] records@[i]).group < old(cgs)@.len()
                    && records@[i].start + records@[i].len <= data@.len(),
            stored_steps(states, data@, records@.subrange(0, k as int), old(record_counter)@),
            states[0] == old(cgs)@,
            states.last() == cgs@,
            forall|g: int|
                0 <= g < old(cgs)@.len() ==> #[trigger] record_counter@[g] == counted(
                    old(record_counter)@[g],
                    records_of(records@.subrange(0, k as int), g),
                ),
            forall|g: int|
                0 <= g < old(cgs)@.len() ==> same_group(old(cgs)@[g], #[trigger] cgs@[g]),
        decreases records.len() - k,
    {
        let r = records[k];
        let nrecord = record_counter[r.group];
        let ghost before = cgs@;
        let ghost steps = states;
        store_record(cgs, data, &r, nrecord);
        record_counter[r.group] = if nrecord < usize::MAX {
            nrecord + 1
        } else {
            nrecord
        };
        proof {
            let upto = records@.subrange(0, k + 1);
            let so_far = records@.subrange(0, k as int);
            assert(upto.drop_last() =~= so_far);
            assert(upto.last() == r);
            states = steps.push(cgs@);
            assert forall|i: int| 0 <= i < upto.len() implies stored_one(
                #[trigger] states[i],
                states[i + 1],
                data@,
                upto[i],
                counted(
                    old(record_counter)@[upto[i].group as int],
                    records_of(upto.subrange(0, i), upto[i].group as int),
                ) as nat,
            ) by {
                if i < k {
                    assert(upto.subrange(0, i) =~= so_far.subrange(0, i));
                    assert(upto[i] == so_far[i]);
                    assert(states[i] == steps[i] && states[i + 1] == steps[i + 1]);
                } else {
                    assert(upto.subrange(0, i) =~= so_far);
                    assert(states[i] == before);
                }
            }
            assert forall|g: int| 0 <= g < old(cgs)@.len() implies same_group(
                old(cgs)@[g],
                #[trigger] cgs@[g],
            ) by {
                assert(same_group(old(cgs)@[g], before[g]));
                assert(same_group(before[g], cgs@[g]));
            }
        }
        k += 1;
    }
    proof {
        assert(records@.subrange(0, k as int) =~= records@);
    }
}

/// The records of variable length that a stream holds lie within the
/// stream and belong to groups that are there.
pub proof fn lemma_vlsd_records_bounds(data: Seq<u8>, pos: int, rec_id_size: u8, cgs: Seq<Cg4>)
    ensures
        forall|k: int|
            0 <= k < vlsd_records(data, pos, rec_id_size, cgs).len() ==> (#[trigger] vlsd_records(
                data,
                pos,
                rec_id_size,
                cgs,
            )[k]).group < cgs.len() && vlsd_records(data, pos, rec_id_size, cgs)[k].start
                + vlsd_records(data, pos, rec_id_size, cgs)[k].len <= data.len(),
    decreases data.len() - pos,
{
    let all = vlsd_records(data, pos, rec_id_size, cgs);
    if 0 <= pos <= data.len() <= usize::MAX {
        lemma_step_bounds(data, pos, rec_id_size, cgs);
        match step_at(data, pos, rec_id_size, cgs) {
            Step::Record(r) => {
                if pos < r.next <= data.len() {
                    lemma_vlsd_records_bounds(data, r.next as int, rec_id_size, cgs);
                    let rest = vlsd_records(data, r.next as int, rec_id_size, cgs);
                    assert forall|k: int| 0 <= k < all.len() implies (#[trigger] all[k]).group
                        < cgs.len() && all[k].start + all[k].len <= data.len() by {
                        if r.vlsd {
                            if k > 0 {
                                assert(all[k] == rest[k - 1]);
                            }
                        } else {
                            assert(all[k] == rest[k]);
                        }
                    }
                }
            },
            _ => {},
        }
    }
}

/// `new` are the groups `mid` after the records of fixed length of each
/// group were read into the group's channels, from the sample on at which
/// the group's counter stands.
pub open spec fn fixed_read(
    mid: Seq<Cg4>,
    new: Seq<Cg4>,
    data: Seq<u8>,
    rec_id_size: u8,
    counts: Seq<usize>,
    names: Seq<String>,
) -> bool {
    &&& new.len() == mid.len()
    &&& forall|g: int|
        0 <= g < mid.len() ==> same_group(mid[g], #[trigger] new[g]) && forall|i: int|
            0 <= i < mid[g].cn@.len() ==> channel_read(
                mid[g].cn@[i],
                #[trigger] new[g].cn@[i],
                fixed_records(data, 0, rec_id_size, mid, g),
                mid[g].record_length as nat,
                counts[g] as nat,
                names,
                mid[g].block.cg_inval_bytes > 0,
            )
}

/// `new` are the groups `old` after the records of a stream were read: first
/// the values of variable length were stored in the channels to which they
/// belong, then the records of fixed length of each group were decoded into
/// the listed channels of the group.
pub open spec fn unsorted_read(
    old: Seq<Cg4>,
    new: Seq<Cg4>,
    data: Seq<u8>,
    rec_id_size: u8,
    counts: Seq<usize>,
    names: Seq<String>,
) -> bool {
    exists|mid: Seq<Cg4>|
        {
            &&& #[trigger] vlsd_stored(
                old,
                mid,
                data,
                vlsd_records(data, 0, rec_id_size, old),
                counts,
            )
            &&& fixed_read(
                mid,
                new,
                data,
                rec_id_size,
                final_counts_before_fixed(counts, data, rec_id_size, old),
                names,
            )
        }
}

/// The counter of a group after the records of a stream were read: counted
/// up by the values of variable length of the group, and then moved on by the
/// records of fixed length of the group.
pub open spec fn counter_after(
    count: usize,
    data: Seq<u8>,
    rec_id_size: u8,
    cgs: Seq<Cg4>,
    g: int,
) -> usize {
    let stored = counted(count, records_of(vlsd_records(data, 0, rec_id_size, cgs), g));
    if cgs[g].record_length > 0 {
        moved_on(
            stored,
            fixed_records(data, 0, rec_id_size, cgs, g).len() / (cgs[g].record_length as nat),
        )
    } else {
        stored
    }
}

/// Reads a piece of a stream of unsorted data into the channels of a data
/// group.
///
/// The stream is taken apart record by record. The values of variable
/// length are stored in the channels to which they belong; the records of
/// fixed length of each group are decoded into the listed channels of the
/// group. `record_counter` holds for each group the number of records seen
/// before, and is moved on. What is left of the stream, the start of a record
/// whose end is yet to come, stays in `data` for the next piece to be added.
///
/// Fails, leaving everything as it was, where the stream holds what cannot
/// be a record.
pub fn read_all_channels_unsorted_from_bytes(
    data: &mut Vec<u8>,
    dg: &mut Dg4,
    record_counter: &mut Vec<usize>,
    channel_names_to_read_in_dg: &Vec<String>,
    block_position: u64,
) -> (r: Result<(), MdfError>)
    requires
        old(record_counter)@.len() == old(dg).cg@.len(),
    ensures
        final(dg).block == old(dg).block,
        final(dg).block_position == old(dg).block_position,
        final(dg).cg@.len() == old(dg).cg@.len(),
        final(record_counter)@.len() == old(dg).cg@.len(),
        forall|g: int|
            0 <= g < old(dg).cg@.len() ==> same_group(old(dg).cg@[g], #[trigger] final(dg).cg@[g]),
        match r {
            Ok(()) => {
                let size = old(dg).block.dg_rec_id_size;
                &&& !stream_corrupt(old(data)@, size, old(dg).cg@)
                &&& 0 <= stream_end(old(data)@, 0, size, old(dg).cg@) <= old(data)@.len()
                &&& final(data)@ == old(data)@.subrange(
                    stream_end(old(data)@, 0, size, old(dg).cg@),
                    old(data)@.len() as int,
                )
                &&& unsorted_read(
                    old(dg).cg@,
                    final(dg).cg@,
                    old(data)@,
                    size,
                    old(record_counter)@,
                    channel_names_to_read_in_dg@,
                )
                &&& forall|g: int|
                    0 <= g < old(dg).cg@.len() ==> #[trigger] final(record_counter)@[g]
                        == counter_after(
                        old(record_counter)@[g],
                        old(data)@,
                        size,
                        old(dg).cg@,
                        g,
                    )
            },
            Err(e) => {
                &&& stream_corrupt(old(data)@, old(dg).block.dg_rec_id_size, old(dg).cg@)
                &&& e == MdfError::CorruptBlock {
                    offset: block_position,
                    expected: stream_end(
                        old(data)@,
                        0,
                        old(dg).block.dg_rec_id_size,
                        old(dg).cg@,
                    ) as u64,
                    actual: old(data)@.len() as u64,
                }
                &&& final(data)@ == old(data)@
                &&& final(dg).cg@ == old(dg).cg@
                &&& final(record_counter)@ == old(record_counter)@
            },
        },
{
    let size = dg.block.dg_rec_id_size;
    let mut sinks: Vec<Vec<u8>> = Vec::with_capacity(dg.cg.len());
    let mut g: usize = 0;
    while g < dg.cg.len()
        invariant
            g <= dg.cg.len(),
            sinks@.len() == g,
            forall|k: int| 0 <= k < g ==> (#[trigger] sinks@[k])@ == Seq::<u8>::empty(),
        decreases dg.cg.len() - g,
    {
        sinks.push(Vec::new());
        g += 1;
    }
    let demuxed = match demux(data.as_slice(), size, &dg.cg, &mut sinks, block_position) {
        Ok(d) => d,
        Err(e) => {
            return Err(e);
        },
    };
    let ghost stream = data@;
    let ghost cgs0 = dg.cg@;
    let ghost counts0 = record_counter@;
    proof {
        lemma_vlsd_records_bounds(stream, 0, size, cgs0);
        assert forall|k: int| 0 <= k < cgs0.len() implies (#[trigger] sinks@[k])@ == fixed_records(
            stream,
            0,
            size,
            cgs0,
            k,
        ) by {
            assert(Seq::<u8>::empty() + fixed_records(stream, 0, size, cgs0, k) =~= fixed_records(
                stream,
                0,
                size,
                cgs0,
                k,
            ));
        }
    }
    store_records(&mut dg.cg, data.as_slice(), &demuxed.vlsd, record_counter);
    let rest = vec_at(data.as_slice(), demuxed.consumed, data.len() - demuxed.consumed);
    *data = rest;
    let ghost mid = dg.cg@;
    let ghost counts1 = record_counter@;
    proof {
        assert forall|k: int| 0 <= k < cgs0.len() implies fixed_records(stream, 0, size, mid, k)
            == fixed_records(stream, 0, size, cgs0, k) by {
            lemma_same_stream(stream, 0, size, cgs0, mid, k);
        }
    }
    let mut j: usize = 0;
    while j < dg.cg.len()
        invariant
            j <= dg.cg.len(),
            dg.cg@.len() == mid.len(),
            mid.len() == cgs0.len(),
            sinks@.len() == mid.len(),
            record_counter@.len() == mid.len(),
            dg.block == old(dg).block,
            dg.block_position == old(dg).block_position,
            forall|k: int|
                0 <= k < mid.len() ==> (#[trigger] sinks@[k])@ == fixed_records(
                    stream,
                    0,
                    size,
                    mid,
                    k,
                ),
            forall|k: int| j <= k < mid.len() ==> dg.cg@[k] == mid[k] && record_counter@[k]
                == counts1[k],
            forall|k: int|
                0 <= k < j ==> same_group(mid[k], #[trigger] dg.cg@[k]) && forall|i: int|
                    0 <= i < mid[k].cn@.len() ==> channel_read(
                        mid[k].cn@[i],
                        #[trigger] dg.cg@[k].cn@[i],
                        fixed_records(stream, 0, size, mid, k),
                        mid[k].record_length as nat,
                        counts1[k] as nat,
                        channel_names_to_read_in_dg@,
                        mid[k].block.cg_inval_bytes > 0,
                    ),
            forall|k: int|
                0 <= k < j ==> #[trigger] record_counter@[k] == if mid[k].record_length > 0 {
                    moved_on(
                        counts1[k],
                        fixed_records(stream, 0, size, mid, k).len() / (mid[k].record_length as nat),
                    )
                } else {
                    counts1[k]
                },
        decreases dg.cg.len() - j,
    {
        let cg = &mut dg.cg[j];
        let record_length = cg.record_length as usize;
        let with_invalid = cg.block.cg_inval_bytes > 0;
        let index = record_counter[j];
        let _ = read_channels_from_bytes(
            sinks[j].as_slice(),
            &mut cg.cn,
            record_length,
            index,
            channel_names_to_read_in_dg,
            with_invalid,
        );
        if record_length > 0 {
            let n = sinks[j].len() / record_length;
            record_counter[j] = match index.checked_add(n) {
                Some(c) => c,
                None => usize::MAX,
            };
        }
        j += 1;
    }
    proof {
        assert forall|k: int| 0 <= k < cgs0.len() implies same_group(
            cgs0[k],
            #[trigger] dg.cg@[k],
        ) by {
            assert(same_group(cgs0[k], mid[k]));
            assert(same_group(mid[k], dg.cg@[k]));
        }
        assert(fixed_read(mid, dg.cg@, stream, size, counts1, channel_names_to_read_in_dg@));
        assert(counts1 =~= final_counts_before_fixed(counts0, stream, size, cgs0));
        assert forall|k: int| 0 <= k < cgs0.len() implies #[trigger] record_counter@[k]
            == counter_after(counts0[k], stream, size, cgs0, k) by {
            assert(same_group(cgs0[k], mid[k]));
        }
    }
    Ok(())
}

/// The counters of the groups after the values of variable length of a
/// stream were counted.
pub open spec fn final_counts_before_fixed(
    counts: Seq<usize>,
    data: Seq<u8>,
    rec_id_size: u8,
    cgs: Seq<Cg4>,
) -> Seq<usize> {
    Seq::new(
        counts.len(),
        |g: int| counted(counts[g], records_of(vlsd_records(data, 0, rec_id_size, cgs), g)),
    )
}

/// Groups that differ in their channels only take a stream apart alike.
pub proof fn lemma_same_stream(
    data: Seq<u8>,
    pos: int,
    rec_id_size: u8,
    a: Seq<Cg4>,
    b: Seq<Cg4>,
    g: int,
)
    requires
        a.len() == b.len(),
        forall|k: int| 0 <= k < a.len() ==> same_group(a[k], #[trigger] b[k]),
    ensures
        fixed_records(data, pos, rec_id_size, a, g) == fixed_records(data, pos, rec_id_size, b, g),
    decreases data.len() - pos,
{
    if 0 <= pos <= data.len() <= usize::MAX {
        lemma_same_step(data, pos, rec_id_size, a, b);
        match step_at(data, pos, rec_id_size, a) {
            Step::Record(r) => {
                if pos < r.next <= data.len() {
                    lemma_same_stream(data, r.next as int, rec_id_size, a, b, g);
                }
            },
            _ => {},
        }
    }
}

/// Groups that differ in their channels only find the same at every place
/// of a stream.
pub proof fn lemma_same_step(data: Seq<u8>, pos: int, rec_id_size: u8, a: Seq<Cg4>, b: Seq<Cg4>)
    requires
        a.len() == b.len(),
        forall|k: int| 0 <= k < a.len() ==> same_group(a[k], #[trigger] b[k]),
    ensures
        step_at(data, pos, rec_id_size, a) == step_at(data, pos, rec_id_size, b),
{
    if id_size_ok(rec_id_size) && data.len() - pos >= rec_id_size {
        let rec_id = le_uint(field(data, pos, rec_id_size as int)) as u64;
        lemma_same_index(a, b, rec_id);
        lemma_group_index_found(a, rec_id);
    }
}

/// Groups that differ in their channels only are found under the same
/// record ids.
pub proof fn lemma_same_index(a: Seq<Cg4>, b: Seq<Cg4>, rec_id: u64)
    requires
        a.len() == b.len(),
        forall|k: int| 0 <= k < a.len() ==> same_group(a[k], #[trigger] b[k]),
    ensures
        group_index(a, rec_id) == group_index(b, rec_id),
    decreases a.len(),
{
    if a.len() > 0 {
        assert(same_group(a[a.len() - 1], b[b.len() - 1]));
        assert forall|k: int| 0 <= k < a.drop_last().len() implies same_group(
            a.drop_last()[k],
            #[trigger] b.drop_last()[k],
        ) by {
            assert(same_group(a[k], b[k]));
        }
        lemma_same_index(a.drop_last(), b.drop_last(), rec_id);
    }
}

} // verus!
