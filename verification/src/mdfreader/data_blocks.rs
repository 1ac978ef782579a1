//! The data blocks of a 4.x file: plain or compressed records, and lists of
//! such blocks. Whatever the layout, the blocks of a data group hold one
//! stream of bytes.

use crate::bytes::field;
use crate::bytes::i64_at;
use crate::bytes::i64_le_at;
use crate::bytes::u32_at;
use crate::bytes::u32_le_at;
use crate::bytes::u64_at;
use crate::bytes::u64_le_at;
use crate::bytes::vec_at;
use crate::error::MdfError;
use crate::mdfinfo::mdfinfo4::check_link;
use crate::mdfinfo::mdfinfo4::id_prefix4;
use crate::mdfinfo::mdfinfo4::link_error;
use crate::mdfinfo::mdfinfo4::HEADER4_SIZE;
use crate::mdfreader::unsorted::extend_bytes;
use vstd::prelude::*;

verus! {

/// What the zlib stream `data` inflates to, cut after `limit` bytes; `None`
/// where `data` is no zlib stream up to there.
pub uninterp spec fn inflated(data: Seq<u8>, limit: u64) -> Option<Seq<u8>>;

/// `flate2::read::ZlibDecoder::new` on the bytes, read to its end through
/// `std::io::Read::take` and `std::io::Read::read_to_end`: the inflated
/// bytes, at most `limit` of them. A stream that is damaged or ends early is
/// an error of the reader, which becomes `None`. The result is named, not
/// described.
#[verifier::external_body]
fn inflate(data: &[u8], limit: u64) -> (r: Option<Vec<u8>>)
    ensures
        r is Some <==> inflated(data@, limit) is Some,
        r is Some ==> r->0@ == inflated(data@, limit)->0,
{
    let mut out = Vec::new();
    let decoder = flate2::read::ZlibDecoder::new(data);
    match std::io::Read::read_to_end(&mut std::io::Read::take(decoder, limit), &mut out) {
        Ok(_) => Some(out),
        Err(_) => None,
    }
}

/// The bytes `s`, which hold rows of `columns` bytes column by column, row
/// by row. Bytes after the last whole row stay where they are.
pub open spec fn untransposed(s: Seq<u8>, columns: nat) -> Seq<u8> {
    if columns == 0 {
        s
    } else {
        let rows = s.len() / columns;
        Seq::new(
            s.len(),
            |k: int|
                if k < rows * columns {
                    s[(k % columns as int) * rows + k / columns as int]
                } else {
                    s[k]
                },
        )
    }
}

/// Puts bytes that were stored column by column back into rows of `columns`
/// bytes.
pub fn untranspose(data: &Vec<u8>, columns: usize) -> (r: Vec<u8>)
    ensures
        r@ == untransposed(data@, columns as nat),
{
    let len = data.len();
    if columns == 0 {
        return vec_at(data.as_slice(), 0, len);
    }
    let rows = len / columns;
    proof {
        crate::mdfreader::data_read4::lemma_whole_records(len as nat, columns as nat);
    }
    let whole = rows * columns;
    let mut out: Vec<u8> = Vec::with_capacity(len);
    let mut k: usize = 0;
    while k < len
        invariant
            k <= len,
            len == data@.len(),
            columns > 0,
            rows == len / columns,
            whole == rows * columns,
            whole <= len,
            out@.len() == k,
            forall|i: int| 0 <= i < k ==> #[trigger] out@[i] == untransposed(data@, columns as nat)[i],
        decreases len - k,
    {
        let b = if k < whole {
            let c = k % columns;
            let r = k / columns;
            proof {
                let ki = k as int;
                let ci = columns as int;
                vstd::arithmetic::div_mod::lemma_fundamental_div_mod(ki, ci);
                vstd::arithmetic::div_mod::lemma_mod_bound(ki, ci);
                assert(r < rows) by (nonlinear_arith)
                    requires
                        ki == ci * (r as int) + (c as int),
                        0 <= (c as int),
                        ki < (rows as int) * ci,
                        ci > 0,
                ;
                assert(0 <= c * rows && c * rows + r < columns * rows && columns * rows == rows
                    * columns) by (nonlinear_arith)
                    requires
                        0 <= c < columns,
                        0 <= r < rows,
                ;
            }
            data[c * rows + r]
        } else {
            data[k]
        };
        out.push(b);
        k += 1;
    }
    proof {
        assert(out@ =~= untransposed(data@, columns as nat));
    }
    out
}

/// The identifier of a block of records.
pub open spec fn id_dt() -> Seq<u8> {
    seq![0x23u8, 0x23u8, 0x44u8, 0x54u8]
}

/// The identifier of a block of values.
pub open spec fn id_dv() -> Seq<u8> {
    seq![0x23u8, 0x23u8, 0x44u8, 0x56u8]
}

/// The identifier of a block of signal data.
pub open spec fn id_sd() -> Seq<u8> {
    seq![0x23u8, 0x23u8, 0x53u8, 0x44u8]
}

/// The identifier of a block of compressed data.
pub open spec fn id_dz() -> Seq<u8> {
    seq![0x23u8, 0x23u8, 0x44u8, 0x5au8]
}

/// The identifier of a list of data blocks.
pub open spec fn id_dl() -> Seq<u8> {
    seq![0x23u8, 0x23u8, 0x44u8, 0x4cu8]
}

/// The identifier of the header of a list of data blocks.
pub open spec fn id_hl() -> Seq<u8> {
    seq![0x23u8, 0x23u8, 0x48u8, 0x4cu8]
}

/// The kind of block to which a link to data leads.
#[derive(Debug, Clone, Copy, PartialEq, Eq, Structural)]
pub enum DataKind {
    /// Plain records or values: DT, DV or SD.
    Plain,
    /// Compressed data: DZ.
    Zipped,
    /// A list of data blocks: DL.
    List,
    /// The header of a list of data blocks: HL.
    ListHeader,
    /// Another block.
    Other,
}

/// The kind of the block with the identifier `id`.
pub open spec fn data_kind_of(id: Seq<u8>) -> DataKind {
    if id == id_dt() || id == id_dv() || id == id_sd() {
        DataKind::Plain
    } else if id == id_dz() {
        DataKind::Zipped
    } else if id == id_dl() {
        DataKind::List
    } else if id == id_hl() {
        DataKind::ListHeader
    } else {
        DataKind::Other
    }
}

/// Tells the kind of the block at `pos` by its identifier.
pub fn data_kind(data: &[u8], pos: usize) -> (r: DataKind)
    requires
        pos + 4 <= data.len(),
    ensures
        r == data_kind_of(field(data@, pos as int, 4)),
{
    let a = data[pos];
    let b = data[pos + 1];
    let c = data[pos + 2];
    let d = data[pos + 3];
    let ghost id = field(data@, pos as int, 4);
    proof {
        assert(id[0] == a && id[1] == b && id[2] == c && id[3] == d);
        assert(id_dt()[2] == 0x44 && id_dv()[3] == 0x56 && id_sd()[2] == 0x53 && id_dz()[3] == 0x5a
            && id_dl()[3] == 0x4c && id_hl()[2] == 0x48);
    }
    if a != 0x23 || b != 0x23 {
        proof {
            assert(id_dt()[0] == 0x23 && id_dt()[1] == 0x23);
            assert(id_dv()[0] == 0x23 && id_dv()[1] == 0x23);
            assert(id_sd()[0] == 0x23 && id_sd()[1] == 0x23);
            assert(id_dz()[0] == 0x23 && id_dz()[1] == 0x23);
            assert(id_dl()[0] == 0x23 && id_dl()[1] == 0x23);
            assert(id_hl()[0] == 0x23 && id_hl()[1] == 0x23);
        }
        return DataKind::Other;
    }
    if (c == 0x44 && (d == 0x54 || d == 0x56)) || (c == 0x53 && d == 0x44) {
        proof {
            if c == 0x44 && d == 0x54 {
                assert(id =~= id_dt());
            } else if c == 0x44 && d == 0x56 {
                assert(id =~= id_dv());
            } else {
                assert(id =~= id_sd());
            }
        }
        DataKind::Plain
    } else if c == 0x44 && d == 0x5a {
        proof {
            assert(id =~= id_dz());
            assert(id_dt()[3] == 0x54 && id_dv()[3] == 0x56);
        }
        DataKind::Zipped
    } else if c == 0x44 && d == 0x4c {
        proof {
            assert(id =~= id_dl());
            assert(id_dt()[3] == 0x54 && id_dv()[3] == 0x56 && id_dz()[3] == 0x5a);
        }
        DataKind::List
    } else if c == 0x48 && d == 0x4c {
        proof {
            assert(id =~= id_hl());
            assert(id_dt()[2] == 0x44 && id_dv()[2] == 0x44 && id_dz()[2] == 0x44 && id_dl()[2]
                == 0x44);
        }
        DataKind::ListHeader
    } else {
        proof {
            assert(id_dt()[2] == 0x44 && id_dt()[3] == 0x54);
            assert(id_dv()[2] == 0x44 && id_dv()[3] == 0x56);
            assert(id_sd()[2] == 0x53 && id_sd()[3] == 0x44);
            assert(id_dz()[2] == 0x44 && id_dz()[3] == 0x5a);
            assert(id_dl()[2] == 0x44 && id_dl()[3] == 0x4c);
            assert(id_hl()[2] == 0x48 && id_hl()[3] == 0x4c);
        }
        DataKind::Other
    }
}

/// The size of the fixed part of a block of compressed data.
pub const DZ_SIZE: usize = 48;

/// What is wrong with the block of plain data at `link`, whose header is
/// there; `None` where its payload can be read.
pub open spec fn plain_error(data: Seq<u8>, link: i64) -> Option<MdfError> {
    let len = u64_at(data, link + 8);
    if len < HEADER4_SIZE {
        Some(
            MdfError::CorruptBlock {
                offset: link as u64,
                expected: HEADER4_SIZE as u64,
                actual: len,
            },
        )
    } else if link + len > data.len() {
        Some(
            MdfError::CorruptBlock {
                offset: link as u64,
                expected: len,
                actual: (data.len() - link) as u64,
            },
        )
    } else {
        None
    }
}

/// What is wrong with the block of compressed data at `link`, whose header
/// is there; `None` where its data can be inflated to the length that the
/// block announces.
pub open spec fn zipped_error(data: Seq<u8>, link: i64) -> Option<MdfError> {
    if link + DZ_SIZE > data.len() {
        Some(
            MdfError::CorruptBlock {
                offset: link as u64,
                expected: DZ_SIZE as u64,
                actual: (data.len() - link) as u64,
            },
        )
    } else {
        let zip_type = data[link + 26];
        let org_len = u64_at(data, link + 32);
        let zip_len = u64_at(data, link + 40);
        if zip_len > data.len() - link - DZ_SIZE || zip_type > 1 || org_len == u64::MAX {
            Some(
                MdfError::CorruptBlock {
                    offset: link as u64,
                    expected: zip_len,
                    actual: (data.len() - link - DZ_SIZE) as u64,
                },
            )
        } else {
            match inflated(
                field(data, link + DZ_SIZE, zip_len as int),
                (org_len + 1) as u64,
            ) {
                Some(out) => if out.len() == org_len {
                    None
                } else {
                    Some(
                        MdfError::CorruptBlock {
                            offset: link as u64,
                            expected: org_len,
                            actual: out.len() as u64,
                        },
                    )
                },
                None => Some(
                    MdfError::CorruptBlock { offset: link as u64, expected: org_len, actual: 0 },
                ),
            }
        }
    }
}

/// The bytes that the block of compressed data at `link` stands for: its
/// data inflated, and put back into rows where it was transposed.
pub open spec fn zipped_bytes(data: Seq<u8>, link: i64) -> Seq<u8> {
    let org_len = u64_at(data, link + 32);
    let zip_len = u64_at(data, link + 40);
    let out = inflated(field(data, link + DZ_SIZE, zip_len as int), (org_len + 1) as u64)->0;
    if data[link + 26] == 1 {
        untransposed(out, u32_at(data, link + 28) as nat)
    } else {
        out
    }
}

/// The bytes of the plain or compressed data block at `link`, or what is
/// wrong with it.
pub open spec fn block_stream(data: Seq<u8>, link: i64) -> Result<Seq<u8>, MdfError> {
    match link_error(data, link, HEADER4_SIZE as nat, id_prefix4()) {
        Some(e) => Err(e),
        None => match data_kind_of(field(data, link as int, 4)) {
            DataKind::Plain => match plain_error(data, link) {
                Some(e) => Err(e),
                None => Ok(
                    field(data, link + HEADER4_SIZE, u64_at(data, link + 8) - HEADER4_SIZE),
                ),
            },
            DataKind::Zipped => match zipped_error(data, link) {
                Some(e) => Err(e),
                None => Ok(zipped_bytes(data, link)),
            },
            _ => Err(MdfError::UnexpectedBlockType { offset: link as u64 }),
        },
    }
}

/// Reads the block of compressed data at `pos`, whose header is there.
fn parse_dz(data: &[u8], pos: usize) -> (r: Result<Vec<u8>, MdfError>)
    requires
        pos + HEADER4_SIZE <= data.len(),
        data.len() <= i64::MAX,
    ensures
        match zipped_error(data@, pos as i64) {
            Some(e) => r == Err::<Vec<u8>, MdfError>(e),
            None => r is Ok && r->Ok_0@ == zipped_bytes(data@, pos as i64),
        },
{
    let available = data.len() - pos;
    if available < DZ_SIZE {
        return Err(
            MdfError::CorruptBlock {
                offset: pos as u64,
                expected: DZ_SIZE as u64,
                actual: available as u64,
            },
        );
    }
    let zip_type = data[pos + 26];
    let columns = u32_le_at(data, pos + 28);
    let org_len = u64_le_at(data, pos + 32);
    let zip_len = u64_le_at(data, pos + 40);
    if zip_len > (available - DZ_SIZE) as u64 || zip_type > 1 || org_len == u64::MAX {
        return Err(
            MdfError::CorruptBlock {
                offset: pos as u64,
                expected: zip_len,
                actual: (available - DZ_SIZE) as u64,
            },
        );
    }
    let zipped = vstd::slice::slice_subrange(data, pos + DZ_SIZE, pos + DZ_SIZE + zip_len as usize);
    proof {
        assert(zipped@ =~= field(data@, pos + DZ_SIZE, zip_len as int));
    }
    let out = match inflate(zipped, org_len + 1) {
        Some(out) => out,
        None => {
            return Err(
                MdfError::CorruptBlock { offset: pos as u64, expected: org_len, actual: 0 },
            );
        },
    };
    if out.len() as u64 != org_len {
        return Err(
            MdfError::CorruptBlock {
                offset: pos as u64,
                expected: org_len,
                actual: out.len() as u64,
            },
        );
    }
    if zip_type == 1 {
        Ok(untranspose(&out, columns as usize))
    } else {
        Ok(out)
    }
}

/// Reads the bytes of the plain or compressed data block at `link`.
pub fn read_block_stream(data: &[u8], link: i64) -> (r: Result<Vec<u8>, MdfError>)
    ensures
        match block_stream(data@, link) {
            Err(e) => r == Err::<Vec<u8>, MdfError>(e),
            Ok(stream) => r is Ok && r->Ok_0@ == stream,
        },
{
    let prefix = [0x23u8, 0x23u8];
    proof {
        assert(prefix@ =~= id_prefix4());
    }
    let pos = match check_link(data, link, HEADER4_SIZE, vstd::array::array_as_slice(&prefix)) {
        Ok(p) => p,
        Err(e) => {
            return Err(e);
        },
    };
    assert(link_error(data@, link, HEADER4_SIZE as nat, id_prefix4()) is None);
    match data_kind(data, pos) {
        DataKind::Plain => {
            let len = u64_le_at(data, pos + 8);
            if len < HEADER4_SIZE as u64 {
                return Err(
                    MdfError::CorruptBlock {
                        offset: link as u64,
                        expected: HEADER4_SIZE as u64,
                        actual: len,
                    },
                );
            }
            let available = data.len() - pos;
            if len > available as u64 {
                return Err(
                    MdfError::CorruptBlock {
                        offset: link as u64,
                        expected: len,
                        actual: available as u64,
                    },
                );
            }
            Ok(vec_at(data, pos + HEADER4_SIZE, len as usize - HEADER4_SIZE))
        },
        DataKind::Zipped => parse_dz(data, pos),
        _ => Err(MdfError::UnexpectedBlockType { offset: link as u64 }),
    }
}

/// The longest chain of lists of data blocks that is followed. A longer one
/// is taken for a chain that runs in a circle.
pub const MAX_LISTS: usize = 65535;

/// `prefix` put before the bytes of `rest`, where `rest` holds bytes.
pub open spec fn stream_after(prefix: Seq<u8>, rest: Result<Seq<u8>, MdfError>) -> Result<
    Seq<u8>,
    MdfError,
> {
    match rest {
        Ok(bytes) => Ok(prefix + bytes),
        Err(e) => Err(e),
    }
}

/// The number of links of the list of data blocks at `link`.
pub open spec fn dl_links(data: Seq<u8>, link: i64) -> u64 {
    u64_at(data, link + 16)
}

/// What is wrong with the list of data blocks (DL) at `link`; `None` where
/// its links can be read.
pub open spec fn dl_error(data: Seq<u8>, link: i64) -> Option<MdfError> {
    match link_error(data, link, HEADER4_SIZE as nat, id_dl()) {
        Some(e) => Some(e),
        None => {
            let links = dl_links(data, link);
            if links == 0 || HEADER4_SIZE + 8 * links > data.len() - link {
                Some(
                    MdfError::CorruptBlock {
                        offset: link as u64,
                        expected: HEADER4_SIZE as u64,
                        actual: (data.len() - link) as u64,
                    },
                )
            } else {
                None
            }
        },
    }
}

/// The bytes of the data blocks to which the list at `link` links, from its
/// link `i` up to its link `n`, one after the other; or what is wrong with
/// the first of them that cannot be read.
pub open spec fn entries_stream(data: Seq<u8>, link: i64, i: nat, n: nat) -> Result<
    Seq<u8>,
    MdfError,
>
    decreases n - i,
{
    if i >= n {
        Ok(Seq::empty())
    } else {
        match block_stream(data, i64_at(data, link + 32 + 8 * i)) {
            Err(e) => Err(e),
            Ok(bytes) => stream_after(bytes, entries_stream(data, link, i + 1, n)),
        }
    }
}

/// The bytes of the data blocks of the chain of lists that starts at `link`,
/// of which at most `fuel` lists are followed.
pub open spec fn list_stream(data: Seq<u8>, link: i64, fuel: nat) -> Result<Seq<u8>, MdfError>
    decreases fuel,
{
    if link == 0 {
        Ok(Seq::empty())
    } else if fuel == 0 {
        Err(MdfError::UnexpectedBlockType { offset: link as u64 })
    } else {
        match dl_error(data, link) {
            Some(e) => Err(e),
            None => match entries_stream(data, link, 0, (dl_links(data, link) - 1) as nat) {
                Err(e) => Err(e),
                Ok(bytes) => stream_after(
                    bytes,
                    list_stream(data, i64_at(data, link + 24), (fuel - 1) as nat),
                ),
            },
        }
    }
}

/// The stream of bytes that the data of a data group is, whatever its
/// layout: the payload of a plain block, the inflated data of a compressed
/// block, or the data of the blocks of a list one after the other.
pub open spec fn data_stream(data: Seq<u8>, link: i64) -> Result<Seq<u8>, MdfError> {
    match link_error(data, link, HEADER4_SIZE as nat, id_prefix4()) {
        Some(e) => Err(e),
        None => match data_kind_of(field(data, link as int, 4)) {
            DataKind::Plain | DataKind::Zipped => block_stream(data, link),
            DataKind::List => list_stream(data, link, MAX_LISTS as nat),
            DataKind::ListHeader => if link + 32 > data.len() {
                Err(
                    MdfError::CorruptBlock {
                        offset: link as u64,
                        expected: 32,
                        actual: (data.len() - link) as u64,
                    },
                )
            } else {
                list_stream(data, i64_at(data, link + 24), MAX_LISTS as nat)
            },
            DataKind::Other => Err(MdfError::UnexpectedBlockType { offset: link as u64 }),
        },
    }
}

/// Adds the bytes of the data blocks to which the list at `pos` links to
/// `out`.
fn gather_entries(data: &[u8], pos: usize, n: usize, out: &mut Vec<u8>) -> (r: Result<
    (),
    MdfError,
>)
    requires
        pos + 32 + 8 * n <= data.len() <= i64::MAX,
    ensures
        match entries_stream(data@, pos as i64, 0, n as nat) {
            Err(e) => r == Err::<(), MdfError>(e),
            Ok(bytes) => r is Ok && final(out)@ == old(out)@ + bytes,
        },
{
    let mut i: usize = 0;
    proof {
        assert(old(out)@ + Seq::<u8>::empty() =~= old(out)@);
    }
    while i < n
        invariant
            i <= n,
            pos + 32 + 8 * n <= data.len() <= i64::MAX,
            match entries_stream(data@, pos as i64, i as nat, n as nat) {
                Err(e) => entries_stream(data@, pos as i64, 0, n as nat) == Err::<
                    Seq<u8>,
                    MdfError,
                >(e),
                Ok(rest) => entries_stream(data@, pos as i64, 0, n as nat) is Ok && out@ + rest
                    == old(out)@ + entries_stream(data@, pos as i64, 0, n as nat)->Ok_0,
            },
        decreases n - i,
    {
        let link = i64_le_at(data, pos + 32 + 8 * i);
        let bytes = match read_block_stream(data, link) {
            Ok(b) => b,
            Err(e) => {
                return Err(e);
            },
        };
        let ghost before = out@;
        extend_bytes(out, bytes.as_slice());
        proof {
            match entries_stream(data@, pos as i64, (i + 1) as nat, n as nat) {
                Ok(rest) => {
                    assert(out@ + rest =~= before + (bytes@ + rest));
                },
                Err(_) => {},
            }
        }
        i += 1;
    }
    proof {
        assert(out@ + Seq::<u8>::empty() =~= out@);
    }
    Ok(())
}

/// Gathers the bytes of the data blocks of the chain of lists that starts
/// at `link`.
pub fn read_list_stream(data: &[u8], link: i64) -> (r: Result<Vec<u8>, MdfError>)
    ensures
        match list_stream(data@, link, MAX_LISTS as nat) {
            Err(e) => r == Err::<Vec<u8>, MdfError>(e),
            Ok(stream) => r is Ok && r->Ok_0@ == stream,
        },
{
    let mut out: Vec<u8> = Vec::new();
    let mut next = link;
    let mut followed: usize = 0;
    let id = crate::mdfinfo::mdfinfo4::block_id4(0x44, 0x4c);
    proof {
        assert(id@ =~= id_dl());
        match list_stream(data@, link, MAX_LISTS as nat) {
            Ok(all) => {
                assert(out@ + all =~= all);
            },
            Err(_) => {},
        }
    }
    while next != 0
        invariant
            followed <= MAX_LISTS,
            id@ == id_dl(),
            match list_stream(data@, next, (MAX_LISTS - followed) as nat) {
                Err(e) => list_stream(data@, link, MAX_LISTS as nat) == Err::<Seq<u8>, MdfError>(
                    e,
                ),
                Ok(rest) => list_stream(data@, link, MAX_LISTS as nat) is Ok && out@ + rest
                    == list_stream(data@, link, MAX_LISTS as nat)->Ok_0,
            },
        decreases MAX_LISTS - followed,
    {
        if followed >= MAX_LISTS {
            return Err(MdfError::UnexpectedBlockType { offset: next as u64 });
        }
        let pos = match check_link(data, next, HEADER4_SIZE, vstd::array::array_as_slice(&id)) {
            Ok(p) => p,
            Err(e) => {
                return Err(e);
            },
        };
        assert(link_error(data@, next, HEADER4_SIZE as nat, id_dl()) is None);
        let links = u64_le_at(data, pos + 16);
        let available = data.len() - pos;
        if links == 0 || links > ((available - HEADER4_SIZE) / 8) as u64 {
            proof {
                if links != 0 {
                    assert(HEADER4_SIZE + 8 * links > available) by (nonlinear_arith)
                        requires
                            links > (available - HEADER4_SIZE) / 8,
                            available >= HEADER4_SIZE,
                    ;
                }
            }
            return Err(
                MdfError::CorruptBlock {
                    offset: next as u64,
                    expected: HEADER4_SIZE as u64,
                    actual: available as u64,
                },
            );
        }
        proof {
            assert(HEADER4_SIZE + 8 * links <= available) by (nonlinear_arith)
                requires
                    links <= (available - HEADER4_SIZE) / 8,
                    available >= HEADER4_SIZE,
            ;
        }
        let n = (links - 1) as usize;
        let ghost before = out@;
        match gather_entries(data, pos, n, &mut out) {
            Ok(()) => {},
            Err(e) => {
                return Err(e);
            },
        }
        let following = i64_le_at(data, pos + 24);
        proof {
            let here = entries_stream(data@, next, 0, n as nat)->Ok_0;
            match list_stream(data@, following, (MAX_LISTS - followed - 1) as nat) {
                Ok(rest) => {
                    assert(out@ + rest =~= before + (here + rest));
                },
                Err(_) => {},
            }
        }
        next = following;
        followed += 1;
    }
    proof {
        assert(out@ + Seq::<u8>::empty() =~= out@);
    }
    Ok(out)
}

/// Reads the stream of bytes of the data to which `link` leads.
pub fn read_data_stream(data: &[u8], link: i64) -> (r: Result<Vec<u8>, MdfError>)
    ensures
        match data_stream(data@, link) {
            Err(e) => r == Err::<Vec<u8>, MdfError>(e),
            Ok(stream) => r is Ok && r->Ok_0@ == stream,
        },
{
    let prefix = [0x23u8, 0x23u8];
    proof {
        assert(prefix@ =~= id_prefix4());
    }
    let pos = match check_link(data, link, HEADER4_SIZE, vstd::array::array_as_slice(&prefix)) {
        Ok(p) => p,
        Err(e) => {
            return Err(e);
        },
    };
    assert(link_error(data@, link, HEADER4_SIZE as nat, id_prefix4()) is None);
    match data_kind(data, pos) {
        DataKind::Plain | DataKind::Zipped => read_block_stream(data, link),
        DataKind::List => read_list_stream(data, link),
        DataKind::ListHeader => {
            let available = data.len() - pos;
            if available < 32 {
                return Err(
                    MdfError::CorruptBlock {
                        offset: link as u64,
                        expected: 32,
                        actual: available as u64,
                    },
                );
            }
            read_list_stream(data, i64_le_at(data, pos + 24))
        },
        DataKind::Other => Err(MdfError::UnexpectedBlockType { offset: link as u64 }),
    }
}

} // verus!
