//! The data groups, channel groups and channels of a 4.x file.
//!
//! A 4.x block holds, after its header, as many links as the header says,
//! and then its data.

use crate::bytes::field;
use crate::bytes::i64_at;
use crate::bytes::i64_le_at;
use crate::bytes::u16_at;
use crate::bytes::u16_le_at;
use crate::bytes::u32_at;
use crate::bytes::u32_le_at;
use crate::bytes::u64_at;
use crate::bytes::u64_le_at;
use crate::error::MdfError;
use crate::mdfinfo::mdfinfo4::block_id4;
use crate::mdfinfo::mdfinfo4::check_link;
use crate::mdfinfo::mdfinfo4::link_error;
use crate::mdfinfo::mdfinfo4::md_error;
use crate::mdfinfo::mdfinfo4::md_text;
use crate::mdfinfo::mdfinfo4::parse_md;
use crate::mdfinfo::mdfinfo4::Ca4Block;
use crate::mdfinfo::mdfinfo4::Cc4Block;
use crate::mdfinfo::mdfinfo4::Cg4;
use crate::mdfinfo::mdfinfo4::Cg4Block;
use crate::mdfinfo::mdfinfo4::Cn4;
use crate::mdfinfo::mdfinfo4::Cn4Block;
use crate::mdfinfo::mdfinfo4::Compo;
use crate::mdfinfo::mdfinfo4::Composition;
use crate::mdfinfo::mdfinfo4::Dg4;
use crate::mdfinfo::mdfinfo4::Dg4Block;
use crate::mdfinfo::mdfinfo4::InvalidMask;
use crate::mdfinfo::mdfinfo4::SharableBlocks;
use crate::mdfinfo::mdfinfo4::HEADER4_SIZE;
use crate::mdfreader::channel_data::data_type_init;
use crate::mdfreader::channel_data::kind_of;
use crate::mdfreader::channel_data::product_of;
use crate::mdfreader::channel_data::shape_product;
use std::collections::HashMap;
use vstd::prelude::*;

verus! {

/// The identifier of a data group block.
pub open spec fn id_dg4() -> Seq<u8> {
    seq![0x23u8, 0x23u8, 0x44u8, 0x47u8]
}

/// The identifier of a channel group block.
pub open spec fn id_cg4() -> Seq<u8> {
    seq![0x23u8, 0x23u8, 0x43u8, 0x47u8]
}

/// The identifier of a channel block.
pub open spec fn id_cn4() -> Seq<u8> {
    seq![0x23u8, 0x23u8, 0x43u8, 0x4eu8]
}

/// The identifier of a conversion block.
pub open spec fn id_cc4() -> Seq<u8> {
    seq![0x23u8, 0x23u8, 0x43u8, 0x43u8]
}

/// The identifier of an array block.
pub open spec fn id_ca4() -> Seq<u8> {
    seq![0x23u8, 0x23u8, 0x43u8, 0x41u8]
}

/// The offset at which the data of the block at `pos` starts: after the
/// header and the links.
pub open spec fn data_start(data: Seq<u8>, pos: int) -> int {
    pos + HEADER4_SIZE + 8 * u64_at(data, pos + 16)
}

/// What is wrong with the block at `link` that should have the identifier
/// `id`, at least `min_links` links and at least `size` bytes of data;
/// `None` where the block is there.
pub open spec fn linked_block_error(
    data: Seq<u8>,
    link: i64,
    id: Seq<u8>,
    min_links: nat,
    size: nat,
) -> Option<MdfError> {
    match link_error(data, link, HEADER4_SIZE as nat, id) {
        Some(e) => Some(e),
        None => {
            let links = u64_at(data, link + 16);
            if links < min_links || HEADER4_SIZE + 8 * links + size > data.len() - link {
                Some(
                    MdfError::CorruptBlock {
                        offset: link as u64,
                        expected: (HEADER4_SIZE + 8 * min_links + size) as u64,
                        actual: (data.len() - link) as u64,
                    },
                )
            } else {
                None
            }
        },
    }
}

/// Checks that a block with the identifier `id`, at least `min_links` links
/// and at least `size` bytes of data lies at `link`. Returns the offset of
/// the block and the offset of its data.
pub fn check_linked_block(data: &[u8], link: i64, id: &[u8], min_links: usize, size: usize) -> (r:
    Result<(usize, usize), MdfError>)
    requires
        id.len() <= HEADER4_SIZE,
        min_links <= 64,
        size <= 4096,
    ensures
        match linked_block_error(data@, link, id@, min_links as nat, size as nat) {
            Some(e) => r == Err::<(usize, usize), MdfError>(e),
            None => r is Ok,
        },
        r is Ok ==> {
            &&& r->Ok_0.0 == link
            &&& link >= 0
            &&& r->Ok_0.1 == data_start(data@, link as int)
            &&& r->Ok_0.1 + size <= data@.len() <= i64::MAX
            &&& data@.len() <= usize::MAX
            &&& u64_at(data@, link + 16) >= min_links
        },
{
    let pos = match check_link(data, link, HEADER4_SIZE, id) {
        Ok(p) => p,
        Err(e) => {
            return Err(e);
        },
    };
    let links = u64_le_at(data, pos + 16);
    let available = data.len() - pos;
    let fixed = HEADER4_SIZE + size;
    if links < min_links as u64 || available < fixed || links > ((available - fixed) / 8) as u64 {
        proof {
            if links >= min_links && available >= fixed {
                assert(HEADER4_SIZE + 8 * links + size > available) by (nonlinear_arith)
                    requires
                        links > (available - fixed) / 8,
                        available >= fixed,
                        fixed == HEADER4_SIZE + size,
                ;
            }
        }
        return Err(
            MdfError::CorruptBlock {
                offset: link as u64,
                expected: (HEADER4_SIZE + 8 * min_links + size) as u64,
                actual: available as u64,
            },
        );
    }
    proof {
        assert(HEADER4_SIZE + 8 * links + size <= available) by (nonlinear_arith)
            requires
                links <= (available - fixed) / 8,
                available >= fixed,
                fixed == HEADER4_SIZE + size,
        ;
    }
    Ok((pos, pos + HEADER4_SIZE + 8 * links as usize))
}

/// `b` is the data group block that lies at `pos`.
pub open spec fn is_dg4_block(b: Dg4Block, data: Seq<u8>, pos: int) -> bool {
    &&& b.dg_dg_next == i64_at(data, pos + 24)
    &&& b.dg_cg_first == i64_at(data, pos + 32)
    &&& b.dg_data == i64_at(data, pos + 40)
    &&& b.dg_rec_id_size == data[data_start(data, pos)]
}

/// `b` is the channel group block that lies at `pos`.
pub open spec fn is_cg4_block(b: Cg4Block, data: Seq<u8>, pos: int) -> bool {
    let d = data_start(data, pos);
    &&& b.cg_cg_next == i64_at(data, pos + 24)
    &&& b.cg_cn_first == i64_at(data, pos + 32)
    &&& b.cg_record_id == u64_at(data, d)
    &&& b.cg_cycle_count == u64_at(data, d + 8)
    &&& b.cg_flags == u16_at(data, d + 16)
    &&& b.cg_data_bytes == u32_at(data, d + 24)
    &&& b.cg_inval_bytes == u32_at(data, d + 28)
}

/// `b` is the channel block that lies at `pos`.
pub open spec fn is_cn4_block(b: Cn4Block, data: Seq<u8>, pos: int) -> bool {
    let d = data_start(data, pos);
    &&& b.cn_cn_next == i64_at(data, pos + 24)
    &&& b.cn_composition == i64_at(data, pos + 32)
    &&& b.cn_tx_name == i64_at(data, pos + 40)
    &&& b.cn_si_source == i64_at(data, pos + 48)
    &&& b.cn_cc_conversion == i64_at(data, pos + 56)
    &&& b.cn_data == i64_at(data, pos + 64)
    &&& b.cn_md_unit == i64_at(data, pos + 72)
    &&& b.cn_md_comment == i64_at(data, pos + 80)
    &&& b.cn_type == data[d]
    &&& b.cn_sync_type == data[d + 1]
    &&& b.cn_data_type == data[d + 2]
    &&& b.cn_bit_offset == data[d + 3]
    &&& b.cn_byte_offset == u32_at(data, d + 4)
    &&& b.cn_bit_count == u32_at(data, d + 8)
    &&& b.cn_flags == u32_at(data, d + 12)
    &&& b.cn_inval_bit_pos == u32_at(data, d + 16)
}

/// The size of the data of a channel block.
pub const CN4_DATA: usize = 72;

/// The size of the data of a channel group block.
pub const CG4_DATA: usize = 32;

/// The size of the data of a data group block.
pub const DG4_DATA: usize = 8;

/// The size of the fixed data of a conversion block.
pub const CC4_DATA: usize = 24;

/// The size of the fixed data of an array block.
pub const CA4_DATA: usize = 16;

/// Reads the fields of the channel block at `pos`, whose data starts at `d`.
fn read_cn4_block(data: &[u8], pos: usize, d: usize) -> (b: Cn4Block)
    requires
        pos + 88 <= d,
        d == data_start(data@, pos as int),
        d + CN4_DATA <= data.len(),
    ensures
        is_cn4_block(b, data@, pos as int),
{
    Cn4Block {
        cn_cn_next: i64_le_at(data, pos + 24),
        cn_composition: i64_le_at(data, pos + 32),
        cn_tx_name: i64_le_at(data, pos + 40),
        cn_si_source: i64_le_at(data, pos + 48),
        cn_cc_conversion: i64_le_at(data, pos + 56),
        cn_data: i64_le_at(data, pos + 64),
        cn_md_unit: i64_le_at(data, pos + 72),
        cn_md_comment: i64_le_at(data, pos + 80),
        cn_type: data[d],
        cn_sync_type: data[d + 1],
        cn_data_type: data[d + 2],
        cn_bit_offset: data[d + 3],
        cn_byte_offset: u32_le_at(data, d + 4),
        cn_bit_count: u32_le_at(data, d + 8),
        cn_flags: u32_le_at(data, d + 12),
        cn_inval_bit_pos: u32_le_at(data, d + 16),
    }
}

/// What is wrong with the conversion block (CC) at `link`; `None` where the
/// link is 0 or the block can be read.
pub open spec fn cc4_error(data: Seq<u8>, link: i64) -> Option<MdfError> {
    if link == 0 {
        None
    } else {
        match linked_block_error(data, link, id_cc4(), 4, CC4_DATA as nat) {
            Some(e) => Some(e),
            None => {
                let d = data_start(data, link as int);
                let count = u16_at(data, d + 6);
                if d + CC4_DATA + 8 * count > data.len() {
                    Some(
                        MdfError::CorruptBlock {
                            offset: link as u64,
                            expected: (CC4_DATA + 8 * count) as u64,
                            actual: (data.len() - d) as u64,
                        },
                    )
                } else {
                    None
                }
            },
        }
    }
}

/// `cc` is the conversion that the block at `link` describes.
pub open spec fn is_cc4(cc: Cc4Block, data: Seq<u8>, link: i64) -> bool {
    let d = data_start(data, link as int);
    &&& cc.cc_type == data[d]
    &&& cc.cc_val@ == Seq::new(
        u16_at(data, d + 6) as nat,
        |i: int| u64_at(data, d + CC4_DATA + 8 * i),
    )
}

/// Reads the conversion block at `link`.
pub fn read_cc4(data: &[u8], link: i64) -> (r: Result<Cc4Block, MdfError>)
    requires
        link != 0,
    ensures
        match cc4_error(data@, link) {
            Some(e) => r == Err::<Cc4Block, MdfError>(e),
            None => r is Ok && is_cc4(r->Ok_0, data@, link),
        },
{
    let id = block_id4(0x43, 0x43);
    proof {
        assert(id@ =~= id_cc4());
    }
    let (_, d) = match check_linked_block(data, link, vstd::array::array_as_slice(&id), 4, CC4_DATA)
    {
        Ok(p) => p,
        Err(e) => {
            return Err(e);
        },
    };
    assert(linked_block_error(data@, link, id_cc4(), 4, CC4_DATA as nat) is None);
    let cc_type = data[d];
    let count = u16_le_at(data, d + 6) as usize;
    let available = data.len() - d;
    if available - CC4_DATA < 8 * count {
        return Err(
            MdfError::CorruptBlock {
                offset: link as u64,
                expected: (CC4_DATA + 8 * count) as u64,
                actual: available as u64,
            },
        );
    }
    let mut cc_val: Vec<u64> = Vec::with_capacity(count);
    let mut i: usize = 0;
    while i < count
        invariant
            i <= count,
            d + CC4_DATA + 8 * count <= data.len(),
            cc_val@ == Seq::new(i as nat, |k: int| u64_at(data@, d + CC4_DATA + 8 * k)),
        decreases count - i,
    {
        let x = u64_le_at(data, d + CC4_DATA + 8 * i);
        cc_val.push(x);
        proof {
            assert(cc_val@ =~= Seq::new(
                (i + 1) as nat,
                |k: int| u64_at(data@, d + CC4_DATA + 8 * k),
            ));
        }
        i += 1;
    }
    Ok(Cc4Block { cc_type, cc_val })
}

impl SharableBlocks {
    /// Every stored conversion is the conversion that `data` holds at its
    /// offset.
    #[verifier::opaque]
    pub open spec fn wf(&self, data: Seq<u8>) -> bool {
        forall|k: i64| #[trigger]
            self.cc@.contains_key(k) ==> k != 0 && cc4_error(data, k) is None && is_cc4(
                self.cc@[k],
                data,
                k,
            )
    }

    /// Everything that `self` stores, `other` stores too.
    #[verifier::opaque]
    pub open spec fn within(&self, other: SharableBlocks) -> bool {
        self.cc@.submap_of(other.cc@)
    }

    /// Where `link` leads to a conversion, that conversion is stored.
    pub open spec fn has_cc(&self, link: i64) -> bool {
        link != 0 ==> self.cc@.contains_key(link)
    }

    /// A store without blocks.
    pub fn new() -> (r: SharableBlocks)
        ensures
            r.cc@ == Map::<i64, Cc4Block>::empty(),
            forall|data: Seq<u8>| #[trigger] r.wf(data),
    {
        let r = SharableBlocks { cc: HashMap::new() };
        proof {
            reveal(SharableBlocks::wf);
        }
        r
    }

    /// A store holds what it holds.
    pub proof fn lemma_within_self(self)
        ensures
            self.within(self),
    {
        reveal(SharableBlocks::within);
    }

    /// What a store holds, every store that holds that store holds too.
    pub proof fn lemma_within_trans(self, b: SharableBlocks, c: SharableBlocks)
        requires
            self.within(b),
            b.within(c),
        ensures
            self.within(c),
    {
        reveal(SharableBlocks::within);
        assert forall|k: i64| #[trigger] self.cc@.dom().contains(k) implies c.cc@.dom().contains(k)
            && self.cc@[k] == c.cc@[k] by {
            assert(b.cc@.dom().contains(k));
        }
    }

    /// A block that a store holds is found in every store that holds that
    /// store.
    pub proof fn lemma_within_has(self, b: SharableBlocks, link: i64)
        requires
            self.within(b),
        ensures
            self.has_cc(link) ==> b.has_cc(link),
    {
        reveal(SharableBlocks::within);
    }
}

/// Reads the conversion block at `link` into the store, unless the link is
/// 0 or the block is stored already.
pub fn parse_cc4(data: &[u8], link: i64, sharable: &mut SharableBlocks) -> (r: Result<
    (),
    MdfError,
>)
    requires
        old(sharable).wf(data@),
    ensures
        final(sharable).wf(data@),
        old(sharable).within(*final(sharable)),
        match cc4_error(data@, link) {
            Some(e) => r == Err::<(), MdfError>(e),
            None => r is Ok && final(sharable).has_cc(link),
        },
{
    broadcast use vstd::std_specs::hash::group_hash_axioms;

    proof {
        reveal(SharableBlocks::wf);
        reveal(SharableBlocks::within);
    }
    if link == 0 || sharable.cc.contains_key(&link) {
        return Ok(());
    }
    match read_cc4(data, link) {
        Ok(block) => {
            sharable.cc.insert(link, block);
            Ok(())
        },
        Err(e) => Err(e),
    }
}

/// The longest chain of blocks that is followed. A longer one is taken for a
/// chain that runs in a circle.
pub const MAX_CHAIN4: usize = 65535;

/// The most dimensions that an array block may have.
pub const MAX_DIMS: usize = 64;

/// What is wrong with the array block (CA) at `link`, whose header is
/// there; `None` where its dimensions can be read and their product fits
/// the machine's word.
pub open spec fn ca_error(data: Seq<u8>, link: i64) -> Option<MdfError> {
    match linked_block_error(data, link, id_ca4(), 0, CA4_DATA as nat) {
        Some(e) => Some(e),
        None => {
            let d = data_start(data, link as int);
            let ndim = u16_at(data, d + 2);
            if ndim > MAX_DIMS || d + CA4_DATA + 8 * ndim > data.len() || !dims_fit(
                data,
                d + CA4_DATA,
                ndim as nat,
            ) {
                Some(
                    MdfError::CorruptBlock {
                        offset: link as u64,
                        expected: (CA4_DATA + 8 * ndim) as u64,
                        actual: (data.len() - d) as u64,
                    },
                )
            } else {
                None
            }
        },
    }
}

/// The `n` dimensions that lie from `pos` on.
pub open spec fn dims_at(data: Seq<u8>, pos: int, n: nat) -> Seq<usize> {
    Seq::new(n, |i: int| u64_at(data, pos + 8 * i) as usize)
}

/// Every one of the `n` dimensions from `pos` on, and their product, fits
/// the machine's word.
pub open spec fn dims_fit(data: Seq<u8>, pos: int, n: nat) -> bool {
    &&& forall|i: int| 0 <= i < n ==> #[trigger] u64_at(data, pos + 8 * i) <= usize::MAX
    &&& shape_product(dims_at(data, pos, n)) <= usize::MAX
}

/// `ca` is the array block that lies at `link`.
pub open spec fn is_ca4(ca: Ca4Block, data: Seq<u8>, link: i64) -> bool {
    let d = data_start(data, link as int);
    &&& ca.shape@ == dims_at(data, d + CA4_DATA, u16_at(data, d + 2) as nat)
    &&& ca.pnd == shape_product(ca.shape@)
}

/// Reads the array block at `link`.
pub fn read_ca4(data: &[u8], link: i64) -> (r: Result<Ca4Block, MdfError>)
    ensures
        match ca_error(data@, link) {
            Some(e) => r == Err::<Ca4Block, MdfError>(e),
            None => r is Ok && is_ca4(r->Ok_0, data@, link),
        },
{
    let id = block_id4(0x43, 0x41);
    proof {
        assert(id@ =~= id_ca4());
    }
    let (_, d) = match check_linked_block(data, link, vstd::array::array_as_slice(&id), 0, CA4_DATA)
    {
        Ok(p) => p,
        Err(e) => {
            return Err(e);
        },
    };
    assert(linked_block_error(data@, link, id_ca4(), 0, CA4_DATA as nat) is None);
    let ndim = u16_le_at(data, d + 2) as usize;
    let available = data.len() - d;
    let ghost all = dims_at(data@, d + CA4_DATA, ndim as nat);
    if ndim > MAX_DIMS || available - CA4_DATA < 8 * ndim {
        return Err(
            MdfError::CorruptBlock {
                offset: link as u64,
                expected: (CA4_DATA + 8 * ndim) as u64,
                actual: available as u64,
            },
        );
    }
    let mut shape: Vec<usize> = Vec::with_capacity(ndim);
    let mut i: usize = 0;
    while i < ndim
        invariant
            i <= ndim,
            ndim <= MAX_DIMS,
            link >= 0,
            d == data_start(data@, link as int),
            ndim == u16_at(data@, d + 2),
            available == data.len() - d,
            linked_block_error(data@, link, id_ca4(), 0, CA4_DATA as nat) is None,
            d + CA4_DATA + 8 * ndim <= data.len(),
            shape@ == dims_at(data@, d + CA4_DATA, i as nat),
            forall|k: int| 0 <= k < i ==> #[trigger] u64_at(data@, d + CA4_DATA + 8 * k) <= usize::MAX,
        decreases ndim - i,
    {
        let dim = u64_le_at(data, d + CA4_DATA + 8 * i);
        if dim > usize::MAX as u64 {
            proof {
                assert(u64_at(data@, d + CA4_DATA + 8 * (i as int)) > usize::MAX);
                assert(!dims_fit(data@, d + CA4_DATA, ndim as nat));
            }
            return Err(
                MdfError::CorruptBlock {
                    offset: link as u64,
                    expected: (CA4_DATA + 8 * ndim) as u64,
                    actual: available as u64,
                },
            );
        }
        shape.push(dim as usize);
        proof {
            assert(shape@ =~= dims_at(data@, d + CA4_DATA, (i + 1) as nat));
        }
        i += 1;
    }
    match product_of(&shape) {
        Some(pnd) => Ok(Ca4Block { shape, pnd }),
        None => Err(
            MdfError::CorruptBlock {
                offset: link as u64,
                expected: (CA4_DATA + 8 * ndim) as u64,
                actual: available as u64,
            },
        ),
    }
}

/// What is wrong with the composition to which `link` leads; `None` where
/// the link is 0, or leads to an array block that can be read, or to another
/// block.
pub open spec fn composition_error(data: Seq<u8>, link: i64) -> Option<MdfError> {
    if link == 0 {
        None
    } else {
        match link_error(data, link, HEADER4_SIZE as nat, crate::mdfinfo::mdfinfo4::id_prefix4()) {
            Some(e) => Some(e),
            None => if field(data, link as int, 4) == id_ca4() {
                ca_error(data, link)
            } else {
                None
            },
        }
    }
}

/// `c` is the composition to which `link` leads: an array where the link
/// leads to an array block, a structure where it leads to a channel block,
/// and none otherwise.
pub open spec fn is_composition(c: Option<Composition>, data: Seq<u8>, link: i64) -> bool {
    if link == 0 {
        c is None
    } else if field(data, link as int, 4) == id_ca4() {
        c matches Some(Composition { block: Compo::CA(ca) }) && is_ca4(ca, data, link)
    } else if field(data, link as int, 4) == id_cn4() {
        c matches Some(Composition { block: Compo::CN(first) }) && first == link
    } else {
        c is None
    }
}

/// Reads the composition to which `link` leads.
pub fn read_composition(data: &[u8], link: i64) -> (r: Result<Option<Composition>, MdfError>)
    ensures
        match composition_error(data@, link) {
            Some(e) => r == Err::<Option<Composition>, MdfError>(e),
            None => r is Ok && is_composition(r->Ok_0, data@, link),
        },
{
    if link == 0 {
        return Ok(None);
    }
    let prefix = [0x23u8, 0x23u8];
    proof {
        assert(prefix@ =~= crate::mdfinfo::mdfinfo4::id_prefix4());
    }
    let pos = match check_link(data, link, HEADER4_SIZE, vstd::array::array_as_slice(&prefix)) {
        Ok(p) => p,
        Err(e) => {
            return Err(e);
        },
    };
    assert(link_error(
        data@,
        link,
        HEADER4_SIZE as nat,
        crate::mdfinfo::mdfinfo4::id_prefix4(),
    ) is None);
    let c = data[pos + 2];
    let d = data[pos + 3];
    let ghost id = field(data@, link as int, 4);
    proof {
        assert(field(data@, link as int, 2) =~= id.subrange(0, 2));
        assert(id[0] == 0x23 && id[1] == 0x23) by {
            assert(id.subrange(0, 2)[0] == crate::mdfinfo::mdfinfo4::id_prefix4()[0]);
            assert(id.subrange(0, 2)[1] == crate::mdfinfo::mdfinfo4::id_prefix4()[1]);
        }
        assert(id[2] == c && id[3] == d);
        assert(id_ca4()[3] == 0x41 && id_cn4()[3] == 0x4e && id_ca4()[2] == 0x43 && id_cn4()[2]
            == 0x43);
    }
    if c == 0x43 && d == 0x41 {
        proof {
            assert(id =~= id_ca4());
        }
        match read_ca4(data, link) {
            Ok(ca) => Ok(Some(Composition { block: Compo::CA(ca) })),
            Err(e) => Err(e),
        }
    } else if c == 0x43 && d == 0x4e {
        proof {
            assert(id =~= id_cn4());
        }
        Ok(Some(Composition { block: Compo::CN(link) }))
    } else {
        Ok(None)
    }
}

/// The byte order of a channel of the given data type: types 1, 3, 5, 9
/// and 16 are big endian. True stands for big endian.
pub open spec fn big_endian_type(cn_data_type: u8) -> bool {
    cn_data_type == 1 || cn_data_type == 3 || cn_data_type == 5 || cn_data_type == 9
        || cn_data_type == 16
}

/// The number of bytes that hold `bit_count` bits.
pub open spec fn bytes_for(bit_count: u32) -> u32 {
    if bit_count % 8 != 0 {
        (bit_count / 8 + 1) as u32
    } else {
        bit_count / 8
    }
}

/// The text of the text block to which `link` leads; empty where the link
/// is 0.
pub open spec fn linked_name(data: Seq<u8>, link: i64) -> Seq<char> {
    if link == 0 {
        Seq::empty()
    } else {
        md_text(data, link)
    }
}

/// What is wrong with the text block to which `link` leads.
pub open spec fn linked_name_error(data: Seq<u8>, link: i64) -> Option<MdfError> {
    if link == 0 {
        None
    } else {
        md_error(data, link)
    }
}

/// Reads the text of the text block to which `link` leads.
pub fn read_linked_name(data: &[u8], link: i64) -> (r: Result<String, MdfError>)
    ensures
        match linked_name_error(data@, link) {
            Some(e) => r == Err::<String, MdfError>(e),
            None => r is Ok && r->Ok_0@ == linked_name(data@, link),
        },
{
    if link == 0 {
        return Ok(String::new());
    }
    match parse_md(data, link) {
        Ok((_, text, _)) => Ok(text),
        Err(e) => Err(e),
    }
}

/// What is wrong with the channel block at `target` or with a block to
/// which it links; `None` where the channel can be read. The blocks are
/// looked at in this order: the channel block, its name, its composition,
/// its conversion.
pub open spec fn cn4_error(data: Seq<u8>, target: i64, rec_id_size: u8) -> Option<MdfError> {
    match linked_block_error(data, target, id_cn4(), 8, CN4_DATA as nat) {
        Some(e) => Some(e),
        None => {
            let d = data_start(data, target as int);
            if u32_at(data, d + 4) + rec_id_size > u32::MAX {
                Some(
                    MdfError::CorruptBlock {
                        offset: target as u64,
                        expected: CN4_DATA as u64,
                        actual: CN4_DATA as u64,
                    },
                )
            } else {
                match linked_name_error(data, i64_at(data, target + 40)) {
                    Some(e) => Some(e),
                    None => match composition_error(data, i64_at(data, target + 32)) {
                        Some(e) => Some(e),
                        None => cc4_error(data, i64_at(data, target + 56)),
                    },
                }
            }
        },
    }
}

/// The place of the invalidation bit of a channel in the records of its
/// group; `None` where the records carry no invalidation bytes, the channel
/// uses no invalidation bit, or the place is beyond the machine's reach.
pub open spec fn mask_place(
    block: Cn4Block,
    rec_id_size: u8,
    cg_data_bytes: u32,
    cg_inval_bytes: u32,
) -> Option<int> {
    let at = rec_id_size + cg_data_bytes + block.cn_inval_bit_pos / 8;
    if cg_inval_bytes > 0 && block.cn_flags & 2 != 0 && at <= usize::MAX {
        Some(at)
    } else {
        None
    }
}

/// `cn` is the channel that the block at `target` describes, the channel
/// number `index` of a group whose records start with `rec_id_size` bytes of
/// record id and hold `cg_data_bytes` bytes of data.
///
/// The channel starts at its byte offset after the record id and takes as
/// many bytes as its bits need.
pub open spec fn is_cn4(
    cn: Cn4,
    data: Seq<u8>,
    target: i64,
    index: int,
    rec_id_size: u8,
    cg_data_bytes: u32,
    cg_inval_bytes: u32,
) -> bool {
    &&& is_cn4_block(cn.block, data, target as int)
    &&& cn.block_position == target
    &&& cn.rec_pos == index
    &&& cn.unique_name@ == linked_name(data, cn.block.cn_tx_name)
    &&& cn.pos_byte_beg == cn.block.cn_byte_offset + rec_id_size
    &&& cn.n_bytes == bytes_for(cn.block.cn_bit_count)
    &&& cn.endian == big_endian_type(cn.block.cn_data_type)
    &&& is_composition(cn.composition, data, cn.block.cn_composition)
    &&& cn.data.kind() == kind_of(cn.block.cn_type, cn.block.cn_data_type, cn.n_bytes)
    &&& cn.data.spec_len() == 0
    &&& cn.data.shape() == match cn.composition {
        Some(Composition { block: Compo::CA(ca) }) => if cn.data.kind().numeric() {
            Some(ca.shape@)
        } else {
            None
        },
        _ => None,
    }
    &&& !cn.channel_data_valid
    &&& match mask_place(cn.block, rec_id_size, cg_data_bytes, cg_inval_bytes) {
        Some(at) => {
            &&& cn.invalid_mask is Some
            &&& cn.invalid_mask->0.byte_position == at
            &&& cn.invalid_mask->0.byte_mask == 1u8 << ((cn.block.cn_inval_bit_pos % 8) as u8)
            &&& cn.invalid_mask->0.mask@.len() == 0
        },
        None => cn.invalid_mask is None,
    }
}

/// Reads the channel block at `target` with its name and composition, and
/// its conversion into the store.
pub fn parse_cn4_block(
    data: &[u8],
    target: i64,
    index: i32,
    sharable: &mut SharableBlocks,
    rec_id_size: u8,
    cg_data_bytes: u32,
    cg_inval_bytes: u32,
) -> (r: Result<Cn4, MdfError>)
    requires
        old(sharable).wf(data@),
    ensures
        final(sharable).wf(data@),
        old(sharable).within(*final(sharable)),
        match cn4_error(data@, target, rec_id_size) {
            Some(e) => r == Err::<Cn4, MdfError>(e),
            None => {
                &&& r is Ok
                &&& is_cn4(
                    r->Ok_0,
                    data@,
                    target,
                    index as int,
                    rec_id_size,
                    cg_data_bytes,
                    cg_inval_bytes,
                )
                &&& final(sharable).has_cc(r->Ok_0.block.cn_cc_conversion)
            },
        },
{
    proof {
        old(sharable).lemma_within_self();
    }
    let id = block_id4(0x43, 0x4e);
    proof {
        assert(id@ =~= id_cn4());
    }
    let (pos, d) = match check_linked_block(
        data,
        target,
        vstd::array::array_as_slice(&id),
        8,
        CN4_DATA,
    ) {
        Ok(p) => p,
        Err(e) => {
            return Err(e);
        },
    };
    assert(linked_block_error(data@, target, id_cn4(), 8, CN4_DATA as nat) is None);
    let block = read_cn4_block(data, pos, d);
    let pos_byte_beg = match block.cn_byte_offset.checked_add(rec_id_size as u32) {
        Some(p) => p,
        None => {
            return Err(
                MdfError::CorruptBlock {
                    offset: target as u64,
                    expected: CN4_DATA as u64,
                    actual: CN4_DATA as u64,
                },
            );
        },
    };
    let mut n_bytes = block.cn_bit_count / 8;
    if block.cn_bit_count % 8 != 0 {
        n_bytes += 1;
    }
    let unique_name = match read_linked_name(data, block.cn_tx_name) {
        Ok(name) => name,
        Err(e) => {
            return Err(e);
        },
    };
    let composition = match read_composition(data, block.cn_composition) {
        Ok(c) => c,
        Err(e) => {
            return Err(e);
        },
    };
    match parse_cc4(data, block.cn_cc_conversion, sharable) {
        Ok(()) => {},
        Err(e) => {
            return Err(e);
        },
    }
    let t = block.cn_data_type;
    let endian = t == 1 || t == 3 || t == 5 || t == 9 || t == 16;
    let model = data_type_init(block.cn_type, t, n_bytes, false);
    let kind = model.elem_kind();
    let cn_data = match &composition {
        Some(compo) => match &compo.block {
            Compo::CA(ca) => crate::mdfreader::channel_data::empty_array(kind, ca.shape.clone()),
            Compo::CN(_) => model,
        },
        None => model,
    };
    let at: u64 = rec_id_size as u64 + cg_data_bytes as u64 + (block.cn_inval_bit_pos / 8) as u64;
    let invalid_mask = if cg_inval_bytes > 0 && block.cn_flags & 2 != 0 && at <= usize::MAX as u64 {
        Some(
            InvalidMask {
                mask: Vec::new(),
                byte_position: at as usize,
                byte_mask: 1u8 << ((block.cn_inval_bit_pos % 8) as u8),
            },
        )
    } else {
        None
    };
    Ok(
        Cn4 {
            block,
            block_position: target,
            rec_pos: index,
            unique_name,
            pos_byte_beg,
            n_bytes,
            composition,
            data: cn_data,
            endian,
            invalid_mask,
            channel_data_valid: false,
        },
    )
}

/// `prefix` put before the offsets of `rest`, where `rest` holds offsets.
pub open spec fn chain4_after(prefix: Seq<i64>, rest: Result<Seq<i64>, MdfError>) -> Result<
    Seq<i64>,
    MdfError,
> {
    match rest {
        Ok(offsets) => Ok(prefix + offsets),
        Err(e) => Err(e),
    }
}

/// The offsets of the channel blocks of the chain that starts at `target`,
/// of which at most `fuel` are followed, or the error of the first channel
/// that cannot be read.
pub open spec fn cn4_chain(data: Seq<u8>, target: i64, rec_id_size: u8, fuel: nat) -> Result<
    Seq<i64>,
    MdfError,
>
    decreases fuel,
{
    if target == 0 {
        Ok(Seq::empty())
    } else if fuel == 0 {
        Err(MdfError::UnexpectedBlockType { offset: target as u64 })
    } else {
        match cn4_error(data, target, rec_id_size) {
            Some(e) => Err(e),
            None => chain4_after(
                seq![target],
                cn4_chain(data, i64_at(data, target + 24), rec_id_size, (fuel - 1) as nat),
            ),
        }
    }
}

/// `cns` are the channels of the chain with the offsets `offsets`, numbered
/// in the order of the chain, and each finds its conversion in the store.
pub open spec fn are_cn4(
    cns: Seq<Cn4>,
    offsets: Seq<i64>,
    data: Seq<u8>,
    rec_id_size: u8,
    cg_data_bytes: u32,
    cg_inval_bytes: u32,
    sharable: SharableBlocks,
) -> bool {
    &&& cns.len() == offsets.len()
    &&& forall|i: int|
        0 <= i < cns.len() ==> is_cn4(
            #[trigger] cns[i],
            data,
            offsets[i],
            i,
            rec_id_size,
            cg_data_bytes,
            cg_inval_bytes,
        ) && sharable.has_cc(cns[i].block.cn_cc_conversion)
}

/// Channels that find their conversions in a store find them in every
/// store that holds that store.
pub proof fn lemma_cn4_stay_linked(
    cns: Seq<Cn4>,
    offsets: Seq<i64>,
    data: Seq<u8>,
    rec_id_size: u8,
    cg_data_bytes: u32,
    cg_inval_bytes: u32,
    a: SharableBlocks,
    b: SharableBlocks,
)
    requires
        are_cn4(cns, offsets, data, rec_id_size, cg_data_bytes, cg_inval_bytes, a),
        a.within(b),
    ensures
        are_cn4(cns, offsets, data, rec_id_size, cg_data_bytes, cg_inval_bytes, b),
{
    assert forall|i: int| 0 <= i < cns.len() implies b.has_cc(
        (#[trigger] cns[i]).block.cn_cc_conversion,
    ) by {
        a.lemma_within_has(b, cns[i].block.cn_cc_conversion);
    }
}

/// Reads the chain of channel blocks that starts at `target`, with all that
/// the channels link to. The channels come in the order of the chain.
pub fn parse_cn4(
    data: &[u8],
    target: i64,
    sharable: &mut SharableBlocks,
    rec_id_size: u8,
    cg_data_bytes: u32,
    cg_inval_bytes: u32,
) -> (r: Result<Vec<Cn4>, MdfError>)
    requires
        old(sharable).wf(data@),
    ensures
        final(sharable).wf(data@),
        old(sharable).within(*final(sharable)),
        match cn4_chain(data@, target, rec_id_size, MAX_CHAIN4 as nat) {
            Err(e) => r == Err::<Vec<Cn4>, MdfError>(e),
            Ok(offsets) => r is Ok && are_cn4(
                r->Ok_0@,
                offsets,
                data@,
                rec_id_size,
                cg_data_bytes,
                cg_inval_bytes,
                *final(sharable),
            ),
        },
{
    let mut cn: Vec<Cn4> = Vec::new();
    let mut next_pointer = target;
    let ghost mut visited: Seq<i64> = Seq::empty();
    proof {
        old(sharable).lemma_within_self();
        assert(Seq::<i64>::empty() + cn4_chain(
            data@,
            target,
            rec_id_size,
            MAX_CHAIN4 as nat,
        )->Ok_0 =~= cn4_chain(data@, target, rec_id_size, MAX_CHAIN4 as nat)->Ok_0);
    }
    while next_pointer != 0
        invariant
            sharable.wf(data@),
            old(sharable).within(*sharable),
            cn@.len() == visited.len(),
            cn@.len() <= MAX_CHAIN4,
            cn4_chain(data@, target, rec_id_size, MAX_CHAIN4 as nat) == chain4_after(
                visited,
                cn4_chain(data@, next_pointer, rec_id_size, (MAX_CHAIN4 - visited.len()) as nat),
            ),
            are_cn4(cn@, visited, data@, rec_id_size, cg_data_bytes, cg_inval_bytes, *sharable),
        decreases MAX_CHAIN4 - cn@.len(),
    {
        if cn.len() >= MAX_CHAIN4 {
            return Err(MdfError::UnexpectedBlockType { offset: next_pointer as u64 });
        }
        let ghost before = *sharable;
        let parsed = parse_cn4_block(
            data,
            next_pointer,
            cn.len() as i32,
            sharable,
            rec_id_size,
            cg_data_bytes,
            cg_inval_bytes,
        );
        proof {
            old(sharable).lemma_within_trans(before, *sharable);
            lemma_cn4_stay_linked(
                cn@,
                visited,
                data@,
                rec_id_size,
                cg_data_bytes,
                cg_inval_bytes,
                before,
                *sharable,
            );
        }
        let cn_struct = match parsed {
            Ok(c) => c,
            Err(e) => {
                return Err(e);
            },
        };
        proof {
            let rest = cn4_chain(
                data@,
                cn_struct.block.cn_cn_next,
                rec_id_size,
                (MAX_CHAIN4 - visited.len() - 1) as nat,
            );
            match rest {
                Ok(offsets) => {
                    assert(visited + (seq![next_pointer] + offsets) =~= visited.push(next_pointer)
                        + offsets);
                },
                Err(_) => {},
            }
            visited = visited.push(next_pointer);
        }
        next_pointer = cn_struct.block.cn_cn_next;
        cn.push(cn_struct);
    }
    proof {
        assert(visited + Seq::<i64>::empty() =~= visited);
    }
    Ok(cn)
}

/// What is wrong with the channel group block at `target` or with one of
/// its channels; `None` where the group can be read.
pub open spec fn cg4_error(data: Seq<u8>, target: i64, rec_id_size: u8) -> Option<MdfError> {
    match linked_block_error(data, target, id_cg4(), 6, CG4_DATA as nat) {
        Some(e) => Some(e),
        None => {
            let d = data_start(data, target as int);
            if rec_id_size + u32_at(data, d + 24) + u32_at(data, d + 28) > u32::MAX {
                Some(
                    MdfError::CorruptBlock {
                        offset: target as u64,
                        expected: CG4_DATA as u64,
                        actual: CG4_DATA as u64,
                    },
                )
            } else {
                match cn4_chain(data, i64_at(data, target + 32), rec_id_size, MAX_CHAIN4 as nat) {
                    Err(e) => Some(e),
                    Ok(_) => None,
                }
            }
        },
    }
}

/// `cg` is the channel group that the block at `target` describes, with the
/// channels of its chain. Its records hold the record id, the data bytes and
/// the invalidation bytes. Its master and the channel that owns its values
/// of variable length are not yet entered.
pub open spec fn is_cg4(
    cg: Cg4,
    data: Seq<u8>,
    target: i64,
    rec_id_size: u8,
    sharable: SharableBlocks,
) -> bool {
    &&& is_cg4_block(cg.block, data, target as int)
    &&& cg.block_position == target
    &&& cg.record_length == rec_id_size + cg.block.cg_data_bytes + cg.block.cg_inval_bytes
    &&& cn4_chain(data, cg.block.cg_cn_first, rec_id_size, MAX_CHAIN4 as nat) is Ok
    &&& are_cn4(
        cg.cn@,
        cn4_chain(data, cg.block.cg_cn_first, rec_id_size, MAX_CHAIN4 as nat)->Ok_0,
        data,
        rec_id_size,
        cg.block.cg_data_bytes,
        cg.block.cg_inval_bytes,
        sharable,
    )
    &&& cg.master_channel_name@ == Seq::<char>::empty()
    &&& cg.vlsd is None
}

/// Reads the channel group block at `target` with its channels.
pub fn parse_cg4_block(
    data: &[u8],
    target: i64,
    sharable: &mut SharableBlocks,
    rec_id_size: u8,
) -> (r: Result<Cg4, MdfError>)
    requires
        old(sharable).wf(data@),
    ensures
        final(sharable).wf(data@),
        old(sharable).within(*final(sharable)),
        match cg4_error(data@, target, rec_id_size) {
            Some(e) => r == Err::<Cg4, MdfError>(e),
            None => r is Ok && is_cg4(r->Ok_0, data@, target, rec_id_size, *final(sharable)),
        },
{
    proof {
        old(sharable).lemma_within_self();
    }
    let id = block_id4(0x43, 0x47);
    proof {
        assert(id@ =~= id_cg4());
    }
    let (pos, d) = match check_linked_block(
        data,
        target,
        vstd::array::array_as_slice(&id),
        6,
        CG4_DATA,
    ) {
        Ok(p) => p,
        Err(e) => {
            return Err(e);
        },
    };
    assert(linked_block_error(data@, target, id_cg4(), 6, CG4_DATA as nat) is None);
    let block = Cg4Block {
        cg_cg_next: i64_le_at(data, pos + 24),
        cg_cn_first: i64_le_at(data, pos + 32),
        cg_record_id: u64_le_at(data, d),
        cg_cycle_count: u64_le_at(data, d + 8),
        cg_flags: u16_le_at(data, d + 16),
        cg_data_bytes: u32_le_at(data, d + 24),
        cg_inval_bytes: u32_le_at(data, d + 28),
    };
    let length: u64 = rec_id_size as u64 + block.cg_data_bytes as u64 + block.cg_inval_bytes as u64;
    if length > u32::MAX as u64 {
        return Err(
            MdfError::CorruptBlock {
                offset: target as u64,
                expected: CG4_DATA as u64,
                actual: CG4_DATA as u64,
            },
        );
    }
    let cn = match parse_cn4(
        data,
        block.cg_cn_first,
        sharable,
        rec_id_size,
        block.cg_data_bytes,
        block.cg_inval_bytes,
    ) {
        Ok(cn) => cn,
        Err(e) => {
            return Err(e);
        },
    };
    Ok(
        Cg4 {
            block,
            block_position: target,
            cn,
            master_channel_name: String::new(),
            record_length: length as u32,
            vlsd: None,
        },
    )
}

/// The offsets of the channel group blocks of the chain that starts at
/// `target`, of which at most `fuel` are followed, or the error of the first
/// group that cannot be read.
pub open spec fn cg4_chain(data: Seq<u8>, target: i64, rec_id_size: u8, fuel: nat) -> Result<
    Seq<i64>,
    MdfError,
>
    decreases fuel,
{
    if target == 0 {
        Ok(Seq::empty())
    } else if fuel == 0 {
        Err(MdfError::UnexpectedBlockType { offset: target as u64 })
    } else {
        match cg4_error(data, target, rec_id_size) {
            Some(e) => Err(e),
            None => chain4_after(
                seq![target],
                cg4_chain(data, i64_at(data, target + 24), rec_id_size, (fuel - 1) as nat),
            ),
        }
    }
}

/// `cgs` are the channel groups of the chain with the offsets `offsets`.
pub open spec fn are_cg4(
    cgs: Seq<Cg4>,
    offsets: Seq<i64>,
    data: Seq<u8>,
    rec_id_size: u8,
    sharable: SharableBlocks,
) -> bool {
    &&& cgs.len() == offsets.len()
    &&& forall|i: int|
        0 <= i < cgs.len() ==> is_cg4(#[trigger] cgs[i], data, offsets[i], rec_id_size, sharable)
}

/// Groups whose channels find their conversions in a store find them in
/// every store that holds that store.
pub proof fn lemma_cg4_stay_linked(
    cgs: Seq<Cg4>,
    offsets: Seq<i64>,
    data: Seq<u8>,
    rec_id_size: u8,
    a: SharableBlocks,
    b: SharableBlocks,
)
    requires
        are_cg4(cgs, offsets, data, rec_id_size, a),
        a.within(b),
    ensures
        are_cg4(cgs, offsets, data, rec_id_size, b),
{
    assert forall|i: int| 0 <= i < cgs.len() implies is_cg4(
        #[trigger] cgs[i],
        data,
        offsets[i],
        rec_id_size,
        b,
    ) by {
        let cg = cgs[i];
        lemma_cn4_stay_linked(
            cg.cn@,
            cn4_chain(data, cg.block.cg_cn_first, rec_id_size, MAX_CHAIN4 as nat)->Ok_0,
            data,
            rec_id_size,
            cg.block.cg_data_bytes,
            cg.block.cg_inval_bytes,
            a,
            b,
        );
    }
}

/// Reads the chain of channel group blocks that starts at `target`, each
/// with its channels. The groups come in the order of the chain.
pub fn parse_cg4(data: &[u8], target: i64, sharable: &mut SharableBlocks, rec_id_size: u8) -> (r:
    Result<Vec<Cg4>, MdfError>)
    requires
        old(sharable).wf(data@),
    ensures
        final(sharable).wf(data@),
        old(sharable).within(*final(sharable)),
        match cg4_chain(data@, target, rec_id_size, MAX_CHAIN4 as nat) {
            Err(e) => r == Err::<Vec<Cg4>, MdfError>(e),
            Ok(offsets) => r is Ok && are_cg4(
                r->Ok_0@,
                offsets,
                data@,
                rec_id_size,
                *final(sharable),
            ),
        },
{
    let mut cg: Vec<Cg4> = Vec::new();
    let mut next_pointer = target;
    let ghost mut visited: Seq<i64> = Seq::empty();
    proof {
        old(sharable).lemma_within_self();
        assert(Seq::<i64>::empty() + cg4_chain(
            data@,
            target,
            rec_id_size,
            MAX_CHAIN4 as nat,
        )->Ok_0 =~= cg4_chain(data@, target, rec_id_size, MAX_CHAIN4 as nat)->Ok_0);
    }
    while next_pointer != 0
        invariant
            sharable.wf(data@),
            old(sharable).within(*sharable),
            cg@.len() == visited.len(),
            cg@.len() <= MAX_CHAIN4,
            cg4_chain(data@, target, rec_id_size, MAX_CHAIN4 as nat) == chain4_after(
                visited,
                cg4_chain(data@, next_pointer, rec_id_size, (MAX_CHAIN4 - visited.len()) as nat),
            ),
            are_cg4(cg@, visited, data@, rec_id_size, *sharable),
        decreases MAX_CHAIN4 - cg@.len(),
    {
        if cg.len() >= MAX_CHAIN4 {
            return Err(MdfError::UnexpectedBlockType { offset: next_pointer as u64 });
        }
        let ghost before = *sharable;
        let parsed = parse_cg4_block(data, next_pointer, sharable, rec_id_size);
        proof {
            old(sharable).lemma_within_trans(before, *sharable);
            lemma_cg4_stay_linked(cg@, visited, data@, rec_id_size, before, *sharable);
        }
        let cg_struct = match parsed {
            Ok(c) => c,
            Err(e) => {
                return Err(e);
            },
        };
        proof {
            let rest = cg4_chain(
                data@,
                cg_struct.block.cg_cg_next,
                rec_id_size,
                (MAX_CHAIN4 - visited.len() - 1) as nat,
            );
            match rest {
                Ok(offsets) => {
                    assert(visited + (seq![next_pointer] + offsets) =~= visited.push(next_pointer)
                        + offsets);
                },
                Err(_) => {},
            }
            visited = visited.push(next_pointer);
        }
        next_pointer = cg_struct.block.cg_cg_next;
        cg.push(cg_struct);
    }
    proof {
        assert(visited + Seq::<i64>::empty() =~= visited);
    }
    Ok(cg)
}

/// What is wrong with the data group block at `target` or with one of its
/// channel groups; `None` where the data group can be read.
pub open spec fn dg4_error(data: Seq<u8>, target: i64) -> Option<MdfError> {
    match linked_block_error(data, target, id_dg4(), 4, DG4_DATA as nat) {
        Some(e) => Some(e),
        None => match cg4_chain(
            data,
            i64_at(data, target + 32),
            data[data_start(data, target as int)],
            MAX_CHAIN4 as nat,
        ) {
            Err(e) => Some(e),
            Ok(_) => None,
        },
    }
}

/// `dg` is the data group that the block at `target` describes, with the
/// channel groups of its chain.
pub open spec fn is_dg4(dg: Dg4, data: Seq<u8>, target: i64, sharable: SharableBlocks) -> bool {
    &&& is_dg4_block(dg.block, data, target as int)
    &&& dg.block_position == target
    &&& cg4_chain(data, dg.block.dg_cg_first, dg.block.dg_rec_id_size, MAX_CHAIN4 as nat) is Ok
    &&& are_cg4(
        dg.cg@,
        cg4_chain(data, dg.block.dg_cg_first, dg.block.dg_rec_id_size, MAX_CHAIN4 as nat)->Ok_0,
        data,
        dg.block.dg_rec_id_size,
        sharable,
    )
}

/// The offsets of the data group blocks of the chain that starts at
/// `target`, of which at most `fuel` are followed, or the error of the first
/// data group that cannot be read.
pub open spec fn dg4_chain(data: Seq<u8>, target: i64, fuel: nat) -> Result<Seq<i64>, MdfError>
    decreases fuel,
{
    if target == 0 {
        Ok(Seq::empty())
    } else if fuel == 0 {
        Err(MdfError::UnexpectedBlockType { offset: target as u64 })
    } else {
        match dg4_error(data, target) {
            Some(e) => Err(e),
            None => chain4_after(
                seq![target],
                dg4_chain(data, i64_at(data, target + 24), (fuel - 1) as nat),
            ),
        }
    }
}

/// `dgs` are the data groups of the chain with the offsets `offsets`.
pub open spec fn are_dg4(
    dgs: Seq<Dg4>,
    offsets: Seq<i64>,
    data: Seq<u8>,
    sharable: SharableBlocks,
) -> bool {
    &&& dgs.len() == offsets.len()
    &&& forall|i: int|
        0 <= i < dgs.len() ==> is_dg4(#[trigger] dgs[i], data, offsets[i], sharable)
}

/// Data groups whose channels find their conversions in a store find them
/// in every store that holds that store.
pub proof fn lemma_dg4_stay_linked(
    dgs: Seq<Dg4>,
    offsets: Seq<i64>,
    data: Seq<u8>,
    a: SharableBlocks,
    b: SharableBlocks,
)
    requires
        are_dg4(dgs, offsets, data, a),
        a.within(b),
    ensures
        are_dg4(dgs, offsets, data, b),
{
    assert forall|i: int| 0 <= i < dgs.len() implies is_dg4(
        #[trigger] dgs[i],
        data,
        offsets[i],
        b,
    ) by {
        let dg = dgs[i];
        lemma_cg4_stay_linked(
            dg.cg@,
            cg4_chain(
                data,
                dg.block.dg_cg_first,
                dg.block.dg_rec_id_size,
                MAX_CHAIN4 as nat,
            )->Ok_0,
            data,
            dg.block.dg_rec_id_size,
            a,
            b,
        );
    }
}

/// Reads the chain of data group blocks that starts at `target`, with their
/// channel groups, channels and conversions, in the order of the chain.
pub fn parse_dg4(data: &[u8], target: i64, sharable: &mut SharableBlocks) -> (r: Result<
    Vec<Dg4>,
    MdfError,
>)
    requires
        old(sharable).wf(data@),
    ensures
        final(sharable).wf(data@),
        old(sharable).within(*final(sharable)),
        match dg4_chain(data@, target, MAX_CHAIN4 as nat) {
            Err(e) => r == Err::<Vec<Dg4>, MdfError>(e),
            Ok(offsets) => r is Ok && are_dg4(r->Ok_0@, offsets, data@, *final(sharable)),
        },
{
    let mut dg: Vec<Dg4> = Vec::new();
    let mut next_pointer = target;
    let ghost mut visited: Seq<i64> = Seq::empty();
    let id = block_id4(0x44, 0x47);
    proof {
        assert(id@ =~= id_dg4());
        old(sharable).lemma_within_self();
        assert(Seq::<i64>::empty() + dg4_chain(data@, target, MAX_CHAIN4 as nat)->Ok_0
            =~= dg4_chain(data@, target, MAX_CHAIN4 as nat)->Ok_0);
    }
    while next_pointer != 0
        invariant
            id@ == id_dg4(),
            sharable.wf(data@),
            old(sharable).within(*sharable),
            dg@.len() == visited.len(),
            dg@.len() <= MAX_CHAIN4,
            dg4_chain(data@, target, MAX_CHAIN4 as nat) == chain4_after(
                visited,
                dg4_chain(data@, next_pointer, (MAX_CHAIN4 - visited.len()) as nat),
            ),
            are_dg4(dg@, visited, data@, *sharable),
        decreases MAX_CHAIN4 - dg@.len(),
    {
        if dg.len() >= MAX_CHAIN4 {
            return Err(MdfError::UnexpectedBlockType { offset: next_pointer as u64 });
        }
        let (pos, d) = match check_linked_block(
            data,
            next_pointer,
            vstd::array::array_as_slice(&id),
            4,
            DG4_DATA,
        ) {
            Ok(p) => p,
            Err(e) => {
                return Err(e);
            },
        };
        assert(linked_block_error(data@, next_pointer, id_dg4(), 4, DG4_DATA as nat) is None);
        let block = Dg4Block {
            dg_dg_next: i64_le_at(data, pos + 24),
            dg_cg_first: i64_le_at(data, pos + 32),
            dg_data: i64_le_at(data, pos + 40),
            dg_rec_id_size: data[d],
        };
        let ghost before = *sharable;
        let parsed = parse_cg4(data, block.dg_cg_first, sharable, block.dg_rec_id_size);
        proof {
            old(sharable).lemma_within_trans(before, *sharable);
            lemma_dg4_stay_linked(dg@, visited, data@, before, *sharable);
        }
        let cg = match parsed {
            Ok(c) => c,
            Err(e) => {
                return Err(e);
            },
        };
        proof {
            let rest = dg4_chain(data@, block.dg_dg_next, (MAX_CHAIN4 - visited.len() - 1) as nat);
            match rest {
                Ok(offsets) => {
                    assert(visited + (seq![next_pointer] + offsets) =~= visited.push(next_pointer)
                        + offsets);
                },
                Err(_) => {},
            }
            visited = visited.push(next_pointer);
        }
        let block_start = next_pointer;
        next_pointer = block.dg_dg_next;
        dg.push(Dg4 { block, block_position: block_start, cg });
    }
    proof {
        assert(visited + Seq::<i64>::empty() =~= visited);
    }
    Ok(dg)
}

} // verus!
