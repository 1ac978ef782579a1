//! The names of the channels of a 4.x file, the masters of its groups, and
//! the channels that own the values of variable length of a group.

use crate::mdfinfo::channel_db3::decimal_string;
use crate::mdfinfo::channel_db3::decimal_text;
use crate::mdfinfo::channel_db3::master_prefix;
use crate::mdfinfo::mdfinfo4::Cg4;
use crate::mdfinfo::mdfinfo4::Cn4;
use crate::mdfinfo::mdfinfo4::Dg4;
use crate::mdfreader::data_read4::is_listed;
use crate::mdfreader::data_read4::name_listed;
use vstd::prelude::*;
use vstd::string::StringExecFns;

verus! {

/// The texts of a list of strings.
pub open spec fn texts_of(names: Seq<String>) -> Seq<Seq<char>> {
    Seq::new(names.len(), |i: int| names[i]@)
}

/// The name that a channel gets: its own where no channel before it has
/// that name, and else its own, a space and the offset of its block, which no
/// other channel has.
pub open spec fn unique_name4(seen: Seq<Seq<char>>, name: Seq<char>, block_position: i64) -> Seq<
    char,
> {
    if seen.contains(name) {
        name + seq![' '] + decimal_text(block_position as u64 as nat)
    } else {
        name
    }
}

/// The names that are taken after the channels `cns` were named in turn.
pub open spec fn seen_after_cns(seen: Seq<Seq<char>>, cns: Seq<Cn4>) -> Seq<Seq<char>>
    decreases cns.len(),
{
    if cns.len() == 0 {
        seen
    } else {
        let before = seen_after_cns(seen, cns.drop_last());
        before.push(unique_name4(before, cns.last().unique_name@, cns.last().block_position))
    }
}

/// The names that are taken after the channels of the groups `cgs` were
/// named in turn.
pub open spec fn seen_after_cgs(seen: Seq<Seq<char>>, cgs: Seq<Cg4>) -> Seq<Seq<char>>
    decreases cgs.len(),
{
    if cgs.len() == 0 {
        seen
    } else {
        seen_after_cns(seen_after_cgs(seen, cgs.drop_last()), cgs.last().cn@)
    }
}

/// The names that are taken after the channels of the data groups `dgs`
/// were named in turn.
pub open spec fn seen_after_dgs(seen: Seq<Seq<char>>, dgs: Seq<Dg4>) -> Seq<Seq<char>>
    decreases dgs.len(),
{
    if dgs.len() == 0 {
        seen
    } else {
        seen_after_cgs(seen_after_dgs(seen, dgs.drop_last()), dgs.last().cg@)
    }
}

/// `new` is the channel `old` under the name `name`.
pub open spec fn cn4_renamed(old: Cn4, new: Cn4, name: Seq<char>) -> bool {
    &&& new.unique_name@ == name
    &&& new.block == old.block
    &&& new.block_position == old.block_position
    &&& new.rec_pos == old.rec_pos
    &&& new.pos_byte_beg == old.pos_byte_beg
    &&& new.n_bytes == old.n_bytes
    &&& new.composition == old.composition
    &&& new.data == old.data
    &&& new.endian == old.endian
    &&& new.invalid_mask == old.invalid_mask
    &&& new.channel_data_valid == old.channel_data_valid
}

/// `new` are the channels `old` of one group, each under the name that it
/// gets after those before it, `seen` being the names taken before the
/// group.
pub open spec fn cns4_renamed(seen: Seq<Seq<char>>, old: Seq<Cn4>, new: Seq<Cn4>) -> bool {
    &&& new.len() == old.len()
    &&& forall|k: int|
        0 <= k < old.len() ==> cn4_renamed(
            old[k],
            #[trigger] new[k],
            unique_name4(
                seen_after_cns(seen, old.subrange(0, k)),
                old[k].unique_name@,
                old[k].block_position,
            ),
        )
}

/// True for the types of the channels that are masters: master (2) and
/// virtual master (3).
pub open spec fn master_type(cn_type: u8) -> bool {
    cn_type == 2 || cn_type == 3
}

/// The name of the master channel of a group: that of its first master
/// channel, and for a group without one a name made of the offset of the
/// group's block.
pub open spec fn master_of4(cns: Seq<Cn4>, from: int, block_position: i64) -> Seq<char>
    decreases cns.len() - from,
{
    if from < 0 || from >= cns.len() {
        master_prefix() + decimal_text(block_position as u64 as nat)
    } else if master_type(cns[from].block.cn_type) {
        cns[from].unique_name@
    } else {
        master_of4(cns, from + 1, block_position)
    }
}

/// `new` is the group `old` with its channels named, `seen` being the
/// names taken before the group, and with the name of its master entered.
pub open spec fn cg4_named(seen: Seq<Seq<char>>, old: Cg4, new: Cg4) -> bool {
    &&& new.block == old.block
    &&& new.block_position == old.block_position
    &&& new.record_length == old.record_length
    &&& new.vlsd == old.vlsd
    &&& cns4_renamed(seen, old.cn@, new.cn@)
    &&& new.master_channel_name@ == master_of4(new.cn@, 0, old.block_position)
}

/// `new` are the groups `old` with their channels named in turn.
pub open spec fn cgs4_named(seen: Seq<Seq<char>>, old: Seq<Cg4>, new: Seq<Cg4>) -> bool {
    &&& new.len() == old.len()
    &&& forall|j: int|
        0 <= j < old.len() ==> cg4_named(
            seen_after_cgs(seen, old.subrange(0, j)),
            old[j],
            #[trigger] new[j],
        )
}

/// `new` are the data groups `old` with their channels named in turn.
pub open spec fn dgs4_named(seen: Seq<Seq<char>>, old: Seq<Dg4>, new: Seq<Dg4>) -> bool {
    &&& new.len() == old.len()
    &&& forall|i: int|
        0 <= i < old.len() ==> (#[trigger] new[i]).block == old[i].block && new[i].block_position
            == old[i].block_position && cgs4_named(
            seen_after_dgs(seen, old.subrange(0, i)),
            old[i].cg@,
            new[i].cg@,
        )
}

/// `name` is one of `names` exactly where its text is one of their texts.
pub proof fn lemma_listed_is_contained(names: Seq<String>, name: Seq<char>)
    ensures
        name_listed(names, name) <==> texts_of(names).contains(name),
{
    if name_listed(names, name) {
        let j = choose|j: int| 0 <= j < names.len() && names[j]@ == name;
        assert(texts_of(names)[j] == name);
    }
    if texts_of(names).contains(name) {
        let j = choose|j: int| 0 <= j < texts_of(names).len() && texts_of(names)[j] == name;
        assert(names[j]@ == name);
    }
}

/// Names the channels of one group in turn and lists their names.
fn name_cns4(cns: &mut Vec<Cn4>, list: &mut Vec<String>)
    ensures
        texts_of(final(list)@) == seen_after_cns(texts_of(old(list)@), old(cns)@),
        cns4_renamed(texts_of(old(list)@), old(cns)@, final(cns)@),
{
    let ghost seen0 = texts_of(list@);
    let mut k: usize = 0;
    proof {
        assert(old(cns)@.subrange(0, 0) =~= Seq::<Cn4>::empty());
    }
    while k < cns.len()
        invariant
            k <= cns.len(),
            cns@.len() == old(cns)@.len(),
            seen0 == texts_of(old(list)@),
            texts_of(list@) == seen_after_cns(seen0, old(cns)@.subrange(0, k as int)),
            forall|i: int|
                0 <= i < k ==> cn4_renamed(
                    old(cns)@[i],
                    #[trigger] cns@[i],
                    unique_name4(
                        seen_after_cns(seen0, old(cns)@.subrange(0, i)),
                        old(cns)@[i].unique_name@,
                        old(cns)@[i].block_position,
                    ),
                ),
            forall|i: int| k <= i < cns@.len() ==> cns@[i] == old(cns)@[i],
        decreases cns.len() - k,
    {
        proof {
            assert(old(cns)@.subrange(0, k + 1).drop_last() =~= old(cns)@.subrange(0, k as int));
        }
        let cn = &mut cns[k];
        proof {
            lemma_listed_is_contained(list@, cn.unique_name@);
        }
        if is_listed(list, &cn.unique_name) {
            let suffix = decimal_string(cn.block_position as u64);
            proof {
                reveal_strlit(" ");
                assert(" "@ =~= seq![' ']);
            }
            cn.unique_name.append(" ");
            cn.unique_name.append(suffix.as_str());
        }
        let ghost before = list@;
        list.push(cn.unique_name.clone());
        proof {
            assert(texts_of(list@) =~= texts_of(before).push(cn.unique_name@));
        }
        k += 1;
    }
    proof {
        assert(old(cns)@.subrange(0, k as int) =~= old(cns)@);
    }
}

/// Finds the name of the master channel of a group.
fn master_name4(cns: &Vec<Cn4>, block_position: i64) -> (r: String)
    ensures
        r@ == master_of4(cns@, 0, block_position),
{
    let mut k: usize = 0;
    while k < cns.len()
        invariant
            k <= cns.len(),
            master_of4(cns@, 0, block_position) == master_of4(cns@, k as int, block_position),
        decreases cns.len() - k,
    {
        let t = cns[k].block.cn_type;
        if t == 2 || t == 3 {
            return cns[k].unique_name.clone();
        }
        k += 1;
    }
    let mut name = String::from_str("master_");
    proof {
        reveal_strlit("master_");
        assert("master_"@ =~= master_prefix());
    }
    name.append(decimal_string(block_position as u64).as_str());
    name
}

/// Names the channels of one group and enters the name of its master.
fn name_cg4(cg: &mut Cg4, list: &mut Vec<String>)
    ensures
        texts_of(final(list)@) == seen_after_cns(texts_of(old(list)@), old(cg).cn@),
        cg4_named(texts_of(old(list)@), *old(cg), *final(cg)),
{
    name_cns4(&mut cg.cn, list);
    cg.master_channel_name = master_name4(&cg.cn, cg.block_position);
}

/// Names the channels of the groups of one data group in turn.
fn name_cgs4(cgs: &mut Vec<Cg4>, list: &mut Vec<String>)
    ensures
        texts_of(final(list)@) == seen_after_cgs(texts_of(old(list)@), old(cgs)@),
        cgs4_named(texts_of(old(list)@), old(cgs)@, final(cgs)@),
{
    let ghost seen0 = texts_of(list@);
    let mut j: usize = 0;
    proof {
        assert(old(cgs)@.subrange(0, 0) =~= Seq::<Cg4>::empty());
    }
    while j < cgs.len()
        invariant
            j <= cgs.len(),
            cgs@.len() == old(cgs)@.len(),
            seen0 == texts_of(old(list)@),
            texts_of(list@) == seen_after_cgs(seen0, old(cgs)@.subrange(0, j as int)),
            forall|i: int|
                0 <= i < j ==> cg4_named(
                    seen_after_cgs(seen0, old(cgs)@.subrange(0, i)),
                    old(cgs)@[i],
                    #[trigger] cgs@[i],
                ),
            forall|i: int| j <= i < cgs@.len() ==> cgs@[i] == old(cgs)@[i],
        decreases cgs.len() - j,
    {
        proof {
            assert(old(cgs)@.subrange(0, j + 1).drop_last() =~= old(cgs)@.subrange(0, j as int));
        }
        name_cg4(&mut cgs[j], list);
        j += 1;
    }
    proof {
        assert(old(cgs)@.subrange(0, j as int) =~= old(cgs)@);
    }
}

/// Makes the names of the channels of a file unique, and enters for every
/// group the name of its master channel.
///
/// The channels are taken in the order of the file. A channel keeps its
/// name unless a channel before it has that name; else its name is extended
/// by a space and the offset of its block. Returns the names of all
/// channels in the order of the file.
pub fn build_channel_db(dg: &mut Vec<Dg4>) -> (r: Vec<String>)
    ensures
        dgs4_named(Seq::empty(), old(dg)@, final(dg)@),
        texts_of(r@) == seen_after_dgs(Seq::empty(), old(dg)@),
{
    let mut list: Vec<String> = Vec::new();
    let mut i: usize = 0;
    proof {
        assert(old(dg)@.subrange(0, 0) =~= Seq::<Dg4>::empty());
        assert(texts_of(list@) =~= Seq::<Seq<char>>::empty());
    }
    while i < dg.len()
        invariant
            i <= dg.len(),
            dg@.len() == old(dg)@.len(),
            texts_of(list@) == seen_after_dgs(Seq::empty(), old(dg)@.subrange(0, i as int)),
            forall|k: int|
                0 <= k < i ==> (#[trigger] dg@[k]).block == old(dg)@[k].block
                    && dg@[k].block_position == old(dg)@[k].block_position && cgs4_named(
                    seen_after_dgs(Seq::empty(), old(dg)@.subrange(0, k)),
                    old(dg)@[k].cg@,
                    dg@[k].cg@,
                ),
            forall|k: int| i <= k < dg@.len() ==> dg@[k] == old(dg)@[k],
        decreases dg.len() - i,
    {
        proof {
            assert(old(dg)@.subrange(0, i + 1).drop_last() =~= old(dg)@.subrange(0, i as int));
        }
        let one = &mut dg[i];
        name_cgs4(&mut one.cg, &mut list);
        i += 1;
    }
    proof {
        assert(old(dg)@.subrange(0, i as int) =~= old(dg)@);
    }
    list
}

/// The index of the first channel of `cns` from `from` on that holds values
/// of variable length in the block at `pos`.
pub open spec fn owner_in(cns: Seq<Cn4>, from: int, pos: i64) -> Option<int>
    decreases cns.len() - from,
{
    if from < 0 || from >= cns.len() {
        None
    } else if cns[from].block.cn_type == 1 && cns[from].block.cn_data == pos {
        Some(from)
    } else {
        owner_in(cns, from + 1, pos)
    }
}

/// The channel that owns the values of variable length of the group whose
/// block lies at `pos`: the record id of the channel's group and the
/// channel's number, for the first such channel of the groups from `from` on.
pub open spec fn owner_of(cgs: Seq<Cg4>, from: int, pos: i64) -> Option<(u64, i32)>
    decreases cgs.len() - from,
{
    if from < 0 || from >= cgs.len() {
        None
    } else {
        match owner_in(cgs[from].cn@, 0, pos) {
            Some(i) => Some((cgs[from].block.cg_record_id, cgs[from].cn@[i].rec_pos)),
            None => owner_of(cgs, from + 1, pos),
        }
    }
}

/// The owner that is entered in the group number `t`: that of its values
/// of variable length where it holds such, and none otherwise.
pub open spec fn vlsd_of(cgs: Seq<Cg4>, t: int) -> Option<(u64, i32)> {
    if cgs[t].block.cg_flags & 1 != 0 {
        owner_of(cgs, 0, cgs[t].block_position)
    } else {
        None
    }
}

/// Finds the channel of one group that holds values of variable length in
/// the block at `pos`.
fn find_owner_in(cns: &Vec<Cn4>, pos: i64) -> (r: Option<usize>)
    ensures
        r is Some <==> owner_in(cns@, 0, pos) is Some,
        r is Some ==> r->0 == owner_in(cns@, 0, pos)->0 && r->0 < cns@.len(),
{
    let mut i: usize = 0;
    while i < cns.len()
        invariant
            i <= cns.len(),
            owner_in(cns@, 0, pos) == owner_in(cns@, i as int, pos),
        decreases cns.len() - i,
    {
        if cns[i].block.cn_type == 1 && cns[i].block.cn_data == pos {
            return Some(i);
        }
        i += 1;
    }
    None
}

/// Finds the channel that owns the values of variable length of the group
/// whose block lies at `pos`.
fn find_owner(cgs: &Vec<Cg4>, pos: i64) -> (r: Option<(u64, i32)>)
    ensures
        r == owner_of(cgs@, 0, pos),
{
    let mut g: usize = 0;
    while g < cgs.len()
        invariant
            g <= cgs.len(),
            owner_of(cgs@, 0, pos) == owner_of(cgs@, g as int, pos),
        decreases cgs.len() - g,
    {
        match find_owner_in(&cgs[g].cn, pos) {
            Some(i) => {
                return Some((cgs[g].block.cg_record_id, cgs[g].cn[i].rec_pos));
            },
            None => {},
        }
        g += 1;
    }
    None
}

/// `new` are the groups `old` of one data group, each with the channel
/// entered that owns its values of variable length.
pub open spec fn vlsd_linked(old: Seq<Cg4>, new: Seq<Cg4>) -> bool {
    &&& new.len() == old.len()
    &&& forall|t: int|
        0 <= t < old.len() ==> {
            &&& (#[trigger] new[t]).block == old[t].block
            &&& new[t].block_position == old[t].block_position
            &&& new[t].cn == old[t].cn
            &&& new[t].master_channel_name == old[t].master_channel_name
            &&& new[t].record_length == old[t].record_length
            &&& new[t].vlsd == vlsd_of(old, t)
        }
}

/// Enters for every group of a data group the channel that owns its values
/// of variable length.
pub fn link_vlsd(cgs: &mut Vec<Cg4>)
    ensures
        vlsd_linked(old(cgs)@, final(cgs)@),
{
    let mut owners: Vec<Option<(u64, i32)>> = Vec::with_capacity(cgs.len());
    let mut t: usize = 0;
    while t < cgs.len()
        invariant
            t <= cgs.len(),
            cgs@ == old(cgs)@,
            owners@.len() == t,
            forall|k: int| 0 <= k < t ==> #[trigger] owners@[k] == vlsd_of(old(cgs)@, k),
        decreases cgs.len() - t,
    {
        let owner = if cgs[t].block.cg_flags & 1 != 0 {
            find_owner(cgs, cgs[t].block_position)
        } else {
            None
        };
        owners.push(owner);
        t += 1;
    }
    let mut j: usize = 0;
    while j < cgs.len()
        invariant
            j <= cgs.len(),
            cgs@.len() == old(cgs)@.len(),
            owners@.len() == cgs@.len(),
            forall|k: int| 0 <= k < owners@.len() ==> #[trigger] owners@[k] == vlsd_of(old(cgs)@, k),
            forall|k: int| j <= k < cgs@.len() ==> cgs@[k] == old(cgs)@[k],
            forall|k: int|
                0 <= k < j ==> {
                    &&& (#[trigger] cgs@[k]).block == old(cgs)@[k].block
                    &&& cgs@[k].block_position == old(cgs)@[k].block_position
                    &&& cgs@[k].cn == old(cgs)@[k].cn
                    &&& cgs@[k].master_channel_name == old(cgs)@[k].master_channel_name
                    &&& cgs@[k].record_length == old(cgs)@[k].record_length
                    &&& cgs@[k].vlsd == vlsd_of(old(cgs)@, k)
                },
        decreases cgs.len() - j,
    {
        let owner = owners[j];
        let cg = &mut cgs[j];
        cg.vlsd = owner;
        j += 1;
    }
}

/// Enters for every group of every data group the channel that owns its
/// values of variable length.
pub fn link_all_vlsd(dg: &mut Vec<Dg4>)
    ensures
        final(dg)@.len() == old(dg)@.len(),
        forall|i: int|
            0 <= i < old(dg)@.len() ==> (#[trigger] final(dg)@[i]).block == old(dg)@[i].block
                && final(dg)@[i].block_position == old(dg)@[i].block_position && vlsd_linked(
                old(dg)@[i].cg@,
                final(dg)@[i].cg@,
            ),
{
    let mut i: usize = 0;
    while i < dg.len()
        invariant
            i <= dg.len(),
            dg@.len() == old(dg)@.len(),
            forall|k: int| i <= k < dg@.len() ==> dg@[k] == old(dg)@[k],
            forall|k: int|
                0 <= k < i ==> (#[trigger] dg@[k]).block == old(dg)@[k].block
                    && dg@[k].block_position == old(dg)@[k].block_position && vlsd_linked(
                    old(dg)@[k].cg@,
                    dg@[k].cg@,
                ),
        decreases dg.len() - i,
    {
        let one = &mut dg[i];
        link_vlsd(&mut one.cg);
        i += 1;
    }
}

/// The place of a channel in the data groups of a file.
#[derive(Debug, Clone, Copy, PartialEq, Eq, Structural)]
pub struct ChannelPath {
    /// The index of the data group.
    pub dg: usize,
    /// The index of the channel group in the data group.
    pub cg: usize,
    /// The index of the channel in the channel group.
    pub cn: usize,
}

/// The index of the first channel of `cns` from `from` on with the name
/// `name`.
pub open spec fn named_in_cns(cns: Seq<Cn4>, from: int, name: Seq<char>) -> Option<int>
    decreases cns.len() - from,
{
    if from < 0 || from >= cns.len() {
        None
    } else if cns[from].unique_name@ == name {
        Some(from)
    } else {
        named_in_cns(cns, from + 1, name)
    }
}

/// The place of the first channel with the name `name` in the groups of
/// `cgs` from `from` on, in the data group number `dg`.
pub open spec fn named_in_cgs(cgs: Seq<Cg4>, from: int, dg: int, name: Seq<char>) -> Option<
    ChannelPath,
>
    decreases cgs.len() - from,
{
    if from < 0 || from >= cgs.len() {
        None
    } else {
        match named_in_cns(cgs[from].cn@, 0, name) {
            Some(k) => Some(ChannelPath { dg: dg as usize, cg: from as usize, cn: k as usize }),
            None => named_in_cgs(cgs, from + 1, dg, name),
        }
    }
}

/// The place of the first channel with the name `name` in the data groups
/// from `from` on.
pub open spec fn named_in_dgs(dgs: Seq<Dg4>, from: int, name: Seq<char>) -> Option<ChannelPath>
    decreases dgs.len() - from,
{
    if from < 0 || from >= dgs.len() {
        None
    } else {
        match named_in_cgs(dgs[from].cg@, 0, from, name) {
            Some(p) => Some(p),
            None => named_in_dgs(dgs, from + 1, name),
        }
    }
}

/// A place that is found is the place of a channel with the name.
pub proof fn lemma_named_in_cns(cns: Seq<Cn4>, from: int, name: Seq<char>)
    requires
        0 <= from,
    ensures
        named_in_cns(cns, from, name) matches Some(k) ==> from <= k < cns.len()
            && cns[k].unique_name@ == name,
    decreases cns.len() - from,
{
    if from < cns.len() && cns[from].unique_name@ != name {
        lemma_named_in_cns(cns, from + 1, name);
    }
}

/// Finds the first channel of the group with the name `name`.
fn find_in_cns(cns: &Vec<Cn4>, name: &String) -> (r: Option<usize>)
    ensures
        r is Some <==> named_in_cns(cns@, 0, name@) is Some,
        r is Some ==> r->0 == named_in_cns(cns@, 0, name@)->0 && r->0 < cns@.len(),
{
    let mut k: usize = 0;
    while k < cns.len()
        invariant
            k <= cns.len(),
            named_in_cns(cns@, 0, name@) == named_in_cns(cns@, k as int, name@),
        decreases cns.len() - k,
    {
        if cns[k].unique_name == *name {
            return Some(k);
        }
        k += 1;
    }
    None
}

/// Finds the first channel with the name `name` in the groups of one data
/// group.
fn find_in_cgs(cgs: &Vec<Cg4>, dg: usize, name: &String) -> (r: Option<ChannelPath>)
    ensures
        r == named_in_cgs(cgs@, 0, dg as int, name@),
        r is Some ==> r->0.dg == dg && r->0.cg < cgs@.len() && r->0.cn < cgs@[r->0.cg as int].cn@.len(),
{
    let mut j: usize = 0;
    while j < cgs.len()
        invariant
            j <= cgs.len(),
            named_in_cgs(cgs@, 0, dg as int, name@) == named_in_cgs(
                cgs@,
                j as int,
                dg as int,
                name@,
            ),
        decreases cgs.len() - j,
    {
        match find_in_cns(&cgs[j].cn, name) {
            Some(k) => {
                return Some(ChannelPath { dg, cg: j, cn: k });
            },
            None => {},
        }
        j += 1;
    }
    None
}

/// Finds the first channel with the name `name` in the data groups.
pub fn find_channel_path(dgs: &Vec<Dg4>, name: &String) -> (r: Option<ChannelPath>)
    ensures
        r == named_in_dgs(dgs@, 0, name@),
        r is Some ==> r->0.dg < dgs@.len() && r->0.cg < dgs@[r->0.dg as int].cg@.len() && r->0.cn
            < dgs@[r->0.dg as int].cg@[r->0.cg as int].cn@.len(),
{
    let mut i: usize = 0;
    while i < dgs.len()
        invariant
            i <= dgs.len(),
            named_in_dgs(dgs@, 0, name@) == named_in_dgs(dgs@, i as int, name@),
        decreases dgs.len() - i,
    {
        match find_in_cgs(&dgs[i].cg, i, name) {
            Some(p) => {
                return Some(p);
            },
            None => {},
        }
        i += 1;
    }
    None
}

/// The index of the first master channel of `cns` from `from` on.
pub open spec fn master_index(cns: Seq<Cn4>, from: int) -> Option<int>
    decreases cns.len() - from,
{
    if from < 0 || from >= cns.len() {
        None
    } else if master_type(cns[from].block.cn_type) {
        Some(from)
    } else {
        master_index(cns, from + 1)
    }
}

/// What the master of a group measures: the synchronisation type of its
/// first master channel (1 time, 2 angle, 3 distance, 4 index), and 0 for a
/// group without a master.
pub open spec fn master_type_of(cns: Seq<Cn4>) -> u8 {
    match master_index(cns, 0) {
        Some(k) => cns[k].block.cn_sync_type,
        None => 0,
    }
}

/// Tells what the master of a group measures.
pub fn group_master_type(cns: &Vec<Cn4>) -> (r: u8)
    ensures
        r == master_type_of(cns@),
{
    let mut k: usize = 0;
    while k < cns.len()
        invariant
            k <= cns.len(),
            master_index(cns@, 0) == master_index(cns@, k as int),
        decreases cns.len() - k,
    {
        let t = cns[k].block.cn_type;
        if t == 2 || t == 3 {
            return cns[k].block.cn_sync_type;
        }
        k += 1;
    }
    0
}

} // verus!
