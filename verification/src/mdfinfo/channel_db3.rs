//! The names of the channels of a 3.x file: every channel gets a name that
//! is its own in the whole file, and the name of the master channel of its
//! group.

use crate::mdfinfo::mdfinfo3::CeSupplement;
use crate::mdfinfo::mdfinfo3::Cg3;
use crate::mdfinfo::mdfinfo3::Cn3;
use crate::mdfinfo::mdfinfo3::Dg3;
use crate::mdfinfo::mdfinfo3::SharableBlocks3;
use crate::text::decode_latin1;
use crate::text::latin1_text;
use vstd::prelude::*;
use vstd::string::StringExecFns;

verus! {

/// Where a channel is found: the name of its master channel, and the offsets
/// of its data group, channel group and channel block, with the record id of
/// its group.
#[derive(Debug, Clone)]
pub struct ChannelId3 {
    pub master: String,
    pub dg_pos: u32,
    pub cg_pos: u32,
    pub rec_id: u16,
    pub cn_pos: u32,
}

/// A `ChannelId3` as plain values.
pub struct ChannelIdView {
    pub master: Seq<char>,
    pub dg_pos: u32,
    pub cg_pos: u32,
    pub rec_id: u16,
    pub cn_pos: u32,
}

impl View for ChannelId3 {
    type V = ChannelIdView;

    open spec fn view(&self) -> ChannelIdView {
        ChannelIdView {
            master: self.master@,
            dg_pos: self.dg_pos,
            cg_pos: self.cg_pos,
            rec_id: self.rec_id,
            cn_pos: self.cn_pos,
        }
    }
}

/// A channel's name with the place where the channel is found.
#[derive(Debug, Clone)]
pub struct ChannelEntry3 {
    pub name: String,
    pub id: ChannelId3,
}

/// The map from names to places that a list of entries stands for: a later
/// entry replaces an earlier one of the same name.
pub open spec fn names_map(entries: Seq<ChannelEntry3>) -> Map<Seq<char>, ChannelIdView>
    decreases entries.len(),
{
    if entries.len() == 0 {
        Map::empty()
    } else {
        names_map(entries.drop_last()).insert(entries.last().name@, entries.last().id@)
    }
}

/// No two entries have the same name.
pub open spec fn distinct_names(entries: Seq<ChannelEntry3>) -> bool {
    forall|i: int, j: int|
        0 <= i < j < entries.len() ==> (#[trigger] entries[i]).name@ != (#[trigger] entries[j]).name@
}

/// The names of the map are the names of the entries.
pub proof fn lemma_names_map_keys(entries: Seq<ChannelEntry3>, name: Seq<char>)
    ensures
        names_map(entries).contains_key(name) <==> exists|i: int|
            0 <= i < entries.len() && (#[trigger] entries[i]).name@ == name,
    decreases entries.len(),
{
    if entries.len() > 0 {
        let rest = entries.drop_last();
        lemma_names_map_keys(rest, name);
        if names_map(entries).contains_key(name) {
            if entries.last().name@ == name {
                assert(entries[entries.len() - 1].name@ == name);
            } else {
                let i = choose|i: int| 0 <= i < rest.len() && (#[trigger] rest[i]).name@ == name;
                assert(entries[i].name@ == name);
            }
        }
        if exists|i: int| 0 <= i < entries.len() && (#[trigger] entries[i]).name@ == name {
            let i = choose|i: int| 0 <= i < entries.len() && (#[trigger] entries[i]).name@ == name;
            if i < rest.len() {
                assert(rest[i].name@ == name);
            }
        }
    }
}

/// Where no two entries have the same name, the map gives each entry's
/// place under its name.
pub proof fn lemma_names_map_values(entries: Seq<ChannelEntry3>, i: int)
    requires
        distinct_names(entries),
        0 <= i < entries.len(),
    ensures
        names_map(entries).contains_key(entries[i].name@),
        names_map(entries)[entries[i].name@] == entries[i].id@,
    decreases entries.len(),
{
    let rest = entries.drop_last();
    if i < entries.len() - 1 {
        assert(distinct_names(rest)) by {
            assert forall|a: int, b: int| 0 <= a < b < rest.len() implies (#[trigger] rest[a]).name@
                != (#[trigger] rest[b]).name@ by {
                assert(entries[a].name@ != entries[b].name@);
            }
        }
        lemma_names_map_values(rest, i);
        assert(entries[i].name@ != entries[entries.len() - 1].name@);
    }
}

/// Replacing the place of an entry replaces the place under its name.
pub proof fn lemma_names_map_update(entries: Seq<ChannelEntry3>, j: int, e: ChannelEntry3)
    requires
        distinct_names(entries),
        0 <= j < entries.len(),
        e.name@ == entries[j].name@,
    ensures
        distinct_names(entries.update(j, e)),
        names_map(entries.update(j, e)) == names_map(entries).insert(e.name@, e.id@),
{
    let after = entries.update(j, e);
    assert(distinct_names(after)) by {
        assert forall|a: int, b: int| 0 <= a < b < after.len() implies (#[trigger] after[a]).name@
            != (#[trigger] after[b]).name@ by {
            assert(entries[a].name@ != entries[b].name@);
        }
    }
    let left = names_map(after);
    let right = names_map(entries).insert(e.name@, e.id@);
    assert forall|k: Seq<char>| left.contains_key(k) <==> right.contains_key(k) by {
        lemma_names_map_keys(after, k);
        lemma_names_map_keys(entries, k);
        if left.contains_key(k) {
            let i = choose|i: int| 0 <= i < after.len() && (#[trigger] after[i]).name@ == k;
            assert(entries[i].name@ == k);
        }
        if right.contains_key(k) && k != e.name@ {
            let i = choose|i: int| 0 <= i < entries.len() && (#[trigger] entries[i]).name@ == k;
            assert(after[i].name@ == k);
        }
        if k == e.name@ {
            assert(after[j].name@ == k);
        }
    }
    assert forall|k: Seq<char>| left.contains_key(k) implies left[k] == right[k] by {
        lemma_names_map_keys(after, k);
        let i = choose|i: int| 0 <= i < after.len() && (#[trigger] after[i]).name@ == k;
        lemma_names_map_values(after, i);
        if i != j {
            lemma_names_map_values(entries, i);
            assert(entries[i].name@ != entries[j].name@);
        }
    }
    assert(left =~= right);
}

/// The names of all channels of a file, each with the place where its
/// channel is found. No name occurs twice.
#[derive(Debug, Clone)]
pub struct ChannelNamesSet3 {
    pub entries: Vec<ChannelEntry3>,
}

impl ChannelNamesSet3 {
    /// No name occurs twice.
    pub open spec fn wf(&self) -> bool {
        distinct_names(self.entries@)
    }

    /// The map from names to places.
    pub open spec fn map(&self) -> Map<Seq<char>, ChannelIdView> {
        names_map(self.entries@)
    }

    /// A set without names.
    pub fn new() -> (r: ChannelNamesSet3)
        ensures
            r.wf(),
            r.map() == Map::<Seq<char>, ChannelIdView>::empty(),
    {
        ChannelNamesSet3 { entries: Vec::new() }
    }

    /// Tells whether no name occurs twice.
    pub fn is_well_formed(&self) -> (r: bool)
        ensures
            r == self.wf(),
    {
        let n = self.entries.len();
        let mut i: usize = 0;
        while i < n
            invariant
                i <= n,
                n == self.entries@.len(),
                forall|a: int, b: int|
                    0 <= a < b < n && a < i ==> (#[trigger] self.entries@[a]).name@ != (
                    #[trigger] self.entries@[b]).name@,
            decreases n - i,
        {
            let mut j: usize = i + 1;
            while j < n
                invariant
                    i < j <= n,
                    n == self.entries@.len(),
                    forall|b: int|
                        i < b < j ==> self.entries@[i as int].name@ != (
                        #[trigger] self.entries@[b]).name@,
                decreases n - j,
            {
                if self.entries[i].name == self.entries[j].name {
                    return false;
                }
                j += 1;
            }
            i += 1;
        }
        true
    }

    /// The number of names.
    pub fn len(&self) -> (r: usize)
        ensures
            r == self.entries@.len(),
    {
        self.entries.len()
    }

    /// Finds the entry of `name`.
    pub fn find(&self, name: &String) -> (r: Option<usize>)
        ensures
            match r {
                Some(i) => i < self.entries@.len() && self.entries@[i as int].name@ == name@,
                None => forall|i: int|
                    0 <= i < self.entries@.len() ==> (#[trigger] self.entries@[i]).name@ != name@,
            },
            r is Some <==> self.map().contains_key(name@),
    {
        let mut i: usize = 0;
        while i < self.entries.len()
            invariant
                i <= self.entries@.len(),
                forall|k: int| 0 <= k < i ==> (#[trigger] self.entries@[k]).name@ != name@,
            decreases self.entries@.len() - i,
        {
            if self.entries[i].name == *name {
                proof {
                    lemma_names_map_keys(self.entries@, name@);
                }
                return Some(i);
            }
            i += 1;
        }
        proof {
            lemma_names_map_keys(self.entries@, name@);
        }
        None
    }

    /// Tells whether `name` is among the names.
    pub fn contains(&self, name: &String) -> (r: bool)
        ensures
            r == self.map().contains_key(name@),
    {
        self.find(name).is_some()
    }

    /// The place of the channel of the given name.
    pub fn get(&self, name: &String) -> (r: Option<&ChannelId3>)
        requires
            self.wf(),
        ensures
            r is Some <==> self.map().contains_key(name@),
            r is Some ==> r->0@ == self.map()[name@],
    {
        match self.find(name) {
            Some(i) => {
                proof {
                    lemma_names_map_values(self.entries@, i as int);
                }
                Some(&self.entries[i].id)
            },
            None => None,
        }
    }

    /// Files the place `id` under `name`, in place of what was filed there.
    pub fn insert(&mut self, name: String, id: ChannelId3)
        requires
            old(self).wf(),
        ensures
            final(self).wf(),
            final(self).map() == old(self).map().insert(name@, id@),
    {
        match self.find(&name) {
            Some(i) => {
                let entry = ChannelEntry3 { name, id };
                proof {
                    lemma_names_map_update(self.entries@, i as int, entry);
                }
                self.entries[i] = entry;
            },
            None => {
                let ghost before = self.entries@;
                self.entries.push(ChannelEntry3 { name, id });
                proof {
                    assert(self.entries@.drop_last() =~= before);
                }
            },
        }
    }

    /// Sets the master of the channel of the given name, if there is one.
    pub fn set_master(&mut self, name: &String, master: String)
        requires
            old(self).wf(),
        ensures
            final(self).wf(),
            final(self).map() == with_master(old(self).map(), name@, master@),
    {
        match self.find(name) {
            Some(i) => {
                proof {
                    lemma_names_map_values(self.entries@, i as int);
                }
                let old_id = &self.entries[i].id;
                let entry = ChannelEntry3 {
                    name: name.clone(),
                    id: ChannelId3 {
                        master,
                        dg_pos: old_id.dg_pos,
                        cg_pos: old_id.cg_pos,
                        rec_id: old_id.rec_id,
                        cn_pos: old_id.cn_pos,
                    },
                };
                proof {
                    lemma_names_map_update(self.entries@, i as int, entry);
                }
                self.entries[i] = entry;
            },
            None => {},
        }
    }
}

/// The map `m` in which the channel `name`, if it is there, has the master
/// `master`.
pub open spec fn with_master(
    m: Map<Seq<char>, ChannelIdView>,
    name: Seq<char>,
    master: Seq<char>,
) -> Map<Seq<char>, ChannelIdView> {
    if m.contains_key(name) {
        m.insert(name, ChannelIdView { master, ..m[name] })
    } else {
        m
    }
}

/// The decimal digits of `n` as ASCII bytes.
pub open spec fn decimal_digits(n: nat) -> Seq<u8>
    decreases n,
{
    if n < 10 {
        seq![(0x30 + n) as u8]
    } else {
        decimal_digits(n / 10).push((0x30 + n % 10) as u8)
    }
}

/// The decimal text of `n`.
pub open spec fn decimal_text(n: nat) -> Seq<char> {
    latin1_text(decimal_digits(n))
}

/// Writes `n` in decimal.
pub fn decimal_string(n: u64) -> (r: String)
    ensures
        r@ == decimal_text(n as nat),
{
    let mut digits: Vec<u8> = Vec::new();
    let mut rest: u64 = n;
    proof {
        assert(decimal_digits(n as nat) + digits@ =~= decimal_digits(n as nat));
    }
    while rest >= 10
        invariant
            decimal_digits(n as nat) == decimal_digits(rest as nat) + digits@,
        decreases rest,
    {
        let d = (0x30 + rest % 10) as u8;
        let ghost before = digits@;
        digits.insert(0, d);
        proof {
            assert(decimal_digits((rest / 10) as nat) + digits@ =~= decimal_digits(
                (rest / 10) as nat,
            ).push(d) + before);
        }
        rest = rest / 10;
    }
    let ghost before = digits@;
    digits.insert(0, (0x30 + rest) as u8);
    proof {
        assert(digits@ =~= decimal_digits(rest as nat) + before);
    }
    decode_latin1(digits.as_slice())
}

/// What is added to the name of a channel whose name is taken: the ECU or
/// CAN message name from the channel's extension block, or else the offset of
/// the channel's block, which no other channel has.
pub open spec fn source_suffix(cn: Cn3, sharable: SharableBlocks3) -> Seq<char> {
    let link = cn.block1.cn_ce_source;
    if sharable.ce@.contains_key(link) {
        match sharable.ce@[link].ce_extension {
            CeSupplement::DIM(dim) => dim.ce_ecu_id@,
            CeSupplement::CAN(can) => can.ce_message_name@,
            CeSupplement::Absent => decimal_text(cn.block_position as nat),
        }
    } else {
        decimal_text(cn.block_position as nat)
    }
}

/// The name that a channel gets: its own where no channel before it has
/// that name, and else its own, a space and `suffix`.
pub open spec fn unique_name_of(
    seen: Map<Seq<char>, ChannelIdView>,
    name: Seq<char>,
    suffix: Seq<char>,
) -> Seq<char> {
    if seen.contains_key(name) {
        name + seq![' '] + suffix
    } else {
        name
    }
}

/// The names after the channel `cn` was named and filed.
pub open spec fn named_cn(
    m: Map<Seq<char>, ChannelIdView>,
    cn: Cn3,
    sharable: SharableBlocks3,
    dg_pos: u32,
    cg_pos: u32,
    rec_id: u16,
) -> Map<Seq<char>, ChannelIdView> {
    m.insert(
        unique_name_of(m, cn.unique_name@, source_suffix(cn, sharable)),
        ChannelIdView {
            master: Seq::empty(),
            dg_pos,
            cg_pos,
            rec_id,
            cn_pos: cn.block_position,
        },
    )
}

/// The names after the channels `cns` of one group were named in turn.
pub open spec fn named_cns(
    m: Map<Seq<char>, ChannelIdView>,
    cns: Seq<Cn3>,
    sharable: SharableBlocks3,
    dg_pos: u32,
    cg_pos: u32,
    rec_id: u16,
) -> Map<Seq<char>, ChannelIdView>
    decreases cns.len(),
{
    if cns.len() == 0 {
        m
    } else {
        named_cn(
            named_cns(m, cns.drop_last(), sharable, dg_pos, cg_pos, rec_id),
            cns.last(),
            sharable,
            dg_pos,
            cg_pos,
            rec_id,
        )
    }
}

/// The names after the channels of the groups `cgs` were named in turn.
pub open spec fn named_cgs(
    m: Map<Seq<char>, ChannelIdView>,
    cgs: Seq<Cg3>,
    sharable: SharableBlocks3,
    dg_pos: u32,
) -> Map<Seq<char>, ChannelIdView>
    decreases cgs.len(),
{
    if cgs.len() == 0 {
        m
    } else {
        named_cns(
            named_cgs(m, cgs.drop_last(), sharable, dg_pos),
            cgs.last().cn@,
            sharable,
            dg_pos,
            cgs.last().block_position,
            cgs.last().block.cg_record_id,
        )
    }
}

/// The names after the channels of the data groups `dgs` were named in turn.
pub open spec fn named_dgs(
    m: Map<Seq<char>, ChannelIdView>,
    dgs: Seq<Dg3>,
    sharable: SharableBlocks3,
) -> Map<Seq<char>, ChannelIdView>
    decreases dgs.len(),
{
    if dgs.len() == 0 {
        m
    } else {
        named_cgs(
            named_dgs(m, dgs.drop_last(), sharable),
            dgs.last().cg@,
            sharable,
            dgs.last().block_position,
        )
    }
}

/// `new` is the channel `old` under the name `name`.
pub open spec fn cn_renamed(old: Cn3, new: Cn3, name: Seq<char>) -> bool {
    &&& new.unique_name@ == name
    &&& new.block1 == old.block1
    &&& new.block2 == old.block2
    &&& new.block_position == old.block_position
    &&& new.comment == old.comment
    &&& new.description == old.description
    &&& new.pos_byte_beg == old.pos_byte_beg
    &&& new.n_bytes == old.n_bytes
    &&& new.data == old.data
    &&& new.endian == old.endian
    &&& new.channel_data_valid == old.channel_data_valid
}

/// `new` are the channels `old` of one group, each under the name that it
/// gets after those before it, `m` being the names before the group.
pub open spec fn cns_renamed(
    m: Map<Seq<char>, ChannelIdView>,
    old: Seq<Cn3>,
    new: Seq<Cn3>,
    sharable: SharableBlocks3,
    dg_pos: u32,
    cg_pos: u32,
    rec_id: u16,
) -> bool {
    &&& new.len() == old.len()
    &&& forall|k: int|
        0 <= k < old.len() ==> cn_renamed(
            old[k],
            #[trigger] new[k],
            unique_name_of(
                named_cns(m, old.subrange(0, k), sharable, dg_pos, cg_pos, rec_id),
                old[k].unique_name@,
                source_suffix(old[k], sharable),
            ),
        )
}

/// The text with which the name of a master that is made up starts.
pub open spec fn master_prefix() -> Seq<char> {
    seq!['m', 'a', 's', 't', 'e', 'r', '_']
}

/// The name of the master channel of a group: that of its last channel that
/// is no data channel, and for a group without one a name made of the offset
/// of the group's block.
pub open spec fn master_of(cns: Seq<Cn3>, cg_pos: u32) -> Seq<char>
    decreases cns.len(),
{
    if cns.len() == 0 {
        master_prefix() + decimal_text(cg_pos as nat)
    } else if cns.last().block1.cn_type != 0 {
        cns.last().unique_name@
    } else {
        master_of(cns.drop_last(), cg_pos)
    }
}

/// The names of the channels, in their order.
pub open spec fn names_of(cns: Seq<Cn3>) -> Seq<Seq<char>> {
    Seq::new(cns.len(), |k: int| cns[k].unique_name@)
}

/// The texts of a list of strings.
pub open spec fn strings_view(s: Seq<String>) -> Seq<Seq<char>> {
    Seq::new(s.len(), |k: int| s[k]@)
}

/// `new` is the group `old` with its channels named, `m` being the names
/// before the group, and with the names of its master and of its channels
/// entered.
pub open spec fn cg_named(
    m: Map<Seq<char>, ChannelIdView>,
    old: Cg3,
    new: Cg3,
    sharable: SharableBlocks3,
    dg_pos: u32,
) -> bool {
    &&& new.block == old.block
    &&& new.block_position == old.block_position
    &&& new.record_length == old.record_length
    &&& cns_renamed(
        m,
        old.cn@,
        new.cn@,
        sharable,
        dg_pos,
        old.block_position,
        old.block.cg_record_id,
    )
    &&& new.master_channel_name@ == master_of(new.cn@, old.block_position)
    &&& strings_view(new.channel_names@) == names_of(new.cn@)
}

/// `new` are the groups `old` with their channels named in turn.
pub open spec fn cgs_named(
    m: Map<Seq<char>, ChannelIdView>,
    old: Seq<Cg3>,
    new: Seq<Cg3>,
    sharable: SharableBlocks3,
    dg_pos: u32,
) -> bool {
    &&& new.len() == old.len()
    &&& forall|j: int|
        0 <= j < old.len() ==> cg_named(
            named_cgs(m, old.subrange(0, j), sharable, dg_pos),
            old[j],
            #[trigger] new[j],
            sharable,
            dg_pos,
        )
}

/// `new` are the data groups `old` with their channels named in turn.
pub open spec fn dgs_named(
    m: Map<Seq<char>, ChannelIdView>,
    old: Seq<Dg3>,
    new: Seq<Dg3>,
    sharable: SharableBlocks3,
) -> bool {
    &&& new.len() == old.len()
    &&& forall|i: int|
        0 <= i < old.len() ==> (#[trigger] new[i]).block == old[i].block && new[i].block_position
            == old[i].block_position && cgs_named(
            named_dgs(m, old.subrange(0, i), sharable),
            old[i].cg@,
            new[i].cg@,
            sharable,
            old[i].block_position,
        )
}

/// Computes what is added to the name of a channel whose name is taken.
fn suffix_for(cn: &Cn3, sharable: &SharableBlocks3) -> (r: String)
    ensures
        r@ == source_suffix(*cn, *sharable),
{
    broadcast use vstd::std_specs::hash::group_hash_axioms;

    match sharable.ce.get(&cn.block1.cn_ce_source) {
        Some(ce) => match &ce.ce_extension {
            CeSupplement::DIM(dim) => dim.ce_ecu_id.clone(),
            CeSupplement::CAN(can) => can.ce_message_name.clone(),
            CeSupplement::Absent => decimal_string(cn.block_position as u64),
        },
        None => decimal_string(cn.block_position as u64),
    }
}

/// Names the channels of one group in turn and files them.
fn name_cns(
    cns: &mut Vec<Cn3>,
    list: &mut ChannelNamesSet3,
    sharable: &SharableBlocks3,
    dg_pos: u32,
    cg_pos: u32,
    rec_id: u16,
)
    requires
        old(list).wf(),
    ensures
        final(list).wf(),
        final(list).map() == named_cns(
            old(list).map(),
            old(cns)@,
            *sharable,
            dg_pos,
            cg_pos,
            rec_id,
        ),
        cns_renamed(old(list).map(), old(cns)@, final(cns)@, *sharable, dg_pos, cg_pos, rec_id),
{
    let ghost m0 = list.map();
    let mut k: usize = 0;
    proof {
        assert(old(cns)@.subrange(0, 0) =~= Seq::<Cn3>::empty());
    }
    while k < cns.len()
        invariant
            k <= cns.len(),
            cns@.len() == old(cns)@.len(),
            list.wf(),
            m0 == old(list).map(),
            list.map() == named_cns(
                m0,
                old(cns)@.subrange(0, k as int),
                *sharable,
                dg_pos,
                cg_pos,
                rec_id,
            ),
            forall|i: int|
                0 <= i < k ==> cn_renamed(
                    old(cns)@[i],
                    #[trigger] cns@[i],
                    unique_name_of(
                        named_cns(
                            m0,
                            old(cns)@.subrange(0, i),
                            *sharable,
                            dg_pos,
                            cg_pos,
                            rec_id,
                        ),
                        old(cns)@[i].unique_name@,
                        source_suffix(old(cns)@[i], *sharable),
                    ),
                ),
            forall|i: int| k <= i < cns@.len() ==> cns@[i] == old(cns)@[i],
        decreases cns.len() - k,
    {
        proof {
            assert(old(cns)@.subrange(0, k + 1).drop_last() =~= old(cns)@.subrange(0, k as int));
        }
        let cn = &mut cns[k];
        if list.contains(&cn.unique_name) {
            let suffix = suffix_for(cn, sharable);
            proof {
                reveal_strlit(" ");
                assert(" "@ =~= seq![' ']);
            }
            cn.unique_name.append(" ");
            cn.unique_name.append(suffix.as_str());
        }
        list.insert(
            cn.unique_name.clone(),
            ChannelId3 { master: String::new(), dg_pos, cg_pos, rec_id, cn_pos: cn.block_position },
        );
        k += 1;
    }
    proof {
        assert(old(cns)@.subrange(0, k as int) =~= old(cns)@);
    }
}

/// Finds the name of the master channel of a group.
fn master_name(cns: &Vec<Cn3>, cg_pos: u32) -> (r: String)
    ensures
        r@ == master_of(cns@, cg_pos),
{
    let mut k: usize = cns.len();
    proof {
        assert(cns@.subrange(0, k as int) =~= cns@);
    }
    while k > 0
        invariant
            k <= cns.len(),
            master_of(cns@, cg_pos) == master_of(cns@.subrange(0, k as int), cg_pos),
        decreases k,
    {
        proof {
            assert(cns@.subrange(0, k as int).drop_last() =~= cns@.subrange(0, k - 1));
        }
        if cns[k - 1].block1.cn_type != 0 {
            return cns[k - 1].unique_name.clone();
        }
        k -= 1;
    }
    let mut name = String::from_str("master_");
    proof {
        reveal_strlit("master_");
        assert("master_"@ =~= master_prefix());
    }
    name.append(decimal_string(cg_pos as u64).as_str());
    name
}

/// Lists the names of the channels of a group.
fn channel_names(cns: &Vec<Cn3>) -> (r: Vec<String>)
    ensures
        strings_view(r@) == names_of(cns@),
{
    let mut names: Vec<String> = Vec::with_capacity(cns.len());
    let mut k: usize = 0;
    while k < cns.len()
        invariant
            k <= cns.len(),
            names@.len() == k,
            forall|i: int| 0 <= i < k ==> (#[trigger] names@[i])@ == cns@[i].unique_name@,
        decreases cns.len() - k,
    {
        names.push(cns[k].unique_name.clone());
        k += 1;
    }
    proof {
        assert(strings_view(names@) =~= names_of(cns@));
    }
    names
}

/// Names the channels of one group, files them, and enters the names of the
/// group's master and channels in the group.
fn name_cg(cg: &mut Cg3, list: &mut ChannelNamesSet3, sharable: &SharableBlocks3, dg_pos: u32)
    requires
        old(list).wf(),
    ensures
        final(list).wf(),
        final(list).map() == named_cns(
            old(list).map(),
            old(cg).cn@,
            *sharable,
            dg_pos,
            old(cg).block_position,
            old(cg).block.cg_record_id,
        ),
        cg_named(old(list).map(), *old(cg), *final(cg), *sharable, dg_pos),
{
    name_cns(&mut cg.cn, list, sharable, dg_pos, cg.block_position, cg.block.cg_record_id);
    cg.master_channel_name = master_name(&cg.cn, cg.block_position);
    cg.channel_names = channel_names(&cg.cn);
}

/// Names the channels of the groups of one data group in turn.
fn name_cgs(
    cgs: &mut Vec<Cg3>,
    list: &mut ChannelNamesSet3,
    sharable: &SharableBlocks3,
    dg_pos: u32,
)
    requires
        old(list).wf(),
    ensures
        final(list).wf(),
        final(list).map() == named_cgs(old(list).map(), old(cgs)@, *sharable, dg_pos),
        cgs_named(old(list).map(), old(cgs)@, final(cgs)@, *sharable, dg_pos),
{
    let ghost m0 = list.map();
    let mut j: usize = 0;
    proof {
        assert(old(cgs)@.subrange(0, 0) =~= Seq::<Cg3>::empty());
    }
    while j < cgs.len()
        invariant
            j <= cgs.len(),
            cgs@.len() == old(cgs)@.len(),
            list.wf(),
            m0 == old(list).map(),
            list.map() == named_cgs(m0, old(cgs)@.subrange(0, j as int), *sharable, dg_pos),
            forall|i: int|
                0 <= i < j ==> cg_named(
                    named_cgs(m0, old(cgs)@.subrange(0, i), *sharable, dg_pos),
                    old(cgs)@[i],
                    #[trigger] cgs@[i],
                    *sharable,
                    dg_pos,
                ),
            forall|i: int| j <= i < cgs@.len() ==> cgs@[i] == old(cgs)@[i],
        decreases cgs.len() - j,
    {
        proof {
            assert(old(cgs)@.subrange(0, j + 1).drop_last() =~= old(cgs)@.subrange(0, j as int));
        }
        name_cg(&mut cgs[j], list, sharable, dg_pos);
        j += 1;
    }
    proof {
        assert(old(cgs)@.subrange(0, j as int) =~= old(cgs)@);
    }
}

/// Names the channels of the data groups in turn.
fn name_dgs(dgs: &mut Vec<Dg3>, list: &mut ChannelNamesSet3, sharable: &SharableBlocks3)
    requires
        old(list).wf(),
    ensures
        final(list).wf(),
        final(list).map() == named_dgs(old(list).map(), old(dgs)@, *sharable),
        dgs_named(old(list).map(), old(dgs)@, final(dgs)@, *sharable),
{
    let ghost m0 = list.map();
    let mut i: usize = 0;
    proof {
        assert(old(dgs)@.subrange(0, 0) =~= Seq::<Dg3>::empty());
    }
    while i < dgs.len()
        invariant
            i <= dgs.len(),
            dgs@.len() == old(dgs)@.len(),
            list.wf(),
            m0 == old(list).map(),
            list.map() == named_dgs(m0, old(dgs)@.subrange(0, i as int), *sharable),
            forall|k: int|
                0 <= k < i ==> (#[trigger] dgs@[k]).block == old(dgs)@[k].block
                    && dgs@[k].block_position == old(dgs)@[k].block_position && cgs_named(
                    named_dgs(m0, old(dgs)@.subrange(0, k), *sharable),
                    old(dgs)@[k].cg@,
                    dgs@[k].cg@,
                    *sharable,
                    old(dgs)@[k].block_position,
                ),
            forall|k: int| i <= k < dgs@.len() ==> dgs@[k] == old(dgs)@[k],
        decreases dgs.len() - i,
    {
        proof {
            assert(old(dgs)@.subrange(0, i + 1).drop_last() =~= old(dgs)@.subrange(0, i as int));
        }
        let dg = &mut dgs[i];
        let dg_pos = dg.block_position;
        name_cgs(&mut dg.cg, list, sharable, dg_pos);
        i += 1;
    }
    proof {
        assert(old(dgs)@.subrange(0, i as int) =~= old(dgs)@);
    }
}

/// The names after the master `master` was entered for the channels `cns`
/// in turn, each under its name.
pub open spec fn mastered_cns(
    m: Map<Seq<char>, ChannelIdView>,
    cns: Seq<Cn3>,
    master: Seq<char>,
) -> Map<Seq<char>, ChannelIdView>
    decreases cns.len(),
{
    if cns.len() == 0 {
        m
    } else {
        with_master(mastered_cns(m, cns.drop_last(), master), cns.last().unique_name@, master)
    }
}

/// The names after the masters of the groups `cgs` were entered in turn.
pub open spec fn mastered_cgs(m: Map<Seq<char>, ChannelIdView>, cgs: Seq<Cg3>) -> Map<
    Seq<char>,
    ChannelIdView,
>
    decreases cgs.len(),
{
    if cgs.len() == 0 {
        m
    } else {
        mastered_cns(
            mastered_cgs(m, cgs.drop_last()),
            cgs.last().cn@,
            cgs.last().master_channel_name@,
        )
    }
}

/// The names after the masters of the groups of `dgs` were entered in turn.
pub open spec fn mastered_dgs(m: Map<Seq<char>, ChannelIdView>, dgs: Seq<Dg3>) -> Map<
    Seq<char>,
    ChannelIdView,
>
    decreases dgs.len(),
{
    if dgs.len() == 0 {
        m
    } else {
        mastered_cgs(mastered_dgs(m, dgs.drop_last()), dgs.last().cg@)
    }
}

/// Enters the master of a group for its channels.
fn master_cns(cns: &Vec<Cn3>, list: &mut ChannelNamesSet3, master: &String)
    requires
        old(list).wf(),
    ensures
        final(list).wf(),
        final(list).map() == mastered_cns(old(list).map(), cns@, master@),
{
    let mut k: usize = 0;
    proof {
        assert(cns@.subrange(0, 0) =~= Seq::<Cn3>::empty());
    }
    while k < cns.len()
        invariant
            k <= cns.len(),
            list.wf(),
            list.map() == mastered_cns(old(list).map(), cns@.subrange(0, k as int), master@),
        decreases cns.len() - k,
    {
        proof {
            assert(cns@.subrange(0, k + 1).drop_last() =~= cns@.subrange(0, k as int));
        }
        list.set_master(&cns[k].unique_name, master.clone());
        k += 1;
    }
    proof {
        assert(cns@.subrange(0, k as int) =~= cns@);
    }
}

/// Enters the masters of the groups of one data group.
fn master_cgs(cgs: &Vec<Cg3>, list: &mut ChannelNamesSet3)
    requires
        old(list).wf(),
    ensures
        final(list).wf(),
        final(list).map() == mastered_cgs(old(list).map(), cgs@),
{
    let mut j: usize = 0;
    proof {
        assert(cgs@.subrange(0, 0) =~= Seq::<Cg3>::empty());
    }
    while j < cgs.len()
        invariant
            j <= cgs.len(),
            list.wf(),
            list.map() == mastered_cgs(old(list).map(), cgs@.subrange(0, j as int)),
        decreases cgs.len() - j,
    {
        proof {
            assert(cgs@.subrange(0, j + 1).drop_last() =~= cgs@.subrange(0, j as int));
        }
        master_cns(&cgs[j].cn, list, &cgs[j].master_channel_name);
        j += 1;
    }
    proof {
        assert(cgs@.subrange(0, j as int) =~= cgs@);
    }
}

/// Enters the masters of all groups.
fn master_dgs(dgs: &Vec<Dg3>, list: &mut ChannelNamesSet3)
    requires
        old(list).wf(),
    ensures
        final(list).wf(),
        final(list).map() == mastered_dgs(old(list).map(), dgs@),
{
    let mut i: usize = 0;
    proof {
        assert(dgs@.subrange(0, 0) =~= Seq::<Dg3>::empty());
    }
    while i < dgs.len()
        invariant
            i <= dgs.len(),
            list.wf(),
            list.map() == mastered_dgs(old(list).map(), dgs@.subrange(0, i as int)),
        decreases dgs.len() - i,
    {
        proof {
            assert(dgs@.subrange(0, i + 1).drop_last() =~= dgs@.subrange(0, i as int));
        }
        master_cgs(&dgs[i].cg, list);
        i += 1;
    }
    proof {
        assert(dgs@.subrange(0, i as int) =~= dgs@);
    }
}

/// Makes the names of the channels of a file unique, and assigns to every
/// channel the master channel of its group.
///
/// The channels are taken in the order of the file. A channel keeps its
/// name unless a channel before it has that name; else its name is extended
/// by a space and the ECU or CAN message name of its extension block, or,
/// where it has none, by the offset of its block. The master of a group is
/// its channel that is no data channel; a group without one gets a master
/// named after the offset of its block. Returns every name with the place
/// where its channel is found and the name of its master.
pub fn build_channel_db3(dg: &mut Vec<Dg3>, sharable: &SharableBlocks3, n_cg: u64, n_cn: u64) -> (r:
    ChannelNamesSet3)
    ensures
        r.wf(),
        dgs_named(Map::empty(), old(dg)@, final(dg)@, *sharable),
        r.map() == mastered_dgs(named_dgs(Map::empty(), old(dg)@, *sharable), final(dg)@),
{
    let mut channel_list = ChannelNamesSet3::new();
    name_dgs(dg, &mut channel_list, sharable);
    master_dgs(dg, &mut channel_list);
    channel_list
}

/// Name collision: of two channels of the same name, of which the first has
/// a name that no channel before it has, the first keeps the name and the
/// second gets the name, a space and its suffix.
pub proof fn lemma_collision(
    m: Map<Seq<char>, ChannelIdView>,
    a: Cn3,
    b: Cn3,
    sharable: SharableBlocks3,
    dg_pos: u32,
    cg_pos: u32,
    rec_id: u16,
)
    requires
        !m.contains_key(a.unique_name@),
        a.unique_name@ == b.unique_name@,
    ensures
        unique_name_of(m, a.unique_name@, source_suffix(a, sharable)) == a.unique_name@,
        unique_name_of(
            named_cn(m, a, sharable, dg_pos, cg_pos, rec_id),
            b.unique_name@,
            source_suffix(b, sharable),
        ) == b.unique_name@ + seq![' '] + source_suffix(b, sharable),
{
}

/// A name that is taken stays taken: later channels of that name are
/// renamed, whatever is named in between.
pub proof fn lemma_name_stays_taken(
    m: Map<Seq<char>, ChannelIdView>,
    cns: Seq<Cn3>,
    sharable: SharableBlocks3,
    dg_pos: u32,
    cg_pos: u32,
    rec_id: u16,
    name: Seq<char>,
)
    requires
        m.contains_key(name),
    ensures
        named_cns(m, cns, sharable, dg_pos, cg_pos, rec_id).contains_key(name),
    decreases cns.len(),
{
    if cns.len() > 0 {
        lemma_name_stays_taken(m, cns.drop_last(), sharable, dg_pos, cg_pos, rec_id, name);
    }
}

} // verus!
