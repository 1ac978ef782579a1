//! The channels of a file listed by their master: for each channel group
//! the name of its master channel and the names of its channels.

use crate::mdfinfo::mdfinfo3::Cg3;
use crate::mdfinfo::mdfinfo3::Cn3;
use crate::mdfinfo::mdfinfo3::Dg3;
use crate::mdfinfo::mdfinfo3::MdfInfo3;
use crate::mdfinfo::mdfinfo4::Cg4;
use crate::mdfinfo::mdfinfo4::Cn4;
use crate::mdfinfo::mdfinfo4::Dg4;
use crate::mdfinfo::mdfinfo4::MdfInfo4;
use crate::mdfinfo::MdfInfo;
use vstd::prelude::*;

verus! {

/// A master channel and the channels of its group, the master itself among
/// them where the group has one.
#[derive(Debug, Clone)]
pub struct MasterChannels {
    /// The name of the master channel.
    pub master: String,
    /// The names of the group's channels, in the order of the file.
    pub channels: Vec<String>,
}

/// What a `MasterChannels` stands for.
pub ghost struct MasterChannelsView {
    pub master: Seq<char>,
    pub channels: Seq<Seq<char>>,
}

impl View for MasterChannels {
    type V = MasterChannelsView;

    open spec fn view(&self) -> MasterChannelsView {
        MasterChannelsView {
            master: self.master@,
            channels: Seq::new(self.channels@.len(), |i: int| self.channels@[i]@),
        }
    }
}

/// What a list of masters with their channels stands for.
pub open spec fn masters_view(list: Seq<MasterChannels>) -> Seq<MasterChannelsView> {
    Seq::new(list.len(), |i: int| list[i]@)
}

/// The names of the channels of a group of a 3.x file.
pub open spec fn names_of_cns3(cns: Seq<Cn3>) -> Seq<Seq<char>> {
    Seq::new(cns.len(), |i: int| cns[i].unique_name@)
}

/// The master and the channels of each group of a data group of a 3.x file.
pub open spec fn masters_of_cgs3(cgs: Seq<Cg3>) -> Seq<MasterChannelsView> {
    Seq::new(
        cgs.len(),
        |i: int|
            MasterChannelsView {
                master: cgs[i].master_channel_name@,
                channels: names_of_cns3(cgs[i].cn@),
            },
    )
}

/// The master and the channels of each channel group of a 3.x file, the
/// groups in the order of the file.
pub open spec fn masters_of_dgs3(dgs: Seq<Dg3>) -> Seq<MasterChannelsView>
    decreases dgs.len(),
{
    if dgs.len() == 0 {
        Seq::empty()
    } else {
        masters_of_dgs3(dgs.drop_last()) + masters_of_cgs3(dgs.last().cg@)
    }
}

/// The names of the channels of a group of a 4.x file.
pub open spec fn names_of_cns4(cns: Seq<Cn4>) -> Seq<Seq<char>> {
    Seq::new(cns.len(), |i: int| cns[i].unique_name@)
}

/// The master and the channels of each group of a data group of a 4.x file.
pub open spec fn masters_of_cgs4(cgs: Seq<Cg4>) -> Seq<MasterChannelsView> {
    Seq::new(
        cgs.len(),
        |i: int|
            MasterChannelsView {
                master: cgs[i].master_channel_name@,
                channels: names_of_cns4(cgs[i].cn@),
            },
    )
}

/// The master and the channels of each channel group of a 4.x file, the
/// groups in the order of the file.
pub open spec fn masters_of_dgs4(dgs: Seq<Dg4>) -> Seq<MasterChannelsView>
    decreases dgs.len(),
{
    if dgs.len() == 0 {
        Seq::empty()
    } else {
        masters_of_dgs4(dgs.drop_last()) + masters_of_cgs4(dgs.last().cg@)
    }
}

/// Lists the names of the channels of a group of a 3.x file.
fn channel_names3(cns: &Vec<Cn3>) -> (r: Vec<String>)
    ensures
        r@.len() == cns@.len(),
        forall|i: int| 0 <= i < r@.len() ==> (#[trigger] r@[i])@ == cns@[i].unique_name@,
{
    let mut names: Vec<String> = Vec::with_capacity(cns.len());
    let mut i: usize = 0;
    while i < cns.len()
        invariant
            i <= cns.len(),
            names@.len() == i,
            forall|k: int| 0 <= k < i ==> (#[trigger] names@[k])@ == cns@[k].unique_name@,
        decreases cns.len() - i,
    {
        names.push(cns[i].unique_name.clone());
        i += 1;
    }
    names
}

/// Lists the names of the channels of a group of a 4.x file.
fn channel_names4(cns: &Vec<Cn4>) -> (r: Vec<String>)
    ensures
        r@.len() == cns@.len(),
        forall|i: int| 0 <= i < r@.len() ==> (#[trigger] r@[i])@ == cns@[i].unique_name@,
{
    let mut names: Vec<String> = Vec::with_capacity(cns.len());
    let mut i: usize = 0;
    while i < cns.len()
        invariant
            i <= cns.len(),
            names@.len() == i,
            forall|k: int| 0 <= k < i ==> (#[trigger] names@[k])@ == cns@[k].unique_name@,
        decreases cns.len() - i,
    {
        names.push(cns[i].unique_name.clone());
        i += 1;
    }
    names
}

impl MdfInfo3 {
    /// Lists, for each channel group in the order of the file, the name of
    /// its master channel and the names of its channels.
    pub fn get_master_channel_names_set(&self) -> (r: Vec<MasterChannels>)
        ensures
            masters_view(r@) == masters_of_dgs3(self.dg@),
    {
        let mut list: Vec<MasterChannels> = Vec::new();
        let mut d: usize = 0;
        proof {
            assert(masters_view(list@) =~= masters_of_dgs3(self.dg@.subrange(0, 0)));
        }
        while d < self.dg.len()
            invariant
                d <= self.dg.len(),
                masters_view(list@) == masters_of_dgs3(self.dg@.subrange(0, d as int)),
            decreases self.dg.len() - d,
        {
            let dg = &self.dg[d];
            let ghost before = masters_view(list@);
            let mut g: usize = 0;
            while g < dg.cg.len()
                invariant
                    g <= dg.cg.len(),
                    masters_view(list@) =~= before + masters_of_cgs3(dg.cg@).subrange(0, g as int),
                decreases dg.cg.len() - g,
            {
                let cg = &dg.cg[g];
                let channels = channel_names3(&cg.cn);
                let entry = MasterChannels { master: cg.master_channel_name.clone(), channels };
                proof {
                    assert(entry@.channels =~= names_of_cns3(cg.cn@));
                    assert(entry@ == masters_of_cgs3(dg.cg@)[g as int]);
                }
                let ghost listed = list@;
                list.push(entry);
                proof {
                    let so_far = before + masters_of_cgs3(dg.cg@).subrange(0, g as int);
                    let now = before + masters_of_cgs3(dg.cg@).subrange(0, g + 1);
                    assert(masters_view(listed) == so_far);
                    assert(listed.len() == so_far.len());
                    assert forall|i: int| 0 <= i < now.len() implies masters_view(list@)[i]
                        == now[i] by {
                        if i < listed.len() {
                            assert(list@[i] == listed[i]);
                            assert(masters_view(listed)[i] == so_far[i]);
                        }
                    }
                }
                g += 1;
            }
            proof {
                let upto = self.dg@.subrange(0, d + 1);
                assert(upto.drop_last() =~= self.dg@.subrange(0, d as int));
                assert(upto.last() == self.dg@[d as int]);
                assert(masters_of_cgs3(dg.cg@).subrange(0, g as int) =~= masters_of_cgs3(dg.cg@));
            }
            d += 1;
        }
        proof {
            assert(self.dg@.subrange(0, d as int) =~= self.dg@);
        }
        list
    }
}

impl MdfInfo4 {
    /// Lists, for each channel group in the order of the file, the name of
    /// its master channel and the names of its channels.
    pub fn get_master_channel_names_set(&self) -> (r: Vec<MasterChannels>)
        ensures
            masters_view(r@) == masters_of_dgs4(self.dg@),
    {
        let mut list: Vec<MasterChannels> = Vec::new();
        let mut d: usize = 0;
        proof {
            assert(masters_view(list@) =~= masters_of_dgs4(self.dg@.subrange(0, 0)));
        }
        while d < self.dg.len()
            invariant
                d <= self.dg.len(),
                masters_view(list@) == masters_of_dgs4(self.dg@.subrange(0, d as int)),
            decreases self.dg.len() - d,
        {
            let dg = &self.dg[d];
            let ghost before = masters_view(list@);
            let mut g: usize = 0;
            while g < dg.cg.len()
                invariant
                    g <= dg.cg.len(),
                    masters_view(list@) =~= before + masters_of_cgs4(dg.cg@).subrange(0, g as int),
                decreases dg.cg.len() - g,
            {
                let cg = &dg.cg[g];
                let channels = channel_names4(&cg.cn);
                let entry = MasterChannels { master: cg.master_channel_name.clone(), channels };
                proof {
                    assert(entry@.channels =~= names_of_cns4(cg.cn@));
                    assert(entry@ == masters_of_cgs4(dg.cg@)[g as int]);
                }
                let ghost listed = list@;
                list.push(entry);
                proof {
                    let so_far = before + masters_of_cgs4(dg.cg@).subrange(0, g as int);
                    let now = before + masters_of_cgs4(dg.cg@).subrange(0, g + 1);
                    assert(masters_view(listed) == so_far);
                    assert(listed.len() == so_far.len());
                    assert forall|i: int| 0 <= i < now.len() implies masters_view(list@)[i]
                        == now[i] by {
                        if i < listed.len() {
                            assert(list@[i] == listed[i]);
                            assert(masters_view(listed)[i] == so_far[i]);
                        }
                    }
                }
                g += 1;
            }
            proof {
                let upto = self.dg@.subrange(0, d + 1);
                assert(upto.drop_last() =~= self.dg@.subrange(0, d as int));
                assert(upto.last() == self.dg@[d as int]);
                assert(masters_of_cgs4(dg.cg@).subrange(0, g as int) =~= masters_of_cgs4(dg.cg@));
            }
            d += 1;
        }
        proof {
            assert(self.dg@.subrange(0, d as int) =~= self.dg@);
        }
        list
    }
}

impl MdfInfo {
    /// Lists, for each channel group in the order of the file, the name of
    /// its master channel and the names of its channels.
    pub fn get_master_channel_names_set(&self) -> (r: Vec<MasterChannels>)
        ensures
            masters_view(r@) == match self {
                MdfInfo::V3(info) => masters_of_dgs3(info.dg@),
                MdfInfo::V4(info) => masters_of_dgs4(info.dg@),
            },
    {
        match self {
            MdfInfo::V3(mdfinfo3) => mdfinfo3.get_master_channel_names_set(),
            MdfInfo::V4(mdfinfo4) => mdfinfo4.get_master_channel_names_set(),
        }
    }
}

} // verus!
