//! Which conversion turns the raw values of a channel into physical values.
//!
//! The arithmetic of a conversion is done on floats, outside this crate;
//! here it is decided what is to be computed for each channel.

use crate::mdfinfo::mdfinfo3::CcEntry;
use crate::mdfinfo::mdfinfo3::Cn3;
use crate::mdfinfo::mdfinfo3::Conversion;
use crate::mdfinfo::mdfinfo4::Cc4Block;
use crate::mdfinfo::mdfinfo4::Cg4;
use crate::mdfinfo::mdfinfo4::Cn4;
use crate::mdfinfo::mdfinfo4::Dg4;
use crate::mdfreader::channel_data::ElemKind;
use std::collections::HashMap;
use vstd::prelude::*;

verus! {

/// What is to be done with the raw values of a channel. Parameters are the
/// bits of doubles.
#[derive(Debug, Clone, Copy, PartialEq, Eq, Structural)]
pub enum ConversionAction {
    /// The values stay as they are.
    Keep,
    /// Every value becomes the double `raw * p2 + p1`.
    Linear { p1: u64, p2: u64 },
    /// Every value becomes the double
    /// `(raw * raw * p1 + raw * p2 + p3) / (raw * raw * p4 + raw * p5 + p6)`.
    Rational { p1: u64, p2: u64, p3: u64, p4: u64, p5: u64, p6: u64 },
}

/// The bits of the double 1.
pub const ONE_BITS: u64 = 0x3ff0_0000_0000_0000;

/// The bits of the double 0 with a negative sign.
pub const NEGATIVE_ZERO_BITS: u64 = 0x8000_0000_0000_0000;

/// True for the parameters of the linear conversion that changes nothing:
/// `p1` is zero, of either sign, and `p2` is one.
pub open spec fn identity_parameters(p1: u64, p2: u64) -> bool {
    (p1 == 0 || p1 == NEGATIVE_ZERO_BITS) && p2 == ONE_BITS
}

/// True for the kinds of columns that a conversion is applied to: integers
/// and floats. Text and byte arrays pass through unconverted, and so do
/// complex numbers.
pub open spec fn convertible(kind: ElemKind) -> bool {
    kind.numeric() && kind.components() == 1
}

/// What is to be done with the raw values of the channel, given the
/// conversions of the file.
///
/// A channel without samples, without a conversion, or of a kind that is
/// not converted, keeps its values. A linear conversion (type 1) of two
/// parameters applies unless it changes nothing; a rational conversion
/// (type 2) of six parameters applies; conversions of other types are not
/// computed here.
pub open spec fn action_of(cn: Cn4, cc: Map<i64, Cc4Block>) -> ConversionAction {
    let link = cn.block.cn_cc_conversion;
    if cn.data.spec_len() == 0 || !convertible(cn.data.kind()) || !cc.contains_key(link) {
        ConversionAction::Keep
    } else {
        let conv = cc[link];
        if conv.cc_type == 1 && conv.cc_val@.len() >= 2 {
            if identity_parameters(conv.cc_val@[0], conv.cc_val@[1]) {
                ConversionAction::Keep
            } else {
                ConversionAction::Linear { p1: conv.cc_val@[0], p2: conv.cc_val@[1] }
            }
        } else if conv.cc_type == 2 && conv.cc_val@.len() >= 6 {
            ConversionAction::Rational {
                p1: conv.cc_val@[0],
                p2: conv.cc_val@[1],
                p3: conv.cc_val@[2],
                p4: conv.cc_val@[3],
                p5: conv.cc_val@[4],
                p6: conv.cc_val@[5],
            }
        } else {
            ConversionAction::Keep
        }
    }
}

/// Decides what is to be done with the raw values of the channel.
pub fn conversion_action(cn: &Cn4, cc: &HashMap<i64, Cc4Block>) -> (r: ConversionAction)
    ensures
        r == action_of(*cn, cc@),
{
    broadcast use vstd::std_specs::hash::group_hash_axioms;

    let kind = cn.data.elem_kind();
    let complex = match kind {
        ElemKind::Complex16 | ElemKind::Complex32 | ElemKind::Complex64 => true,
        _ => false,
    };
    if cn.data.is_empty() || !kind.is_numeric() || complex {
        return ConversionAction::Keep;
    }
    match cc.get(&cn.block.cn_cc_conversion) {
        None => ConversionAction::Keep,
        Some(conv) => {
            if conv.cc_type == 1 && conv.cc_val.len() >= 2 {
                let p1 = conv.cc_val[0];
                let p2 = conv.cc_val[1];
                if (p1 == 0 || p1 == NEGATIVE_ZERO_BITS) && p2 == ONE_BITS {
                    ConversionAction::Keep
                } else {
                    ConversionAction::Linear { p1, p2 }
                }
            } else if conv.cc_type == 2 && conv.cc_val.len() >= 6 {
                ConversionAction::Rational {
                    p1: conv.cc_val[0],
                    p2: conv.cc_val[1],
                    p3: conv.cc_val[2],
                    p4: conv.cc_val[3],
                    p5: conv.cc_val[4],
                    p6: conv.cc_val[5],
                }
            } else {
                ConversionAction::Keep
            }
        },
    }
}

/// Decides for every channel of a group what is to be done with its raw
/// values.
pub fn group_actions(cg: &Cg4, cc: &HashMap<i64, Cc4Block>) -> (r: Vec<ConversionAction>)
    ensures
        r@.len() == cg.cn@.len(),
        forall|i: int| 0 <= i < cg.cn@.len() ==> #[trigger] r@[i] == action_of(cg.cn@[i], cc@),
{
    let mut actions: Vec<ConversionAction> = Vec::with_capacity(cg.cn.len());
    let mut i: usize = 0;
    while i < cg.cn.len()
        invariant
            i <= cg.cn.len(),
            actions@.len() == i,
            forall|k: int| 0 <= k < i ==> #[trigger] actions@[k] == action_of(cg.cn@[k], cc@),
        decreases cg.cn.len() - i,
    {
        actions.push(conversion_action(&cg.cn[i], cc));
        i += 1;
    }
    actions
}

/// Decides for every channel of a data group, group by group, what is to be
/// done with its raw values to make them physical values.
pub fn convert_all_channels(dg: &Dg4, cc: &HashMap<i64, Cc4Block>) -> (r: Vec<
    Vec<ConversionAction>,
>)
    ensures
        r@.len() == dg.cg@.len(),
        forall|g: int|
            0 <= g < dg.cg@.len() ==> (#[trigger] r@[g])@.len() == dg.cg@[g].cn@.len()
                && forall|i: int|
                0 <= i < dg.cg@[g].cn@.len() ==> #[trigger] r@[g]@[i] == action_of(
                    dg.cg@[g].cn@[i],
                    cc@,
                ),
{
    let mut all: Vec<Vec<ConversionAction>> = Vec::with_capacity(dg.cg.len());
    let mut g: usize = 0;
    while g < dg.cg.len()
        invariant
            g <= dg.cg.len(),
            all@.len() == g,
            forall|k: int|
                0 <= k < g ==> (#[trigger] all@[k])@.len() == dg.cg@[k].cn@.len() && forall|i: int|
                    0 <= i < dg.cg@[k].cn@.len() ==> #[trigger] all@[k]@[i] == action_of(
                        dg.cg@[k].cn@[i],
                        cc@,
                    ),
        decreases dg.cg.len() - g,
    {
        all.push(group_actions(&dg.cg[g], cc));
        g += 1;
    }
    all
}

/// The action that a linear or rational rule with the parameters `values`
/// calls for: none where parameters are missing or the rule changes nothing.
pub open spec fn action_for(linear: bool, values: Seq<u64>) -> ConversionAction {
    if linear {
        if values.len() < 2 || identity_parameters(values[0], values[1]) {
            ConversionAction::Keep
        } else {
            ConversionAction::Linear { p1: values[0], p2: values[1] }
        }
    } else if values.len() < 6 {
        ConversionAction::Keep
    } else {
        ConversionAction::Rational {
            p1: values[0],
            p2: values[1],
            p3: values[2],
            p4: values[3],
            p5: values[4],
            p6: values[5],
        }
    }
}

/// What is to be done with the raw values of a channel of a 3.x file, given
/// the conversions of the file: as for a 4.x file, with the linear and the
/// rational rule of the 3.x format.
pub open spec fn action_of3(cn: Cn3, cc: Map<u32, CcEntry>) -> ConversionAction {
    let link = cn.block1.cn_cc_conversion;
    if cn.data.spec_len() == 0 || !convertible(cn.data.kind()) || !cc.contains_key(link) {
        ConversionAction::Keep
    } else {
        match cc[link].conversion {
            Conversion::Linear(v) => action_for(true, v@),
            Conversion::Rational(v) => action_for(false, v@),
            _ => ConversionAction::Keep,
        }
    }
}

/// Makes the action of a linear or rational rule.
fn make_action(linear: bool, values: &Vec<u64>) -> (r: ConversionAction)
    ensures
        r == action_for(linear, values@),
{
    if linear {
        if values.len() < 2 {
            return ConversionAction::Keep;
        }
        let p1 = values[0];
        let p2 = values[1];
        if (p1 == 0 || p1 == NEGATIVE_ZERO_BITS) && p2 == ONE_BITS {
            ConversionAction::Keep
        } else {
            ConversionAction::Linear { p1, p2 }
        }
    } else if values.len() < 6 {
        ConversionAction::Keep
    } else {
        ConversionAction::Rational {
            p1: values[0],
            p2: values[1],
            p3: values[2],
            p4: values[3],
            p5: values[4],
            p6: values[5],
        }
    }
}

/// Decides what is to be done with the raw values of a channel of a 3.x
/// file.
pub fn conversion_action3(cn: &Cn3, cc: &HashMap<u32, CcEntry>) -> (r: ConversionAction)
    ensures
        r == action_of3(*cn, cc@),
{
    broadcast use vstd::std_specs::hash::group_hash_axioms;

    let kind = cn.data.elem_kind();
    let complex = match kind {
        ElemKind::Complex16 | ElemKind::Complex32 | ElemKind::Complex64 => true,
        _ => false,
    };
    if cn.data.is_empty() || !kind.is_numeric() || complex {
        return ConversionAction::Keep;
    }
    match cc.get(&cn.block1.cn_cc_conversion) {
        None => ConversionAction::Keep,
        Some(entry) => match &entry.conversion {
            Conversion::Linear(v) => make_action(true, v),
            Conversion::Rational(v) => make_action(false, v),
            _ => ConversionAction::Keep,
        },
    }
}

} // verus!
