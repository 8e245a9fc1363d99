use vstd::prelude::*;

use crate::amount::{fits, fl_div, fl_mul, Fl};
use crate::id_map::IdMap;
use crate::ids::{BuildingId, ItemId};

verus! {

/// A recipe: the amount of each item consumed and produced by one run (keyed
/// by item identifier), the length of a run in seconds and the building that
/// runs it.
pub struct Recipe {
    pub inputs: IdMap<Fl>,
    pub outputs: IdMap<Fl>,
    pub time: Fl,
    pub building: BuildingId,
}

/// The amounts chosen by the solver: how many buildings run each recipe
/// (keyed by recipe identifier), how much of each available item is used and
/// how much of each item is produced for the outside (keyed by item
/// identifier), all per minute.
pub struct Solution {
    pub recipes: IdMap<Fl>,
    pub inputs: IdMap<Fl>,
    pub outputs: IdMap<Fl>,
}

/// An item to produce: `qty` per minute, or as much as possible when `qty`
/// is `None`.
#[derive(Clone, Copy, Debug, PartialEq, Eq, Structural)]
pub struct Target {
    pub iid: ItemId,
    pub qty: Option<Fl>,
}

/// The number of runs per minute made by `amount` buildings running a recipe
/// whose run takes `time` seconds.
pub open spec fn per_minute(time: Fl, amount: Fl) -> int {
    fl_mul(fl_div(600000, time.raw()), amount.raw())
}

/// The flow per minute of an item of which each run handles `qty`, at
/// `per_min` runs per minute.
pub open spec fn rate(qty: Fl, per_min: int) -> int {
    fl_mul(qty.raw(), per_min)
}

proof fn lemma_coefficient_fits(t: int)
    requires
        t != 0,
    ensures
        fits(fl_div(600000, t)),
{
    assert(fl_div(600000, t) == 6000000000int / t);
    if t > 0 {
        assert(0 <= 6000000000int / t <= 6000000000) by (nonlinear_arith)
            requires
                t > 0,
        ;
    } else {
        assert(-6000000000 <= 6000000000int / t <= 0) by (nonlinear_arith)
            requires
                t < 0,
        ;
    }
}

/// Computes `per_minute(time, amount)`; `None` when `time` is zero or a step
/// of the computation cannot be stored.
pub fn checked_per_minute(time: Fl, amount: Fl) -> (res: Option<Fl>)
    ensures
        res is Some <==> time.raw() != 0 && fits(per_minute(time, amount)),
        res matches Some(r) ==> r.raw() == per_minute(time, amount),
{
    if time.0 == 0 {
        return None;
    }
    proof {
        lemma_coefficient_fits(time.raw());
    }
    let coef = match Fl(600000).checked_div(time) {
        Some(c) => c,
        None => {
            return None;
        },
    };
    coef.checked_mul(amount)
}

} // verus!
