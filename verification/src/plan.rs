use vstd::prelude::*;

use crate::amount::Fl;
use crate::id_map::{has_key, keys_increasing, lookup, upsert, IdMap};
use crate::ids::ItemId;
use crate::recipe::{Recipe, Target};

verus! {

/// Why no solution is sought.
#[derive(Clone, Copy, Debug, PartialEq, Eq, Structural)]
pub enum Error {
    /// No recipe consumes or produces the item.
    NoRecipe(ItemId),
    /// No target was given.
    NoTarget,
}

/// The targets with a set amount, keyed by item (a later target for the same
/// item replaces an earlier one).
pub open spec fn set_targets_of(targets: Seq<Target>) -> Seq<(usize, Fl)>
    decreases targets.len(),
{
    if targets.len() == 0 {
        Seq::empty()
    } else {
        let prev = set_targets_of(targets.drop_last());
        match targets.last().qty {
            Some(q) => upsert(prev, targets.last().iid.0, q),
            None => prev,
        }
    }
}

/// The items of the targets to produce as much as possible of, in order.
pub open spec fn maximized_of(targets: Seq<Target>) -> Seq<ItemId>
    decreases targets.len(),
{
    if targets.len() == 0 {
        Seq::empty()
    } else {
        let prev = maximized_of(targets.drop_last());
        match targets.last().qty {
            Some(_) => prev,
            None => prev.push(targets.last().iid),
        }
    }
}

/// The items to maximize are the items of the targets without an amount, in
/// the targets' order.
pub proof fn lemma_maximized_in_order(targets: Seq<Target>)
    ensures
        maximized_of(targets) == targets.filter(|t: Target| t.qty is None).map_values(|t: Target| t.iid),
    decreases targets.len(),
{
    reveal(Seq::filter);
    if targets.len() > 0 {
        lemma_maximized_in_order(targets.drop_last());
        let f = targets.drop_last().filter(|t: Target| t.qty is None);
        if targets.last().qty is None {
            assert(targets.filter(|t: Target| t.qty is None) == f.push(targets.last()));
            assert(f.push(targets.last()).map_values(|t: Target| t.iid) =~= f.map_values(|t: Target| t.iid).push(
                targets.last().iid,
            ));
        } else {
            assert(targets.filter(|t: Target| t.qty is None) == f);
        }
    }
}

/// The set amounts: an item has one exactly when some target for it has an
/// amount, and it is the amount of the last such target; the items are kept
/// in increasing order.
pub proof fn lemma_set_targets(targets: Seq<Target>)
    ensures
        keys_increasing(set_targets_of(targets)),
        forall|k: usize|
            #[trigger] has_key(set_targets_of(targets), k) <==> exists|i: int|
                0 <= i < targets.len() && (#[trigger] targets[i]).iid.0 == k && targets[i].qty is Some,
        forall|k: usize|
            #[trigger] has_key(set_targets_of(targets), k) ==> exists|i: int|
                0 <= i < targets.len() && (#[trigger] targets[i]).iid.0 == k && targets[i].qty == lookup(
                    set_targets_of(targets),
                    k,
                ) && forall|j: int| i < j < targets.len() && (#[trigger] targets[j]).iid.0 == k ==> targets[j].qty is None,
    decreases targets.len(),
{
    if targets.len() > 0 {
        let prev_t = targets.drop_last();
        let n = targets.len() - 1;
        let t = targets.last();
        let prev = set_targets_of(prev_t);
        lemma_set_targets(prev_t);
        assert(targets[n] == t);
        assert forall|i: int| 0 <= i < n implies #[trigger] targets[i] == prev_t[i] by {}
        match t.qty {
            Some(q) => {
                crate::id_map::lemma_upsert(prev, t.iid.0, q);
                let set = upsert(prev, t.iid.0, q);
                assert forall|k: usize| #[trigger] has_key(set, k) <==> exists|i: int|
                    0 <= i < targets.len() && (#[trigger] targets[i]).iid.0 == k && targets[i].qty is Some by {
                    if k != t.iid.0 {
                        assert(lookup(set, k) == lookup(prev, k));
                        if exists|i: int| 0 <= i < targets.len() && (#[trigger] targets[i]).iid.0 == k && targets[i].qty is Some {
                            let i = choose|i: int| 0 <= i < targets.len() && (#[trigger] targets[i]).iid.0 == k && targets[i].qty is Some;
                            assert(prev_t[i] == targets[i]);
                        }
                        if has_key(prev, k) {
                            let i = choose|i: int| 0 <= i < prev_t.len() && (#[trigger] prev_t[i]).iid.0 == k && prev_t[i].qty is Some;
                            assert(targets[i] == prev_t[i]);
                        }
                    } else {
                        assert(lookup(set, k) == Some(q));
                    }
                }
                assert forall|k: usize| #[trigger] has_key(set, k) implies exists|i: int|
                    0 <= i < targets.len() && (#[trigger] targets[i]).iid.0 == k && targets[i].qty == lookup(set, k) && forall|j: int|
                        i < j < targets.len() && (#[trigger] targets[j]).iid.0 == k ==> targets[j].qty is None by {
                    if k == t.iid.0 {
                        assert(targets[n].iid.0 == k && targets[n].qty == lookup(set, k));
                    } else {
                        assert(lookup(set, k) == lookup(prev, k));
                        assert(has_key(prev, k));
                        let i = choose|i: int|
                            0 <= i < prev_t.len() && (#[trigger] prev_t[i]).iid.0 == k && prev_t[i].qty == lookup(prev, k) && forall|j: int|
                                i < j < prev_t.len() && (#[trigger] prev_t[j]).iid.0 == k ==> prev_t[j].qty is None;
                        assert(targets[i] == prev_t[i]);
                        assert forall|j: int| i < j < targets.len() && (#[trigger] targets[j]).iid.0 == k implies targets[j].qty is None by {
                            if j < n {
                                assert(targets[j] == prev_t[j]);
                            }
                        }
                    }
                }
            },
            None => {
                assert forall|k: usize| #[trigger] has_key(prev, k) <==> exists|i: int|
                    0 <= i < targets.len() && (#[trigger] targets[i]).iid.0 == k && targets[i].qty is Some by {
                    if exists|i: int| 0 <= i < targets.len() && (#[trigger] targets[i]).iid.0 == k && targets[i].qty is Some {
                        let i = choose|i: int| 0 <= i < targets.len() && (#[trigger] targets[i]).iid.0 == k && targets[i].qty is Some;
                        assert(prev_t[i] == targets[i]);
                    }
                    if has_key(prev, k) {
                        let i = choose|i: int| 0 <= i < prev_t.len() && (#[trigger] prev_t[i]).iid.0 == k && prev_t[i].qty is Some;
                        assert(targets[i] == prev_t[i]);
                    }
                }
                assert forall|k: usize| #[trigger] has_key(prev, k) implies exists|i: int|
                    0 <= i < targets.len() && (#[trigger] targets[i]).iid.0 == k && targets[i].qty == lookup(prev, k) && forall|j: int|
                        i < j < targets.len() && (#[trigger] targets[j]).iid.0 == k ==> targets[j].qty is None by {
                    let i = choose|i: int|
                        0 <= i < prev_t.len() && (#[trigger] prev_t[i]).iid.0 == k && prev_t[i].qty == lookup(prev, k) && forall|j: int|
                            i < j < prev_t.len() && (#[trigger] prev_t[j]).iid.0 == k ==> prev_t[j].qty is None;
                    assert(targets[i] == prev_t[i]);
                    assert forall|j: int| i < j < targets.len() && (#[trigger] targets[j]).iid.0 == k implies targets[j].qty is None by {
                        if j < n {
                            assert(targets[j] == prev_t[j]);
                        }
                    }
                }
            },
        }
    }
}

/// Splits the targets into those with a set amount and those to maximize;
/// `NoTarget` when there is none.
pub fn plan_targets(targets: &[Target]) -> (res: Result<(IdMap<Fl>, Vec<ItemId>), Error>)
    ensures
        res is Err <==> targets@.len() == 0,
        res is Err ==> res->Err_0 == Error::NoTarget,
        res matches Ok((set, maximize)) ==> set.entry_seq() == set_targets_of(targets@)
            && maximize@ == maximized_of(targets@),
        res matches Ok((set, maximize)) ==> maximize@ == targets@.filter(|t: Target| t.qty is None).map_values(
            |t: Target| t.iid,
        ),
{
    proof {
        lemma_maximized_in_order(targets@);
    }
    if targets.len() == 0 {
        return Err(Error::NoTarget);
    }
    let mut set: IdMap<Fl> = IdMap::new();
    let mut maximize: Vec<ItemId> = Vec::new();
    let mut i: usize = 0;
    while i < targets.len()
        invariant
            0 <= i <= targets.len(),
            set.entry_seq() == set_targets_of(targets@.take(i as int)),
            maximize@ == maximized_of(targets@.take(i as int)),
        decreases targets.len() - i,
    {
        let t = targets[i];
        proof {
            assert(targets@.take(i + 1).drop_last() == targets@.take(i as int));
            assert(targets@.take(i + 1).last() == t);
        }
        match t.qty {
            Some(q) => {
                set.insert(t.iid.0, q);
            },
            None => {
                maximize.push(t.iid);
            },
        }
        i += 1;
    }
    proof {
        assert(targets@.take(i as int) == targets@);
    }
    Ok((set, maximize))
}

/// Whether some recipe of `book` consumes or produces item `iid`.
pub open spec fn handled(book: Seq<(usize, Recipe)>, iid: ItemId) -> bool {
    exists|i: int|
        0 <= i < book.len() && (has_key((#[trigger] book[i]).1.inputs.entry_seq(), iid.0) || has_key(
            book[i].1.outputs.entry_seq(),
            iid.0,
        ))
}

/// Whether some recipe of `recipes` consumes or produces item `iid`.
pub fn is_handled(recipes: &IdMap<Recipe>, iid: ItemId) -> (res: bool)
    ensures
        res == handled(recipes.entry_seq(), iid),
{
    let entries = recipes.entries();
    let mut i: usize = 0;
    while i < entries.len()
        invariant
            0 <= i <= entries.len(),
            entries@ == recipes.entry_seq(),
            forall|j: int|
                0 <= j < i ==> !(has_key((#[trigger] entries@[j]).1.inputs.entry_seq(), iid.0)
                    || has_key(entries@[j].1.outputs.entry_seq(), iid.0)),
        decreases entries.len() - i,
    {
        let r = &entries[i].1;
        if r.inputs.contains_key(iid.0) || r.outputs.contains_key(iid.0) {
            assert(has_key(entries@[i as int].1.inputs.entry_seq(), iid.0) || has_key(
                entries@[i as int].1.outputs.entry_seq(),
                iid.0,
            ));
            return true;
        }
        i += 1;
    }
    false
}

/// Checks that some recipe consumes or produces each item of `items`;
/// `NoRecipe` with the first item for which none does.
pub fn check_recipes(recipes: &IdMap<Recipe>, items: &[ItemId]) -> (res: Result<(), Error>)
    ensures
        res is Ok <==> forall|i: int| 0 <= i < items@.len() ==> handled(recipes.entry_seq(), #[trigger] items@[i]),
        res is Err ==> exists|i: int|
            0 <= i < items@.len() && res->Err_0 == Error::NoRecipe(items@[i]) && !handled(recipes.entry_seq(), #[trigger] items@[i])
                && forall|j: int| 0 <= j < i ==> handled(recipes.entry_seq(), #[trigger] items@[j]),
{
    let mut i: usize = 0;
    while i < items.len()
        invariant
            0 <= i <= items.len(),
            forall|j: int| 0 <= j < i ==> handled(recipes.entry_seq(), #[trigger] items@[j]),
        decreases items.len() - i,
    {
        if !is_handled(recipes, items[i]) {
            return Err(Error::NoRecipe(items[i]));
        }
        i += 1;
    }
    Ok(())
}

} // verus!
