use vstd::prelude::*;

use crate::id_map::{
    entries_or_empty, has_key, keys_increasing, lemma_has_key, lemma_lookup_drop_last,
    lemma_push_entry, lemma_slot, lemma_slot_of_index, lookup, push_entry, push_to, slot, vview,
    IdMap,
};
use crate::ids::{BuildingId, RecipeId};
use crate::recipe::Recipe;

verus! {

/// A building, as described by the game data.
pub struct Building {
    pub id: BuildingId,
    pub slug: String,
    pub name: String,
    pub icon: String,
    pub description: String,
}

/// The buildings (keyed by building identifier) and, for each building, the
/// recipes made in it.
pub struct Buildings {
    pub buildings: IdMap<Building>,
    pub recipes: IdMap<Vec<RecipeId>>,
}

/// For each building, the recipes of `book` made in it, in the order of
/// `book`.
pub open spec fn recipes_by_building(book: Seq<(usize, Recipe)>) -> Seq<(usize, Seq<RecipeId>)>
    decreases book.len(),
{
    if book.len() == 0 {
        Seq::empty()
    } else {
        push_entry(
            recipes_by_building(book.drop_last()),
            book.last().1.building.0,
            RecipeId(book.last().0),
        )
    }
}

/// Lists, for each building, the recipes of `recipes` made in it.
pub fn group_recipes(recipes: &IdMap<Recipe>) -> (res: IdMap<Vec<RecipeId>>)
    ensures
        vview(res.entry_seq()) == recipes_by_building(recipes.entry_seq()),
{
    let entries = recipes.entries();
    let mut groups: IdMap<Vec<RecipeId>> = IdMap::new();
    let mut i: usize = 0;
    while i < entries.len()
        invariant
            0 <= i <= entries.len(),
            entries@ == recipes.entry_seq(),
            vview(groups.entry_seq()) == recipes_by_building(entries@.take(i as int)),
        decreases entries.len() - i,
    {
        let rid = entries[i].0;
        let building = entries[i].1.building;
        push_to(&mut groups, building.0, RecipeId(rid));
        proof {
            assert(entries@.take(i + 1).drop_last() == entries@.take(i as int));
        }
        i += 1;
    }
    proof {
        assert(entries@.take(i as int) == entries@);
    }
    groups
}

impl Buildings {
    /// The buildings, with the recipes of `recipes` grouped by building.
    pub fn new(buildings: IdMap<Building>, recipes: &IdMap<Recipe>) -> (res: Buildings)
        ensures
            res.buildings == buildings,
            vview(res.recipes.entry_seq()) == recipes_by_building(recipes.entry_seq()),
    {
        Buildings { buildings, recipes: group_recipes(recipes) }
    }
}

/// The recipes listed under building `b`.
pub open spec fn listed(groups: Seq<(usize, Seq<RecipeId>)>, b: usize) -> Seq<RecipeId> {
    entries_or_empty(groups, b)
}

/// A recipe is listed under a building exactly when `book` has it and it is
/// made in that building; each list holds increasing identifiers.
pub proof fn lemma_recipes_by_building(book: Seq<(usize, Recipe)>)
    requires
        keys_increasing(book),
    ensures
        keys_increasing(recipes_by_building(book)),
        forall|b: usize, r: usize|
            #![trigger listed(recipes_by_building(book), b).contains(RecipeId(r))]
            listed(recipes_by_building(book), b).contains(RecipeId(r)) <==> (has_key(book, r)
                && lookup(book, r)->0.building.0 == b),
        forall|b: usize, i: int, j: int|
            0 <= i < j < listed(recipes_by_building(book), b).len() ==> (#[trigger] listed(
                recipes_by_building(book),
                b,
            )[i]).0 < (#[trigger] listed(recipes_by_building(book), b)[j]).0,
    decreases book.len(),
{
    let g = recipes_by_building(book);
    if book.len() == 0 {
        assert forall|b: usize| #[trigger] listed(g, b) == Seq::<RecipeId>::empty() by {
            lemma_slot(g, b);
        }
        assert forall|b: usize, r: usize|
            #![trigger listed(g, b).contains(RecipeId(r))]
            listed(g, b).contains(RecipeId(r)) <==> (has_key(book, r) && lookup(book, r)->0.building.0 == b) by {
            lemma_slot(book, r);
        }
    } else {
        let d = book.drop_last();
        let (rl, last) = book.last();
        lemma_lookup_drop_last(book, 0);
        lemma_recipes_by_building(d);
        let p = recipes_by_building(d);
        let bl = last.building.0;
        lemma_push_entry(p, bl, RecipeId(rl));
        assert forall|r: usize| has_key(d, r) implies r < rl by {
            lemma_has_key(d, r);
            let j = choose|j: int| 0 <= j < d.len() && #[trigger] d[j].0 == r;
            assert(book[j].0 < book[book.len() - 1].0);
        }
        assert forall|b: usize| #[trigger] listed(g, b) == (if b == bl {
            listed(p, b).push(RecipeId(rl))
        } else {
            listed(p, b)
        }) by {
            if b != bl {
                assert(lookup(g, b) == lookup(p, b));
            }
        }
        assert forall|b: usize, r: usize|
            #![trigger listed(g, b).contains(RecipeId(r))]
            listed(g, b).contains(RecipeId(r)) <==> (has_key(book, r) && lookup(book, r)->0.building.0 == b) by {
            lemma_lookup_drop_last(book, r);
            assert(listed(p, b).contains(RecipeId(r)) <==> (has_key(d, r) && lookup(d, r)->0.building.0 == b));
            if b == bl {
                if listed(g, b).contains(RecipeId(r)) {
                    let k = choose|k: int| 0 <= k < listed(g, b).len() && listed(g, b)[k] == RecipeId(r);
                    if k < listed(p, b).len() {
                        assert(listed(p, b)[k] == RecipeId(r));
                        assert(listed(p, b).contains(RecipeId(r)));
                    }
                }
                if r == rl {
                    assert(listed(g, b)[listed(g, b).len() - 1] == RecipeId(r));
                } else if has_key(d, r) && lookup(d, r)->0.building.0 == b {
                    let k = choose|k: int| 0 <= k < listed(p, b).len() && listed(p, b)[k] == RecipeId(r);
                    assert(listed(g, b)[k] == RecipeId(r));
                }
            }
        }
        assert forall|b: usize, i: int, j: int|
            0 <= i < j < listed(g, b).len() implies (#[trigger] listed(g, b)[i]).0 < (#[trigger] listed(g, b)[j]).0 by {
            if b == bl && j == listed(g, b).len() - 1 {
                let x = listed(p, b)[i];
                assert(listed(g, b)[i] == x);
                assert(listed(p, b).contains(x));
                assert(listed(p, b).contains(RecipeId(x.0)));
                assert(has_key(d, x.0));
            } else if b == bl {
                assert(listed(g, b)[i] == listed(p, b)[i]);
                assert(listed(g, b)[j] == listed(p, b)[j]);
            }
        }
    }
}

} // verus!
