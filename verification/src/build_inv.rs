use vstd::prelude::*;

use crate::amount::{fits, Fl};
use crate::build_spec::{
    add_outputs, add_producer, amount_of, connect, drain, initial_state, input_nodes,
    input_requests, pop_need, producers, recipe_of, run, spawn_all, spawn_one, spawn_producers,
    step, target_outputs, BuildState, lemma_step_measure,
};
use crate::graph::{edges_in_bounds, Edge};
use crate::id_map::{
    delete, entries_or_empty, has_key, keys_increasing, lemma_delete, lemma_has_key,
    lemma_lookup_drop_last, lemma_push_entry, lemma_slot, lemma_slot_of_index, lemma_upsert, lookup,
    push_entry, slot, upsert, IdMap,
};
use crate::ids::{ItemId, RecipeId};
use crate::recipe::{per_minute, rate, Recipe, Solution};

verus! {

/// The largest magnitude allowed for the amounts handled while building the
/// graph of a solution with `n` recipes: small enough that no sum or
/// difference formed on the way leaves the range of an amount.
pub open spec fn amount_limit(n: int) -> int {
    (i64::MAX as int) / (n + 2)
}

pub open spec fn within(x: int, lim: int) -> bool {
    -lim <= x <= lim
}

/// A recipe run by `amount` buildings: its run time is not zero, and its runs
/// per minute and the flows of all its items can be stored, the flows within
/// `lim`.
pub open spec fn recipe_fits(r: Recipe, amount: Fl, lim: int) -> bool {
    let pm = per_minute(r.time, amount);
    &&& r.time.raw() != 0
    &&& fits(pm)
    &&& forall|j: int|
        0 <= j < r.inputs.entry_seq().len() ==> within(
            rate((#[trigger] r.inputs.entry_seq()[j]).1, pm),
            lim,
        )
    &&& forall|j: int|
        0 <= j < r.outputs.entry_seq().len() ==> within(
            rate((#[trigger] r.outputs.entry_seq()[j]).1, pm),
            lim,
        )
}

/// Every recipe used has an entry in `book` and fits, and every produced
/// amount is within the limit.
pub open spec fn inputs_fit(used: Seq<(usize, Fl)>, outs: Seq<(usize, Fl)>, book: Seq<(usize, Recipe)>) -> bool {
    let lim = amount_limit(used.len() as int);
    &&& forall|i: int|
        0 <= i < used.len() ==> has_key(book, #[trigger] used[i].0) && recipe_fits(
            recipe_of(book, used[i].0),
            used[i].1,
            lim,
        )
    &&& forall|i: int| 0 <= i < outs.len() ==> within((#[trigger] outs[i]).1.raw(), lim)
}

/// The graph of `solution` can be built with the recipes of `book`.
pub open spec fn buildable(solution: Solution, book: IdMap<Recipe>) -> bool {
    inputs_fit(solution.recipes.entry_seq(), solution.outputs.entry_seq(), book.entry_seq())
}

/// The item lists of a recipe have increasing keys.
pub open spec fn io_sorted(r: Recipe) -> bool {
    keys_increasing(r.inputs.entry_seq()) && keys_increasing(r.outputs.entry_seq())
}

/// The item lists of every recipe of `book` have increasing keys.
pub open spec fn book_sorted(book: Seq<(usize, Recipe)>) -> bool {
    forall|i: int| 0 <= i < book.len() ==> io_sorted(#[trigger] book[i].1)
}

/// A list of by-products: no longer than the number of spawned recipes, with
/// amounts within the limit, produced by existing nodes.
pub open spec fn excess_ok(l: Seq<(usize, Fl)>, spawned: int, nodes: int, lim: int) -> bool {
    &&& l.len() <= spawned
    &&& forall|j: int| 0 <= j < l.len() ==> within((#[trigger] l[j]).1.raw(), lim) && l[j].0 < nodes
}

/// Every need of `q` is within the limit and comes from an existing node.
pub open spec fn needs_ok(q: Seq<(ItemId, usize, Fl)>, nodes: int, lim: int) -> bool {
    forall|i: int| 0 <= i < q.len() ==> within((#[trigger] q[i]).2.raw(), lim) && q[i].1 < nodes
}

pub proof fn lemma_needs_ok_mono(q: Seq<(ItemId, usize, Fl)>, n1: int, n2: int, lim: int)
    requires
        needs_ok(q, n1, lim),
        n1 <= n2,
    ensures
        needs_ok(q, n2, lim),
{
    assert forall|i: int| 0 <= i < q.len() implies within((#[trigger] q[i]).2.raw(), lim) && q[i].1
        < n2 by {
        assert(within(q[i].2.raw(), lim) && q[i].1 < n1);
    }
}

/// Every recipe of `l` is used by the solution.
pub open spec fn rids_used(l: Seq<RecipeId>, used: Seq<(usize, Fl)>) -> bool {
    forall|j: int| 0 <= j < l.len() ==> has_key(used, #[trigger] l[j].0)
}

/// Every recipe listed in `rev` is used by the solution.
pub open spec fn rev_ok(rev: Seq<(usize, Seq<RecipeId>)>, used: Seq<(usize, Fl)>) -> bool {
    forall|k: usize| #[trigger] has_key(rev, k) ==> rids_used(lookup(rev, k)->0, used)
}

/// What holds of every state of the construction.
pub open spec fn state_inv(s: BuildState, used: Seq<(usize, Fl)>, lim: int) -> bool {
    &&& keys_increasing(s.rev)
    &&& keys_increasing(s.spawned)
    &&& keys_increasing(s.excess)
    &&& keys_increasing(s.inputs)
    &&& rev_ok(s.rev, used)
    &&& forall|k: usize| #[trigger] has_key(s.spawned, k) ==> has_key(used, k)
    &&& forall|k: usize| #[trigger]
        has_key(s.excess, k) ==> excess_ok(
            lookup(s.excess, k)->0,
            s.spawned.len() as int,
            s.nodes.len() as int,
            lim,
        )
    &&& needs_ok(s.queue, s.nodes.len() as int, lim)
    &&& forall|k: usize| #[trigger] has_key(s.inputs, k) ==> lookup(s.inputs, k)->0 < s.nodes.len()
    &&& edges_in_bounds(s.nodes, s.edges)
    &&& s.nodes.len() <= usize::MAX
}

pub proof fn lemma_add_producer(
    rev: Seq<(usize, Seq<RecipeId>)>,
    outs: Seq<(usize, Fl)>,
    rid: RecipeId,
    used: Seq<(usize, Fl)>,
)
    requires
        keys_increasing(rev),
        rev_ok(rev, used),
        has_key(used, rid.0),
    ensures
        keys_increasing(add_producer(rev, outs, rid)),
        rev_ok(add_producer(rev, outs, rid), used),
    decreases outs.len(),
{
    if outs.len() > 0 {
        let p = add_producer(rev, outs.drop_last(), rid);
        lemma_add_producer(rev, outs.drop_last(), rid, used);
        let k = outs.last().0;
        lemma_push_entry(p, k, rid);
        let r = push_entry(p, k, rid);
        assert forall|k2: usize| #[trigger] has_key(r, k2) implies rids_used(lookup(r, k2)->0, used) by {
            let l = lookup(r, k2)->0;
            if k2 == k {
                let old = entries_or_empty(p, k);
                assert forall|j: int| 0 <= j < l.len() implies has_key(used, #[trigger] l[j].0) by {
                    if j < old.len() {
                        assert(l[j] == old[j]);
                        assert(has_key(p, k));
                    }
                }
            } else {
                assert(lookup(r, k2) == lookup(p, k2));
            }
        }
    }
}

pub proof fn lemma_producers(used: Seq<(usize, Fl)>, book: Seq<(usize, Recipe)>)
    requires
        keys_increasing(used),
    ensures
        keys_increasing(producers(used, book)),
        rev_ok(producers(used, book), used),
    decreases used.len(),
{
    if used.len() > 0 {
        let d = used.drop_last();
        lemma_lookup_drop_last(used, 0);
        lemma_producers(d, book);
        let p = producers(d, book);
        assert(rev_ok(p, used)) by {
            assert forall|k: usize| #[trigger] has_key(p, k) implies rids_used(lookup(p, k)->0, used) by {
                let l = lookup(p, k)->0;
                assert forall|j: int| 0 <= j < l.len() implies has_key(used, #[trigger] l[j].0) by {
                    assert(has_key(d, l[j].0));
                    lemma_lookup_drop_last(used, l[j].0);
                }
            }
        }
        lemma_lookup_drop_last(used, used.last().0);
        lemma_add_producer(p, recipe_of(book, used.last().0).outputs.entry_seq(), RecipeId(used.last().0), used);
    }
}

pub proof fn lemma_target_outputs(targets: Seq<crate::recipe::Target>, outs: Seq<(usize, Fl)>, lim: int)
    requires
        forall|i: int| 0 <= i < outs.len() ==> within((#[trigger] outs[i]).1.raw(), lim),
        keys_increasing(outs),
        targets.len() <= usize::MAX,
    ensures
        target_outputs(targets, outs).0.len() == target_outputs(targets, outs).1.len(),
        target_outputs(targets, outs).0.len() <= targets.len(),
        needs_ok(target_outputs(targets, outs).1, target_outputs(targets, outs).0.len() as int, lim),
    decreases targets.len(),
{
    if targets.len() == 0 {
        assert(target_outputs(targets, outs).1.len() == 0);
    } else {
        lemma_target_outputs(targets.drop_last(), outs, lim);
        let prev = target_outputs(targets.drop_last(), outs);
        let r = target_outputs(targets, outs);
        let t = targets.last();
        if has_key(outs, t.iid.0) {
            lemma_slot(outs, t.iid.0);
            let j = slot(outs, t.iid.0);
            assert(within(outs[j].1.raw(), lim));
            assert forall|i: int| 0 <= i < r.1.len() implies within((#[trigger] r.1[i]).2.raw(), lim)
                && r.1[i].1 < r.0.len() by {
                if i < prev.1.len() {
                    assert(r.1[i] == prev.1[i]);
                    assert(within(prev.1[i].2.raw(), lim));
                } else {
                    assert(i == prev.1.len());
                    assert(r.1[i].2 == outs[j].1);
                    assert(prev.0.len() <= targets.len() - 1);
                    assert(r.1[i].1 == prev.0.len());
                }
            }
        } else {
            assert(r == prev);
            assert(r == prev);
        }
    }
}

pub proof fn lemma_input_nodes_len(nodes: Seq<crate::graph::Node>, ins: Seq<(usize, Fl)>)
    ensures
        input_nodes(nodes, ins).0.len() == nodes.len() + ins.len(),
    decreases ins.len(),
{
    if ins.len() > 0 {
        lemma_input_nodes_len(nodes, ins.drop_last());
    }
}

pub proof fn lemma_input_nodes(nodes: Seq<crate::graph::Node>, ins: Seq<(usize, Fl)>)
    requires
        nodes.len() + ins.len() <= usize::MAX,
    ensures
        input_nodes(nodes, ins).0.len() == nodes.len() + ins.len(),
        keys_increasing(input_nodes(nodes, ins).1),
        forall|k: usize| #[trigger]
            has_key(input_nodes(nodes, ins).1, k) ==> lookup(input_nodes(nodes, ins).1, k)->0
                < input_nodes(nodes, ins).0.len(),
        input_nodes(nodes, ins).0.len() >= nodes.len(),
        input_nodes(nodes, ins).0.subrange(0, nodes.len() as int) == nodes,
    decreases ins.len(),
{
    if ins.len() > 0 {
        let p = input_nodes(nodes, ins.drop_last());
        lemma_input_nodes(nodes, ins.drop_last());
        let (iid, q) = ins.last();
        lemma_upsert(p.1, iid, p.0.len() as usize);
        let r = input_nodes(nodes, ins);
        assert(r.0.subrange(0, nodes.len() as int) =~= p.0.subrange(0, nodes.len() as int));
    }
}

pub proof fn lemma_initial_inv(
    used: Seq<(usize, Fl)>,
    ins: Seq<(usize, Fl)>,
    outs: Seq<(usize, Fl)>,
    targets: Seq<crate::recipe::Target>,
    book: Seq<(usize, Recipe)>,
)
    requires
        keys_increasing(used),
        keys_increasing(outs),
        inputs_fit(used, outs, book),
        targets.len() <= usize::MAX,
        target_outputs(targets, outs).0.len() + ins.len() <= usize::MAX,
    ensures
        state_inv(
            initial_state(used, ins, outs, targets, book),
            used,
            amount_limit(used.len() as int),
        ),
{
    let lim = amount_limit(used.len() as int);
    let s = initial_state(used, ins, outs, targets, book);
    lemma_producers(used, book);
    lemma_target_outputs(targets, outs, lim);
    let t = target_outputs(targets, outs);
    lemma_input_nodes(t.0, ins);
    assert(s.nodes.len() == t.0.len() + ins.len());
    lemma_needs_ok_mono(t.1, t.0.len() as int, s.nodes.len() as int, lim);
    assert forall|k: usize| #[trigger] has_key(s.excess, k) implies excess_ok(
        lookup(s.excess, k)->0,
        s.spawned.len() as int,
        s.nodes.len() as int,
        lim,
    ) by {
        lemma_slot(s.excess, k);
    }
    assert forall|k: usize| #[trigger] has_key(s.spawned, k) implies has_key(used, k) by {
        lemma_slot(s.spawned, k);
    }
}

pub proof fn lemma_excess_ok_mono(l: Seq<(usize, Fl)>, sp1: int, n1: int, sp2: int, n2: int, lim: int)
    requires
        excess_ok(l, sp1, n1, lim),
        sp1 <= sp2,
        n1 <= n2,
    ensures
        excess_ok(l, sp2, n2, lim),
{
    assert forall|j: int| 0 <= j < l.len() implies within((#[trigger] l[j]).1.raw(), lim) && l[j].0
        < n2 by {
        assert(within(l[j].1.raw(), lim) && l[j].0 < n1);
    }
}

pub proof fn lemma_edges_in_bounds_mono(nodes: Seq<crate::graph::Node>, more: Seq<crate::graph::Node>, edges: Seq<Edge>)
    requires
        edges_in_bounds(nodes, edges),
        nodes.len() <= more.len(),
    ensures
        edges_in_bounds(more, edges),
{
    assert forall|i: int| 0 <= i < edges.len() implies (#[trigger] edges[i]).from < more.len()
        && edges[i].to < more.len() by {
        assert(edges[i].from < nodes.len() && edges[i].to < nodes.len());
    }
}

pub proof fn lemma_edges_in_bounds_concat(nodes: Seq<crate::graph::Node>, a: Seq<Edge>, b: Seq<Edge>)
    requires
        edges_in_bounds(nodes, a),
        edges_in_bounds(nodes, b),
    ensures
        edges_in_bounds(nodes, a + b),
{
    assert forall|i: int| 0 <= i < (a + b).len() implies (#[trigger] (a + b)[i]).from < nodes.len()
        && (a + b)[i].to < nodes.len() by {
        if i < a.len() {
            assert((a + b)[i] == a[i]);
            assert(a[i].from < nodes.len() && a[i].to < nodes.len());
        } else {
            assert((a + b)[i] == b[i - a.len()]);
            assert(b[i - a.len()].from < nodes.len() && b[i - a.len()].to < nodes.len());
        }
    }
}

pub proof fn lemma_add_outputs(
    ex: Seq<(usize, Seq<(usize, Fl)>)>,
    outs: Seq<(usize, Fl)>,
    idx: usize,
    pm: int,
)
    requires
        keys_increasing(ex),
        keys_increasing(outs),
    ensures
        keys_increasing(add_outputs(ex, outs, idx, pm)),
        forall|k: usize|
            #[trigger] lookup(add_outputs(ex, outs, idx, pm), k) == (if has_key(outs, k) {
                Some(entries_or_empty(ex, k).push((idx, Fl(rate(amount_of(outs, k), pm) as i64))))
            } else {
                lookup(ex, k)
            }),
    decreases outs.len(),
{
    if outs.len() > 0 {
        let d = outs.drop_last();
        let last = outs.last();
        lemma_lookup_drop_last(outs, last.0);
        lemma_add_outputs(ex, d, idx, pm);
        let p = add_outputs(ex, d, idx, pm);
        let e = (idx, Fl(rate(last.1, pm) as i64));
        lemma_push_entry(p, last.0, e);
        assert(!has_key(d, last.0)) by {
            lemma_has_key(d, last.0);
            if has_key(d, last.0) {
                let j = choose|j: int| 0 <= j < d.len() && #[trigger] d[j].0 == last.0;
                assert(outs[j].0 < outs[outs.len() - 1].0);
            }
        }
        assert forall|k: usize|
            #[trigger] lookup(add_outputs(ex, outs, idx, pm), k) == (if has_key(outs, k) {
                Some(entries_or_empty(ex, k).push((idx, Fl(rate(amount_of(outs, k), pm) as i64))))
            } else {
                lookup(ex, k)
            }) by {
            lemma_lookup_drop_last(outs, k);
            assert(lookup(p, k) == (if has_key(d, k) {
                Some(entries_or_empty(ex, k).push((idx, Fl(rate(amount_of(d, k), pm) as i64))))
            } else {
                lookup(ex, k)
            }));
            if k == last.0 {
                assert(entries_or_empty(p, k) == entries_or_empty(ex, k));
            }
        }
    }
}

pub proof fn lemma_limit(n: int)
    requires
        n >= 0,
    ensures
        0 <= amount_limit(n) <= i64::MAX / 2,
        amount_limit(n) * (n + 2) <= i64::MAX,
{
    let m = i64::MAX as int;
    assert(0 <= m / (n + 2) <= m / 2) by (nonlinear_arith)
        requires
            n >= 0,
            m > 0,
    ;
    assert((m / (n + 2)) * (n + 2) <= m) by (nonlinear_arith)
        requires
            n >= 0,
            m > 0,
    ;
}

pub proof fn lemma_within_fits(x: int, lim: int)
    requires
        within(x, lim),
        lim <= i64::MAX,
    ensures
        Fl(x as i64).raw() == x,
{
}

/// The index of the entry for `k` in `used`, whose amount `amount_of` gives.
pub proof fn lemma_used_entry(used: Seq<(usize, Fl)>, k: usize)
    requires
        has_key(used, k),
    ensures
        0 <= slot(used, k) < used.len(),
        used[slot(used, k)].0 == k,
        amount_of(used, k) == used[slot(used, k)].1,
{
    lemma_slot(used, k);
}

pub proof fn lemma_spawn_one_inv(
    s: BuildState,
    rid: RecipeId,
    used: Seq<(usize, Fl)>,
    outs: Seq<(usize, Fl)>,
    book: Seq<(usize, Recipe)>,
)
    requires
        state_inv(s, used, amount_limit(used.len() as int)),
        has_key(used, rid.0),
        inputs_fit(used, outs, book),
        io_sorted(recipe_of(book, rid.0)),
        !has_key(s.spawned, rid.0) ==> s.nodes.len() < usize::MAX,
    ensures
        state_inv(spawn_one(s, rid, used, book), used, amount_limit(used.len() as int)),
        spawn_one(s, rid, used, book).spawned.len() <= s.spawned.len() + 1,
{
    let lim = amount_limit(used.len() as int);
    lemma_limit(used.len() as int);
    if !has_key(s.spawned, rid.0) {
        let r = spawn_one(s, rid, used, book);
        let recipe = recipe_of(book, rid.0);
        let amount = amount_of(used, rid.0);
        let idx = s.nodes.len() as usize;
        let pm = per_minute(recipe.time, amount);
        lemma_used_entry(used, rid.0);
        let i = slot(used, rid.0);
        assert(has_key(book, used[i].0) && recipe_fits(recipe_of(book, used[i].0), used[i].1, lim));
        assert(recipe_fits(recipe, amount, lim));
        let ins = recipe.inputs.entry_seq();
        let outs_r = recipe.outputs.entry_seq();
        lemma_upsert(s.spawned, rid.0, idx);
        lemma_add_outputs(s.excess, outs_r, idx, pm);
        assert forall|k: usize| #[trigger] has_key(r.spawned, k) implies has_key(used, k) by {
            if k != rid.0 {
                assert(lookup(r.spawned, k) == lookup(s.spawned, k));
            }
        }
        assert forall|k: usize| #[trigger] has_key(r.excess, k) implies excess_ok(
            lookup(r.excess, k)->0,
            r.spawned.len() as int,
            r.nodes.len() as int,
            lim,
        ) by {
            let l = lookup(r.excess, k)->0;
            if has_key(outs_r, k) {
                let old = entries_or_empty(s.excess, k);
                if has_key(s.excess, k) {
                    assert(excess_ok(old, s.spawned.len() as int, s.nodes.len() as int, lim));
                }
                assert(excess_ok(old, s.spawned.len() as int, s.nodes.len() as int, lim));
                lemma_slot(outs_r, k);
                let j = slot(outs_r, k);
                assert(within(rate(outs_r[j].1, pm), lim));
                lemma_within_fits(rate(outs_r[j].1, pm), lim);
                assert forall|jj: int| 0 <= jj < l.len() implies within((#[trigger] l[jj]).1.raw(), lim)
                    && l[jj].0 < r.nodes.len() by {
                    if jj < old.len() {
                        assert(l[jj] == old[jj]);
                        assert(within(old[jj].1.raw(), lim) && old[jj].0 < s.nodes.len());
                    }
                }
            } else {
                assert(lookup(r.excess, k) == lookup(s.excess, k));
                lemma_excess_ok_mono(
                    l,
                    s.spawned.len() as int,
                    s.nodes.len() as int,
                    r.spawned.len() as int,
                    r.nodes.len() as int,
                    lim,
                );
            }
        }
        assert(needs_ok(r.queue, r.nodes.len() as int, lim)) by {
            lemma_needs_ok_mono(s.queue, s.nodes.len() as int, r.nodes.len() as int, lim);
            let reqs = input_requests(ins, idx, pm);
            assert forall|i: int| 0 <= i < r.queue.len() implies within((#[trigger] r.queue[i]).2.raw(), lim)
                && r.queue[i].1 < r.nodes.len() by {
                if i < s.queue.len() {
                    assert(r.queue[i] == s.queue[i]);
                    assert(within(s.queue[i].2.raw(), lim) && s.queue[i].1 < r.nodes.len());
                } else {
                    let j = i - s.queue.len();
                    assert(r.queue[i] == reqs[j]);
                    assert(within(rate(ins[j].1, pm), lim));
                    lemma_within_fits(rate(ins[j].1, pm), lim);
                }
            }
        }
        assert forall|k: usize| #[trigger] has_key(r.inputs, k) implies lookup(r.inputs, k)->0
            < r.nodes.len() by {
            assert(lookup(s.inputs, k)->0 < s.nodes.len());
        }
        lemma_edges_in_bounds_mono(s.nodes, r.nodes, s.edges);
    }
}

pub proof fn lemma_spawn_one_frame(s: BuildState, rid: RecipeId, used: Seq<(usize, Fl)>, book: Seq<(usize, Recipe)>)
    ensures
        spawn_one(s, rid, used, book).nodes.len() >= s.nodes.len(),
        spawn_one(s, rid, used, book).nodes.len() <= s.nodes.len() + 1,
        !has_key(s.spawned, rid.0) ==> spawn_one(s, rid, used, book).nodes.len() == s.nodes.len() + 1,
{
}

pub proof fn lemma_spawn_all_inv(
    s: BuildState,
    rids: Seq<RecipeId>,
    used: Seq<(usize, Fl)>,
    outs: Seq<(usize, Fl)>,
    book: Seq<(usize, Recipe)>,
)
    requires
        state_inv(s, used, amount_limit(used.len() as int)),
        rids_used(rids, used),
        inputs_fit(used, outs, book),
        forall|j: int| 0 <= j < rids.len() ==> io_sorted(recipe_of(book, (#[trigger] rids[j]).0)),
        spawn_all(s, rids, used, book).nodes.len() <= usize::MAX,
    ensures
        state_inv(spawn_all(s, rids, used, book), used, amount_limit(used.len() as int)),
    decreases rids.len(),
{
    if rids.len() > 0 {
        let d = rids.drop_last();
        let p = spawn_all(s, d, used, book);
        lemma_spawn_one_frame(p, rids.last(), used, book);
        assert(rids_used(d, used)) by {
            assert forall|j: int| 0 <= j < d.len() implies has_key(used, #[trigger] d[j].0) by {
                assert(d[j] == rids[j]);
            }
        }
        assert forall|j: int| 0 <= j < d.len() implies io_sorted(recipe_of(book, (#[trigger] d[j]).0)) by {
            assert(d[j] == rids[j]);
        }
        lemma_spawn_all_inv(s, d, used, outs, book);
        assert(has_key(used, rids[rids.len() - 1].0));
        assert(io_sorted(recipe_of(book, rids[rids.len() - 1].0)));
        lemma_spawn_one_inv(p, rids.last(), used, outs, book);
    }
}

/// The edges of `es` leave nodes below `n` and enter node `to`.
pub open spec fn edges_into(es: Seq<Edge>, n: int, to: usize) -> bool {
    forall|i: int| 0 <= i < es.len() ==> (#[trigger] es[i]).from < n && es[i].to == to
}

pub proof fn lemma_drain(vals: Seq<(usize, Fl)>, q: int, item: ItemId, to: usize, sp: int, nn: int, lim: int)
    requires
        excess_ok(vals, sp, nn, lim),
        0 <= lim,
    ensures
        excess_ok(drain(vals, q, item, to).0, sp, nn, lim),
        drain(vals, q, item, to).0.len() <= vals.len(),
        q < 0 ==> drain(vals, q, item, to) == (vals, q, Seq::<Edge>::empty(), false),
        q >= 0 ==> 0 <= drain(vals, q, item, to).1 <= q + vals.len() * lim,
        edges_into(drain(vals, q, item, to).2, nn, to),
        drain(vals, q, item, to).3 ==> drain(vals, q, item, to).0.len() == 0,
    decreases vals.len(),
{
    if q >= 0 && vals.len() > 0 {
        let (from, f) = vals.last();
        let rest = vals.drop_last();
        assert(within(vals[vals.len() - 1].1.raw(), lim) && vals[vals.len() - 1].0 < nn);
        assert(excess_ok(rest, sp, nn, lim)) by {
            assert forall|j: int| 0 <= j < rest.len() implies within((#[trigger] rest[j]).1.raw(), lim)
                && rest[j].0 < nn by {
                assert(rest[j] == vals[j]);
                assert(within(vals[j].1.raw(), lim) && vals[j].0 < nn);
            }
        }
        let d = drain(vals, q, item, to);
        if crate::build_spec::abs(f.raw() - q) <= crate::build_spec::PRECISION {
        } else if f.raw() > q {
            let nv = rest.push((from, Fl((f.raw() - q) as i64)));
            assert forall|j: int| 0 <= j < nv.len() implies within((#[trigger] nv[j]).1.raw(), lim)
                && nv[j].0 < nn by {
                if j < rest.len() {
                    assert(nv[j] == rest[j]);
                    assert(within(rest[j].1.raw(), lim) && rest[j].0 < nn);
                }
            }
        } else {
            lemma_drain(rest, q - f.raw(), item, to, sp, nn, lim);
            let r = drain(rest, q - f.raw(), item, to);
            assert(rest.len() * lim + lim == vals.len() * lim) by (nonlinear_arith)
                requires
                    rest.len() + 1 == vals.len(),
            ;
            let e = seq![Edge { from, to, iid: item, amount: f }];
            assert forall|i: int| 0 <= i < d.2.len() implies (#[trigger] d.2[i]).from < nn && d.2[i].to == to by {
                if i == 0 {
                    assert(d.2[0] == e[0]);
                } else {
                    assert(d.2[i] == r.2[i - 1]);
                    assert(r.2[i - 1].from < nn && r.2[i - 1].to == to);
                }
            }
        }
    }
}

pub proof fn lemma_connect_inv(s: BuildState, item: ItemId, to: usize, q: int, used: Seq<(usize, Fl)>, lim: int)
    requires
        state_inv(s, used, lim),
        to < s.nodes.len(),
        0 <= lim,
    ensures
        state_inv(connect(s, item, to, q), used, lim),
{
    let r = connect(s, item, to, q);
    let nn = s.nodes.len() as int;
    let sp = s.spawned.len() as int;
    let d = if has_key(s.excess, item.0) {
        drain(lookup(s.excess, item.0)->0, q, item, to)
    } else {
        (Seq::empty(), q, Seq::empty(), false)
    };
    if has_key(s.excess, item.0) {
        let vals = lookup(s.excess, item.0)->0;
        assert(excess_ok(vals, sp, nn, lim));
        lemma_drain(vals, q, item, to, sp, nn, lim);
        lemma_upsert(s.excess, item.0, d.0);
        lemma_delete(s.excess, item.0);
        assert forall|k: usize| #[trigger] has_key(r.excess, k) implies excess_ok(
            lookup(r.excess, k)->0,
            sp,
            nn,
            lim,
        ) by {
            if k != item.0 {
                assert(lookup(r.excess, k) == lookup(s.excess, k));
            }
        }
    }
    let es = if d.1 >= crate::build_spec::MIN_INPUT && has_key(s.inputs, item.0) {
        d.2.push(Edge { from: lookup(s.inputs, item.0)->0, to, iid: item, amount: Fl(d.1 as i64) })
    } else {
        d.2
    };
    assert(edges_in_bounds(s.nodes, es)) by {
        assert forall|i: int| 0 <= i < es.len() implies (#[trigger] es[i]).from < nn && es[i].to
            < nn by {
            if i < d.2.len() {
                assert(es[i] == d.2[i]);
                assert(d.2[i].from < nn && d.2[i].to == to);
            } else {
                assert(lookup(s.inputs, item.0)->0 < nn);
            }
        }
    }
    lemma_edges_in_bounds_concat(s.nodes, s.edges, es);
}

pub proof fn lemma_spawn_all_frame2(
    s: BuildState,
    rids: Seq<RecipeId>,
    used: Seq<(usize, Fl)>,
    book: Seq<(usize, Recipe)>,
)
    ensures
        spawn_all(s, rids, used, book).nodes.len() >= s.nodes.len(),
        spawn_all(s, rids, used, book).spawned.len() >= s.spawned.len(),
    decreases rids.len(),
{
    if rids.len() > 0 {
        lemma_spawn_all_frame2(s, rids.drop_last(), used, book);
        let p = spawn_all(s, rids.drop_last(), used, book);
        crate::id_map::lemma_slot(p.spawned, rids.last().0);
        if !has_key(p.spawned, rids.last().0) {
            assert(spawn_all(s, rids, used, book).spawned.len() == p.spawned.len() + 1);
        }
    }
}

pub proof fn lemma_book_entry(book: Seq<(usize, Recipe)>, k: usize)
    requires
        book_sorted(book),
        has_key(book, k),
    ensures
        io_sorted(recipe_of(book, k)),
{
    lemma_slot(book, k);
    assert(io_sorted(book[slot(book, k)].1));
}

pub proof fn lemma_step_inv(
    s: BuildState,
    used: Seq<(usize, Fl)>,
    outs: Seq<(usize, Fl)>,
    book: Seq<(usize, Recipe)>,
)
    requires
        state_inv(s, used, amount_limit(used.len() as int)),
        s.queue.len() > 0,
        inputs_fit(used, outs, book),
        book_sorted(book),
        step(s, used, book).nodes.len() <= usize::MAX,
    ensures
        state_inv(step(s, used, book), used, amount_limit(used.len() as int)),
        step(s, used, book).nodes.len() >= s.nodes.len(),
{
    let lim = amount_limit(used.len() as int);
    lemma_limit(used.len() as int);
    let (item, to, q) = s.queue[0];
    let p = pop_need(s);
    assert(within(s.queue[0].2.raw(), lim) && s.queue[0].1 < s.nodes.len());
    assert(needs_ok(p.queue, p.nodes.len() as int, lim)) by {
        assert forall|i: int| 0 <= i < p.queue.len() implies within((#[trigger] p.queue[i]).2.raw(), lim)
            && p.queue[i].1 < p.nodes.len() by {
            assert(p.queue[i] == s.queue[i + 1]);
            assert(within(s.queue[i + 1].2.raw(), lim) && s.queue[i + 1].1 < s.nodes.len());
        }
    }
    assert(state_inv(p, used, lim));
    let sp = spawn_producers(p, item, used, book);
    if has_key(p.rev, item.0) {
        let t = BuildState {
            nodes: p.nodes,
            edges: p.edges,
            rev: delete(p.rev, item.0),
            queue: p.queue,
            spawned: p.spawned,
            excess: p.excess,
            inputs: p.inputs,
        };
        let rids = lookup(p.rev, item.0)->0;
        lemma_delete(p.rev, item.0);
        assert forall|k: usize| #[trigger] has_key(t.rev, k) implies rids_used(lookup(t.rev, k)->0, used) by {
            assert(lookup(t.rev, k) == lookup(p.rev, k));
        }
        assert(state_inv(t, used, lim));
        assert(rids_used(rids, used));
        assert forall|j: int| 0 <= j < rids.len() implies io_sorted(recipe_of(book, (#[trigger] rids[j]).0)) by {
            assert(has_key(used, rids[j].0));
            lemma_used_entry(used, rids[j].0);
            let i = slot(used, rids[j].0);
            assert(has_key(book, used[i].0));
            lemma_book_entry(book, rids[j].0);
        }
        lemma_spawn_all_frame2(t, rids, used, book);
        lemma_spawn_all_inv(t, rids, used, outs, book);
    }
    assert(state_inv(sp, used, lim));
    lemma_connect_inv(sp, item, to, q.raw(), used, lim);
}

pub proof fn lemma_run_grows(s: BuildState, used: Seq<(usize, Fl)>, book: Seq<(usize, Recipe)>)
    ensures
        run(s, used, book).nodes.len() >= s.nodes.len(),
        s.queue.len() > 0 ==> run(s, used, book).nodes.len() >= step(s, used, book).nodes.len(),
    decreases s.rev.len(), s.queue.len(),
{
    if s.queue.len() > 0 {
        lemma_step_measure(s, used, book);
        lemma_run_grows(step(s, used, book), used, book);
        let (item, to, q) = s.queue[0];
        let p = pop_need(s);
        if has_key(p.rev, item.0) {
            let t = BuildState {
                nodes: p.nodes,
                edges: p.edges,
                rev: delete(p.rev, item.0),
                queue: p.queue,
                spawned: p.spawned,
                excess: p.excess,
                inputs: p.inputs,
            };
            lemma_spawn_all_frame2(t, lookup(p.rev, item.0)->0, used, book);
        }
    }
}

pub proof fn lemma_run_inv(
    s: BuildState,
    used: Seq<(usize, Fl)>,
    outs: Seq<(usize, Fl)>,
    book: Seq<(usize, Recipe)>,
)
    requires
        state_inv(s, used, amount_limit(used.len() as int)),
        inputs_fit(used, outs, book),
        book_sorted(book),
        run(s, used, book).nodes.len() <= usize::MAX,
    ensures
        state_inv(run(s, used, book), used, amount_limit(used.len() as int)),
    decreases s.rev.len(), s.queue.len(),
{
    if s.queue.len() > 0 {
        lemma_step_measure(s, used, book);
        lemma_run_grows(s, used, book);
        lemma_step_inv(s, used, outs, book);
        lemma_run_inv(step(s, used, book), used, outs, book);
    }
}

/// Taking the first need out of the queue keeps the invariant; the need is
/// within the limit and comes from an existing node.
pub proof fn lemma_pop_inv(s: BuildState, used: Seq<(usize, Fl)>, lim: int)
    requires
        state_inv(s, used, lim),
        s.queue.len() > 0,
    ensures
        state_inv(pop_need(s), used, lim),
        within(s.queue[0].2.raw(), lim),
        s.queue[0].1 < s.nodes.len(),
{
    let p = pop_need(s);
    assert(within(s.queue[0].2.raw(), lim) && s.queue[0].1 < s.nodes.len());
    assert forall|i: int| 0 <= i < p.queue.len() implies within((#[trigger] p.queue[i]).2.raw(), lim)
        && p.queue[i].1 < p.nodes.len() by {
        assert(p.queue[i] == s.queue[i + 1]);
        assert(within(s.queue[i + 1].2.raw(), lim) && s.queue[i + 1].1 < s.nodes.len());
    }
}

/// `s` with the producers of item `k` taken out of `rev`.
pub open spec fn without_producers(s: BuildState, k: usize) -> BuildState {
    BuildState {
        nodes: s.nodes,
        edges: s.edges,
        rev: delete(s.rev, k),
        queue: s.queue,
        spawned: s.spawned,
        excess: s.excess,
        inputs: s.inputs,
    }
}

/// Taking the producers of an item out of `rev` keeps the invariant; they
/// are used by the solution.
pub proof fn lemma_without_producers_inv(s: BuildState, k: usize, used: Seq<(usize, Fl)>, lim: int)
    requires
        state_inv(s, used, lim),
        has_key(s.rev, k),
    ensures
        state_inv(without_producers(s, k), used, lim),
        rids_used(lookup(s.rev, k)->0, used),
{
    let t = without_producers(s, k);
    lemma_delete(s.rev, k);
    assert forall|k2: usize| #[trigger] has_key(t.rev, k2) implies rids_used(lookup(t.rev, k2)->0, used) by {
        assert(lookup(t.rev, k2) == lookup(s.rev, k2));
    }
}

/// The flows of the by-products of `l` total within `l.len() * lim`.
pub proof fn lemma_sum_amounts(l: Seq<(usize, Fl)>, lim: int)
    requires
        forall|j: int| 0 <= j < l.len() ==> within((#[trigger] l[j]).1.raw(), lim),
        lim >= 0,
    ensures
        -(l.len() * lim) <= crate::build_spec::sum_amounts(l) <= l.len() * lim,
    decreases l.len(),
{
    if l.len() > 0 {
        let d = l.drop_last();
        assert forall|j: int| 0 <= j < d.len() implies within((#[trigger] d[j]).1.raw(), lim) by {
            assert(d[j] == l[j]);
        }
        lemma_sum_amounts(d, lim);
        assert(within(l[l.len() - 1].1.raw(), lim));
        assert(d.len() * lim + lim == l.len() * lim) by (nonlinear_arith)
            requires
                d.len() + 1 == l.len(),
        ;
    }
}

} // verus!
