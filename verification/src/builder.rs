use vstd::prelude::*;

use crate::amount::Fl;
use crate::build_inv::{
    amount_limit, buildable, excess_ok, inputs_fit, io_sorted, lemma_connect_inv, lemma_initial_inv,
    lemma_limit, lemma_pop_inv, lemma_spawn_one_inv, lemma_used_entry, lemma_without_producers_inv,
    rids_used, state_inv, within, without_producers,
};
use crate::build_spec::{
    add_outputs, add_producer, built_graph, connect, drain, flush, initial_state, input_nodes,
    input_requests, lemma_step_measure, pop_need, producers, recipe_of, run, spawn_all, spawn_one,
    spawn_producers, step, target_outputs, BuildState, MIN_INPUT, PRECISION,
};
use crate::graph::{edges_in_bounds, Edge, Graph, Node};
use crate::id_map::{
    has_key, keys_increasing, lemma_keys_subset_len, lemma_lookup_drop_last, lemma_map_vals_slot,
    lemma_map_vals_upsert, lemma_slot, lemma_upsert_delete, lookup, map_vals, push_to, seq_of, slot, vview,
    IdMap,
};
use crate::ids::{ItemId, RecipeId};
use crate::recipe::{checked_per_minute, per_minute, rate, Recipe, Solution, Target};
use std::collections::VecDeque;

verus! {

/// The working state of the graph construction (see `BuildState`).
struct GraphBuilder {
    nodes: Vec<Node>,
    edges: Vec<Edge>,
    rev: IdMap<Vec<RecipeId>>,
    queue: VecDeque<(ItemId, usize, Fl)>,
    spawned: IdMap<usize>,
    excess: IdMap<Vec<(usize, Fl)>>,
    inputs: IdMap<usize>,
}

impl GraphBuilder {
    spec fn st(&self) -> BuildState {
        BuildState {
            nodes: self.nodes@,
            edges: self.edges@,
            rev: vview(self.rev.entry_seq()),
            queue: self.queue@,
            spawned: self.spawned.entry_seq(),
            excess: vview(self.excess.entry_seq()),
            inputs: self.inputs.entry_seq(),
        }
    }
}

/// For each item, the recipes of `used_recipes` that produce it, in
/// increasing identifier order.
fn reverse_search(used_recipes: &IdMap<Fl>, recipes: &IdMap<Recipe>) -> (rev: IdMap<Vec<RecipeId>>)
    requires
        forall|i: int|
            0 <= i < used_recipes.entry_seq().len() ==> has_key(
                recipes.entry_seq(),
                #[trigger] used_recipes.entry_seq()[i].0,
            ),
    ensures
        vview(rev.entry_seq()) == producers(used_recipes.entry_seq(), recipes.entry_seq()),
{
    let used = used_recipes.entries();
    let ghost book = recipes.entry_seq();
    let mut rev: IdMap<Vec<RecipeId>> = IdMap::new();
    let mut i: usize = 0;
    while i < used.len()
        invariant
            0 <= i <= used.len(),
            used@ == used_recipes.entry_seq(),
            book == recipes.entry_seq(),
            forall|k: int| 0 <= k < used@.len() ==> has_key(book, #[trigger] used@[k].0),
            vview(rev.entry_seq()) == producers(used@.take(i as int), book),
        decreases used.len() - i,
    {
        let rid = used[i].0;
        assert(has_key(book, used@[i as int].0));
        let recipe = match recipes.get(rid) {
            Some(r) => r,
            None => {
                return rev;
            },
        };
        let outs = recipe.outputs.entries();
        let ghost before = vview(rev.entry_seq());
        let mut j: usize = 0;
        while j < outs.len()
            invariant
                0 <= j <= outs.len(),
                outs@ == recipe.outputs.entry_seq(),
                vview(rev.entry_seq()) == add_producer(before, outs@.take(j as int), RecipeId(rid)),
            decreases outs.len() - j,
        {
            push_to(&mut rev, outs[j].0, RecipeId(rid));
            proof {
                assert(outs@.take(j + 1).drop_last() == outs@.take(j as int));
            }
            j += 1;
        }
        proof {
            assert(outs@.take(j as int) == outs@);
            assert(used@.take(i + 1).drop_last() == used@.take(i as int));
            assert(used@.take(i + 1).last().0 == rid);
        }
        i += 1;
    }
    proof {
        assert(used@.take(i as int) == used@);
    }
    rev
}

/// The output nodes of the targets found among `outputs`, in target order,
/// and the needs they make.
fn target_nodes(targets: &[Target], outputs: &IdMap<Fl>) -> (res: (
    Vec<Node>,
    VecDeque<(ItemId, usize, Fl)>,
))
    ensures
        res.0@ == target_outputs(targets@, outputs.entry_seq()).0,
        res.1@ == target_outputs(targets@, outputs.entry_seq()).1,
{
    let mut nodes: Vec<Node> = Vec::new();
    let mut queue: VecDeque<(ItemId, usize, Fl)> = VecDeque::new();
    let mut i: usize = 0;
    while i < targets.len()
        invariant
            0 <= i <= targets.len(),
            nodes@ == target_outputs(targets@.take(i as int), outputs.entry_seq()).0,
            queue@ == target_outputs(targets@.take(i as int), outputs.entry_seq()).1,
        decreases targets.len() - i,
    {
        let t = targets[i];
        proof {
            assert(targets@.take(i + 1).drop_last() == targets@.take(i as int));
            assert(targets@.take(i + 1).last() == t);
        }
        match outputs.get(t.iid.0) {
            Some(q) => {
                queue.push_back((t.iid, nodes.len(), *q));
                nodes.push(Node::Output { iid: t.iid, amount: *q });
            },
            None => {},
        }
        i += 1;
    }
    proof {
        assert(targets@.take(i as int) == targets@);
    }
    (nodes, queue)
}

/// Adds one input node per available item; gives the index of each.
fn add_input_nodes(nodes: &mut Vec<Node>, inputs: &IdMap<Fl>) -> (res: IdMap<usize>)
    ensures
        final(nodes)@ == input_nodes(old(nodes)@, inputs.entry_seq()).0,
        res.entry_seq() == input_nodes(old(nodes)@, inputs.entry_seq()).1,
{
    let ins = inputs.entries();
    let mut map: IdMap<usize> = IdMap::new();
    let mut i: usize = 0;
    while i < ins.len()
        invariant
            0 <= i <= ins.len(),
            ins@ == inputs.entry_seq(),
            nodes@ == input_nodes(old(nodes)@, ins@.take(i as int)).0,
            map.entry_seq() == input_nodes(old(nodes)@, ins@.take(i as int)).1,
        decreases ins.len() - i,
    {
        let (iid, q) = ins[i];
        proof {
            assert(ins@.take(i + 1).drop_last() == ins@.take(i as int));
            assert(ins@.take(i + 1).last() == (iid, q));
        }
        map.insert(iid, nodes.len());
        nodes.push(Node::Input { iid: ItemId(iid), amount: q });
        i += 1;
    }
    proof {
        assert(ins@.take(i as int) == ins@);
    }
    map
}

impl GraphBuilder {
    /// Spawns each recipe of `recipe_ids` that has no node yet: adds its node,
    /// records its production as not consumed and queues its needs.
    fn spawn_recipes(
        &mut self,
        recipe_ids: &[RecipeId],
        recipes: &IdMap<Recipe>,
        used_recipes: &IdMap<Fl>,
        Ghost(outs): Ghost<Seq<(usize, Fl)>>,
    )
        requires
            state_inv(
                old(self).st(),
                used_recipes.entry_seq(),
                amount_limit(used_recipes.entry_seq().len() as int),
            ),
            rids_used(recipe_ids@, used_recipes.entry_seq()),
            inputs_fit(used_recipes.entry_seq(), outs, recipes.entry_seq()),
        ensures
            final(self).st() == spawn_all(
                old(self).st(),
                recipe_ids@,
                used_recipes.entry_seq(),
                recipes.entry_seq(),
            ),
            state_inv(
                final(self).st(),
                used_recipes.entry_seq(),
                amount_limit(used_recipes.entry_seq().len() as int),
            ),
    {
        let ghost used = used_recipes.entry_seq();
        let ghost book = recipes.entry_seq();
        let ghost lim = amount_limit(used.len() as int);
        let ghost s0 = self.st();
        proof {
            lemma_limit(used.len() as int);
        }
        let mut i: usize = 0;
        while i < recipe_ids.len()
            invariant
                0 <= i <= recipe_ids.len(),
                used == used_recipes.entry_seq(),
                book == recipes.entry_seq(),
                lim == amount_limit(used.len() as int),
                0 <= lim <= i64::MAX / 2,
                rids_used(recipe_ids@, used),
                inputs_fit(used, outs, book),
                self.st() == spawn_all(s0, recipe_ids@.take(i as int), used, book),
                state_inv(self.st(), used, lim),
            decreases recipe_ids.len() - i,
        {
            let rid = recipe_ids[i];
            proof {
                assert(recipe_ids@.take(i + 1).drop_last() == recipe_ids@.take(i as int));
                assert(recipe_ids@.take(i + 1).last() == rid);
                assert(has_key(used, recipe_ids@[i as int].0));
            }
            let ghost s = self.st();
            if !self.spawned.contains_key(rid.0) {
                let ghost goal = spawn_one(s, rid, used, book);
                proof {
                    lemma_used_entry(used, rid.0);
                }
                let amount = *used_recipes.get(rid.0).unwrap();
                let ghost k = slot(used, rid.0);
                assert(has_key(book, used[k].0));
                let recipe = recipes.get(rid.0).unwrap();
                proof {
                    use_type_invariant(&recipe.inputs);
                    use_type_invariant(&recipe.outputs);
                    assert(recipe_fits_here(*recipe, amount, lim));
                }
                let idx = self.nodes.len();
                self.nodes.push(Node::Recipe { rid, amount });
                self.spawned.insert(rid.0, idx);
                let pm = checked_per_minute(recipe.time, amount).unwrap();
                let outs_r = recipe.outputs.entries();
                let ghost ex0 = vview(self.excess.entry_seq());
                let ghost mid = self.st();
                assert(self.nodes@.len() == self.nodes.len());
                let mut j: usize = 0;
                while j < outs_r.len()
                    invariant
                        0 <= j <= outs_r.len(),
                        outs_r@ == recipe.outputs.entry_seq(),
                        recipe_fits_here(*recipe, amount, lim),
                        pm.raw() == per_minute(recipe.time, amount),
                        0 <= lim <= i64::MAX / 2,
                        vview(self.excess.entry_seq()) == add_outputs(ex0, outs_r@.take(j as int), idx, pm.raw()),
                        self.nodes@ == mid.nodes,
                        self.edges@ == mid.edges,
                        vview(self.rev.entry_seq()) == mid.rev,
                        self.queue@ == mid.queue,
                        self.spawned.entry_seq() == mid.spawned,
                        self.inputs.entry_seq() == mid.inputs,
                    decreases outs_r.len() - j,
                {
                    let (iid, q) = outs_r[j];
                    assert(within(rate(outs_r@[j as int].1, pm.raw()), lim));
                    let out = q.checked_mul(pm).unwrap();
                    push_to(&mut self.excess, iid, (idx, out));
                    proof {
                        assert(outs_r@.take(j + 1).drop_last() == outs_r@.take(j as int));
                        assert(outs_r@.take(j + 1).last() == (iid, q));
                    }
                    j += 1;
                }
                let ins_r = recipe.inputs.entries();
                let ghost q0 = self.queue@;
                let ghost mid2 = self.st();
                let mut j: usize = 0;
                while j < ins_r.len()
                    invariant
                        0 <= j <= ins_r.len(),
                        ins_r@ == recipe.inputs.entry_seq(),
                        recipe_fits_here(*recipe, amount, lim),
                        pm.raw() == per_minute(recipe.time, amount),
                        0 <= lim <= i64::MAX / 2,
                        self.queue@ == q0 + input_requests(ins_r@.take(j as int), idx, pm.raw()),
                        self.nodes@ == mid2.nodes,
                        self.edges@ == mid2.edges,
                        vview(self.rev.entry_seq()) == mid2.rev,
                        vview(self.excess.entry_seq()) == mid2.excess,
                        self.spawned.entry_seq() == mid2.spawned,
                        self.inputs.entry_seq() == mid2.inputs,
                    decreases ins_r.len() - j,
                {
                    let (iid, q) = ins_r[j];
                    assert(within(rate(ins_r@[j as int].1, pm.raw()), lim));
                    let need = q.checked_mul(pm).unwrap();
                    self.queue.push_back((ItemId(iid), idx, need));
                    proof {
                        assert(input_requests(ins_r@.take(j + 1), idx, pm.raw())
                            == input_requests(ins_r@.take(j as int), idx, pm.raw()).push((ItemId(iid), idx, need)));
                    }
                    j += 1;
                }
                proof {
                    assert(outs_r@.take(outs_r@.len() as int) == outs_r@);
                    assert(ins_r@.take(ins_r@.len() as int) == ins_r@);
                    lemma_spawn_one_inv(s, rid, used, outs, book);
                    assert(self.st() == goal);
                }
            }
            i += 1;
        }
        proof {
            assert(recipe_ids@.take(i as int) == recipe_ids@);
        }
    }
}

impl GraphBuilder {
    /// Serves a need of `qty` items `current_item_id` for node `needed_by`:
    /// from the by-products first, the last recorded first, then from the
    /// available items.
    fn connect_to_recipes(
        &mut self,
        current_item_id: ItemId,
        needed_by: usize,
        qty: Fl,
        Ghost(used): Ghost<Seq<(usize, Fl)>>,
    )
        requires
            state_inv(old(self).st(), used, amount_limit(used.len() as int)),
            keys_increasing(used),
            needed_by < old(self).nodes@.len(),
            within(qty.raw(), amount_limit(used.len() as int)),
        ensures
            final(self).st() == connect(old(self).st(), current_item_id, needed_by, qty.raw()),
            state_inv(final(self).st(), used, amount_limit(used.len() as int)),
    {
        let ghost s = self.st();
        let ghost n = used.len() as int;
        let ghost lim = amount_limit(n);
        proof {
            lemma_limit(n);
            assert forall|i: int| 0 <= i < s.spawned.len() implies has_key(used, #[trigger] s.spawned[i].0) by {
                crate::id_map::lemma_slot_of_index(s.spawned, s.spawned[i].0, i);
            }
            lemma_keys_subset_len(s.spawned, used);
            lemma_connect_inv(s, current_item_id, needed_by, qty.raw(), used, lim);
        }
        let item = current_item_id.0;
        let ghost q0 = qty.raw();
        let mut qty = qty;
        proof {
            lemma_map_vals_slot(self.excess.entry_seq(), seq_of::<(usize, Fl)>(), item);
        }
        if self.excess.contains_key(item) {
            proof {
                use_type_invariant(&self.excess);
            }
            let ghost es0 = self.excess.entry_seq();
            let mut values = self.excess.remove(item).unwrap();
            let ghost vals0 = values@;
            proof {
                lemma_map_vals_slot(es0, seq_of::<(usize, Fl)>(), item);
                lemma_map_vals_upsert(es0, seq_of::<(usize, Fl)>(), item, values);
                assert(vals0 == lookup(s.excess, item)->0);
                assert(excess_ok(vals0, s.spawned.len() as int, s.nodes.len() as int, lim));
            }
            let ghost mid = self.st();
            let ghost es_mid = self.excess.entry_seq();
            let ghost e0 = self.edges@;
            let ghost mut ne: Seq<Edge> = Seq::empty();
            let mut drop_entry = false;
            proof {
                assert((1 + vals0.len() - values@.len()) * lim == lim) by (nonlinear_arith)
                    requires
                        vals0.len() == values@.len(),
                ;
                assert((n + 2) * lim <= i64::MAX) by (nonlinear_arith)
                    requires
                        lim * (n + 2) <= i64::MAX,
                ;
                assert(e0 + ne == e0);
            }
            loop
                invariant_except_break
                    self.edges@ == e0 + ne,
                    drain(vals0, q0, current_item_id, needed_by) == ({
                        let d = drain(values@, qty.raw(), current_item_id, needed_by);
                        (d.0, d.1, ne + d.2, d.3)
                    }),
                    excess_ok(values@, s.spawned.len() as int, s.nodes.len() as int, lim),
                    values@.len() <= vals0.len(),
                    vals0.len() <= s.spawned.len() <= n,
                    0 <= lim,
                    (n + 2) * lim <= i64::MAX,
                    within(q0, lim),
                    !drop_entry,
                    values@.len() < vals0.len() ==> qty.raw() > 0,
                    values@.len() == vals0.len() ==> qty.raw() == q0,
                    qty.raw() <= (1 + vals0.len() - values@.len()) * lim,
                    self.nodes@ == mid.nodes,
                    vview(self.rev.entry_seq()) == mid.rev,
                    self.queue@ == mid.queue,
                    self.spawned.entry_seq() == mid.spawned,
                    vview(self.excess.entry_seq()) == mid.excess,
                    self.excess.entry_seq() == es_mid,
                    self.inputs.entry_seq() == mid.inputs,
                ensures
                    drain(vals0, q0, current_item_id, needed_by) == (values@, qty.raw(), ne, drop_entry),
                    self.edges@ == e0 + ne,
                    self.nodes@ == mid.nodes,
                    vview(self.rev.entry_seq()) == mid.rev,
                    self.queue@ == mid.queue,
                    self.spawned.entry_seq() == mid.spawned,
                    vview(self.excess.entry_seq()) == mid.excess,
                    self.excess.entry_seq() == es_mid,
                    self.inputs.entry_seq() == mid.inputs,
                decreases values@.len(),
            {
                if qty.0 < 0 {
                    proof {
                        assert(ne + Seq::<Edge>::empty() == ne);
                    }
                    break;
                }
                let ghost before = values@;
                let popped = values.pop();
                match popped {
                    None => {
                        drop_entry = true;
                        proof {
                            assert(ne + Seq::<Edge>::empty() == ne);
                        }
                        break;
                    },
                    Some((from, f)) => {
                        let ghost k = before.len() - 1;
                        proof {
                            assert(before[k] == (from, f));
                            assert(within(before[k].1.raw(), lim));
                            assert((1 + vals0.len() - before.len()) * lim <= (n + 1) * lim) by (nonlinear_arith)
                                requires
                                    before.len() >= 1,
                                    vals0.len() <= n,
                                    lim >= 0,
                            ;
                            assert((n + 1) * lim + lim == (n + 2) * lim) by (nonlinear_arith);
                        }
                        assert(0 <= qty.raw() <= (n + 1) * lim);
                        assert(-lim <= f.raw() <= lim);
                        let diff = f.0 - qty.0;
                        let gap = if diff < 0 { -diff } else { diff };
                        let edge_f = Edge { from, to: needed_by, iid: current_item_id, amount: f };
                        if gap <= PRECISION {
                            drop_entry = values.len() == 0;
                            self.edges.push(edge_f);
                            proof {
                                let d = drain(before, qty.raw(), current_item_id, needed_by);
                                assert(before.drop_last() == values@);
                                assert(d == (values@, 0int, seq![edge_f], values@.len() == 0));
                                ne = ne + seq![edge_f];
                            }
                            qty = Fl(0);
                            break;
                        } else if f.0 > qty.0 {
                            let edge_q = Edge { from, to: needed_by, iid: current_item_id, amount: qty };
                            values.push((from, Fl(f.0 - qty.0)));
                            self.edges.push(edge_q);
                            proof {
                                ne = ne + seq![edge_q];
                            }
                            qty = Fl(0);
                            break;
                        } else {
                            let ghost q_before = qty.raw();
                            qty = Fl(qty.0 - f.0);
                            self.edges.push(edge_f);
                            proof {
                                let r = drain(values@, qty.raw(), current_item_id, needed_by);
                                assert(seq![edge_f] + r.2 == seq![edge_f] + r.2);
                                assert(ne + (seq![edge_f] + r.2) == (ne + seq![edge_f]) + r.2);
                                ne = ne + seq![edge_f];
                                assert((1 + vals0.len() - before.len()) * lim + lim == (1 + vals0.len() - values@.len()) * lim) by (nonlinear_arith)
                                    requires
                                        values@.len() + 1 == before.len(),
                                ;
                            }
                        }
                    },
                }
            }
            let ghost vals1 = values@;
            let ghost vvec = values;
            if !drop_entry {
                let ghost before_ins = self.excess.entry_seq();
                self.excess.insert(item, values);
                proof {
                    let f = seq_of::<(usize, Fl)>();
                    assert(before_ins == crate::id_map::delete(es0, item));
                    lemma_map_vals_upsert(before_ins, f, item, vvec);
                    crate::id_map::lemma_upsert_delete(es0, item, vvec);
                    lemma_map_vals_upsert(es0, f, item, vvec);
                    assert(f(vvec) == vals1);
                    assert(self.excess.entry_seq() == crate::id_map::upsert(es0, item, vvec));
                    assert(vview(self.excess.entry_seq()) == map_vals(crate::id_map::upsert(es0, item, vvec), f));
                    assert(vview(self.excess.entry_seq()) == crate::id_map::upsert(map_vals(es0, f), item, vals1));
                }
            }
            proof {
                let dd = drain(lookup(s.excess, item)->0, q0, current_item_id, needed_by);
                assert(dd == (vals1, qty.raw(), ne, drop_entry));
                assert(qty.raw() == dd.1);
                assert(self.edges@ == s.edges + dd.2);
                if drop_entry {
                    assert(vview(self.excess.entry_seq()) == crate::id_map::delete(s.excess, item));
                } else {
                    assert(vview(self.excess.entry_seq()) == crate::id_map::upsert(s.excess, item, dd.0));
                }
            }
        }
        let ghost d = if has_key(s.excess, item) {
            drain(lookup(s.excess, item)->0, q0, current_item_id, needed_by)
        } else {
            (Seq::empty(), q0, Seq::empty(), false)
        };
        let ghost mid3 = self.st();
        assert(qty.raw() == d.1);
        assert(mid3.edges == s.edges + d.2);
        assert(mid3.excess == connect(s, current_item_id, needed_by, q0).excess);
        if qty.0 >= MIN_INPUT {
            match self.inputs.get(item) {
                Some(idx) => {
                    let e = Edge { from: *idx, to: needed_by, iid: current_item_id, amount: qty };
                    self.edges.push(e);
                    proof {
                        assert(s.edges + d.2.push(e) == (s.edges + d.2).push(e));
                    }
                },
                None => {},
            }
        }
        proof {
            assert(self.st() == connect(s, current_item_id, needed_by, q0));
        }
    }
}

/// Adds, for each item of `excess` in order whose by-products total at
/// least `MIN_EXCESS`, an excess node and the edges that feed it.
fn flush_excess(
    nodes: &mut Vec<Node>,
    edges: &mut Vec<Edge>,
    excess: &IdMap<Vec<(usize, Fl)>>,
    Ghost(n): Ghost<int>,
    Ghost(lim): Ghost<int>,
)
    requires
        0 <= lim,
        (n + 2) * lim <= i64::MAX,
        edges_in_bounds(old(nodes)@, old(edges)@),
        forall|k: usize| #[trigger]
            has_key(vview(excess.entry_seq()), k) ==> excess_ok(
                lookup(vview(excess.entry_seq()), k)->0,
                n,
                old(nodes)@.len() as int,
                lim,
            ),
    ensures
        final(nodes)@ == flush(old(nodes)@, old(edges)@, vview(excess.entry_seq())).0,
        final(edges)@ == flush(old(nodes)@, old(edges)@, vview(excess.entry_seq())).1,
        edges_in_bounds(final(nodes)@, final(edges)@),
{
    let entries = excess.entries();
    let ghost ex = vview(excess.entry_seq());
    let ghost n0 = nodes@;
    let ghost e0 = edges@;
    let mut i: usize = 0;
    while i < entries.len()
        invariant
            0 <= i <= entries.len(),
            entries@ == excess.entry_seq(),
            keys_increasing(entries@),
            ex == vview(excess.entry_seq()),
            0 <= lim,
            (n + 2) * lim <= i64::MAX,
            forall|k: usize| #[trigger]
                has_key(ex, k) ==> excess_ok(lookup(ex, k)->0, n, n0.len() as int, lim),
            nodes@ == flush(n0, e0, ex.take(i as int)).0,
            edges@ == flush(n0, e0, ex.take(i as int)).1,
            nodes@.len() >= n0.len(),
            edges_in_bounds(nodes@, edges@),
        decreases entries.len() - i,
    {
        let iid = entries[i].0;
        let list = &entries[i].1;
        proof {
            lemma_map_vals_slot(excess.entry_seq(), seq_of::<(usize, Fl)>(), iid);
            crate::id_map::lemma_slot_of_index(entries@, iid, i as int);
            assert(ex[i as int] == (iid, list@));
            assert(has_key(ex, iid));
            assert(lookup(ex, iid)->0 == list@);
            assert(ex.take(i + 1).drop_last() == ex.take(i as int));
            assert(ex.take(i + 1).last() == (iid, list@));
        }
        let ghost l = list@;
        assert(excess_ok(l, n, n0.len() as int, lim));
        let current_idx = nodes.len();
        let mut total: i64 = 0;
        let mut possible_edges: Vec<Edge> = Vec::new();
        let mut j: usize = 0;
        while j < list.len()
            invariant
                0 <= j <= list.len(),
                l == list@,
                excess_ok(l, n, n0.len() as int, lim),
                0 <= lim,
                (n + 2) * lim <= i64::MAX,
                total == crate::build_spec::sum_amounts(l.take(j as int)),
                possible_edges@ == crate::build_spec::excess_edges(l.take(j as int), current_idx, ItemId(iid)),
            decreases list.len() - j,
        {
            proof {
                assert(l.take(j + 1).drop_last() == l.take(j as int));
                assert forall|jj: int| 0 <= jj < l.take(j + 1).len() implies within((#[trigger] l.take(j + 1)[jj]).1.raw(), lim) by {
                    assert(l.take(j + 1)[jj] == l[jj]);
                    assert(within(l[jj].1.raw(), lim) && l[jj].0 < n0.len());
                }
                crate::build_inv::lemma_sum_amounts(l.take(j + 1), lim);
                assert((j + 1) * lim <= (n + 2) * lim) by (nonlinear_arith)
                    requires
                        j + 1 <= l.len(),
                        l.len() <= n,
                        lim >= 0,
                ;
                assert(l.take(j + 1).last() == l[j as int]);
                assert(crate::build_spec::sum_amounts(l.take(j + 1)) == total + l[j as int].1.raw());
            }
            let (from, amount) = list[j];
            total = total + amount.0;
            let e = Edge { from, to: current_idx, iid: ItemId(iid), amount };
            possible_edges.push(e);
            proof {
                assert(crate::build_spec::excess_edges(l.take(j + 1), current_idx, ItemId(iid))
                    == crate::build_spec::excess_edges(l.take(j as int), current_idx, ItemId(iid)).push(e));
            }
            j += 1;
        }
        proof {
            assert(l.take(j as int) == l);
        }
        if total >= crate::build_spec::MIN_EXCESS {
            let ghost before_edges = edges@;
            let ghost pe = possible_edges@;
            edges.append(&mut possible_edges);
            nodes.push(Node::Excess { iid: ItemId(iid), amount: Fl(total) });
            proof {
                assert forall|k: int| 0 <= k < edges@.len() implies (#[trigger] edges@[k]).from
                    < nodes@.len() && edges@[k].to < nodes@.len() by {
                    if k < before_edges.len() {
                        assert(edges@[k] == before_edges[k]);
                        assert(before_edges[k].from < nodes@.len() - 1 && before_edges[k].to < nodes@.len() - 1);
                    } else {
                        let jj = k - before_edges.len();
                        assert(edges@[k] == pe[jj]) by {
                            assert(edges@ == before_edges + crate::build_spec::excess_edges(l, current_idx, ItemId(iid)));
                        }
                        assert(within(l[jj].1.raw(), lim) && l[jj].0 < n0.len());
                    }
                }
            }
        }
        i += 1;
    }
    proof {
        assert(ex.take(i as int) == ex);
    }
}

/// Builds the production graph of `solution` for `targets`: an output node
/// per target that the solution produces, an input node per available item,
/// a node per recipe reached from the targets, an excess node per item left
/// over, and the flows between them.
fn build_graph(solution: &Solution, targets: &[Target], recipes: &IdMap<Recipe>) -> (g: Graph)
    requires
        buildable(*solution, *recipes),
    ensures
        g.node_seq() == built_graph(*solution, targets@, *recipes).0,
        g.edge_seq() == built_graph(*solution, targets@, *recipes).1,
{
    let used_recipes = &solution.recipes;
    let outputs = &solution.outputs;
    let inputs = &solution.inputs;
    let ghost used = used_recipes.entry_seq();
    let ghost outs = outputs.entry_seq();
    let ghost ins = inputs.entry_seq();
    let ghost book = recipes.entry_seq();
    let ghost n = used.len() as int;
    let ghost lim = amount_limit(n);
    proof {
        use_type_invariant(used_recipes);
        use_type_invariant(outputs);
        lemma_limit(n);
        assert forall|i: int| 0 <= i < used.len() implies has_key(book, #[trigger] used[i].0) by {
            assert(has_key(book, used[i].0) && crate::build_inv::recipe_fits(recipe_of(book, used[i].0), used[i].1, lim));
        }
    }
    let rev = reverse_search(used_recipes, recipes);
    let (mut nodes, queue) = target_nodes(targets, outputs);
    let ghost t_nodes = nodes@;
    let input_map = add_input_nodes(&mut nodes, inputs);
    let mut builder = GraphBuilder {
        nodes,
        edges: Vec::new(),
        rev,
        queue,
        spawned: IdMap::new(),
        excess: IdMap::new(),
        inputs: input_map,
    };
    let ghost s0 = builder.st();
    proof {
        assert(builder.nodes@.len() == builder.nodes.len());
        crate::build_inv::lemma_input_nodes_len(t_nodes, ins);
        assert(targets@.len() == targets.len());
        assert(vview(builder.excess.entry_seq()) =~= Seq::<(usize, Seq<(usize, Fl)>)>::empty());
        assert(builder.edges@ =~= Seq::<Edge>::empty());
        assert(s0 == initial_state(used, ins, outs, targets@, book));
        lemma_initial_inv(used, ins, outs, targets@, book);
    }
    while builder.queue.len() > 0
        invariant
            used == used_recipes.entry_seq(),
            book == recipes.entry_seq(),
            n == used.len(),
            lim == amount_limit(n),
            keys_increasing(used),
            inputs_fit(used, outs, book),
            state_inv(builder.st(), used, lim),
            run(builder.st(), used, book) == run(s0, used, book),
        decreases builder.st().rev.len(), builder.st().queue.len(),
    {
        let ghost s = builder.st();
        proof {
            lemma_pop_inv(s, used, lim);
            lemma_step_measure(s, used, book);
        }
        let (item, needed_by, qty) = builder.queue.pop_front().unwrap();
        let ghost p = builder.st();
        assert(p == pop_need(s));
        proof {
            lemma_map_vals_slot(builder.rev.entry_seq(), seq_of::<RecipeId>(), item.0);
        }
        if builder.rev.contains_key(item.0) {
            proof {
                use_type_invariant(&builder.rev);
                lemma_without_producers_inv(p, item.0, used, lim);
                lemma_map_vals_upsert(builder.rev.entry_seq(), seq_of::<RecipeId>(), item.0, vstd::pervasive::arbitrary());
            }
            let rids = builder.rev.remove(item.0).unwrap();
            assert(builder.st() == without_producers(p, item.0));
            builder.spawn_recipes(rids.as_slice(), recipes, used_recipes, Ghost(outs));
        }
        assert(builder.st() == spawn_producers(p, item, used, book));
        proof {
            assert(needed_by < builder.nodes@.len()) by {
                crate::build_spec::lemma_spawn_all_frame(
                    without_producers(p, item.0),
                    lookup(p.rev, item.0)->0,
                    used,
                    book,
                );
            }
        }
        builder.connect_to_recipes(item, needed_by, qty, Ghost(used));
        assert(builder.st() == step(s, used, book));
    }
    let ghost sf = builder.st();
    assert(sf == run(s0, used, book));
    proof {
        assert forall|i: int| 0 <= i < sf.spawned.len() implies has_key(used, #[trigger] sf.spawned[i].0) by {
            crate::id_map::lemma_slot_of_index(sf.spawned, sf.spawned[i].0, i);
        }
        lemma_keys_subset_len(sf.spawned, used);
        assert forall|k: usize| #[trigger] has_key(sf.excess, k) implies excess_ok(lookup(sf.excess, k)->0, n, sf.nodes.len() as int, lim) by {
            crate::build_inv::lemma_excess_ok_mono(lookup(sf.excess, k)->0, sf.spawned.len() as int, sf.nodes.len() as int, n, sf.nodes.len() as int, lim);
        }
        assert((n + 2) * lim <= i64::MAX) by (nonlinear_arith)
            requires
                lim * (n + 2) <= i64::MAX,
        ;
    }
    let GraphBuilder { nodes, edges, excess, .. } = builder;
    let mut nodes = nodes;
    let mut edges = edges;
    flush_excess(&mut nodes, &mut edges, &excess, Ghost(n), Ghost(lim));
    Graph::from_parts(nodes, edges)
}

impl Graph {
    /// The production graph of `solution` for `targets`, with the recipes of
    /// `recipes`.
    pub fn build_from_solution(solution: &Solution, targets: &[Target], recipes: &IdMap<Recipe>) -> (res: Graph)
        requires
            buildable(*solution, *recipes),
        ensures
            res.node_seq() == built_graph(*solution, targets@, *recipes).0,
            res.edge_seq() == built_graph(*solution, targets@, *recipes).1,
    {
        build_graph(solution, targets, recipes)
    }
}

/// Whether every flow in `io` for `per_min` runs per minute lies within
/// `lim`.
fn flows_within(io: &[(usize, Fl)], per_min: Fl, lim: i64) -> (res: bool)
    requires
        0 <= lim,
    ensures
        res == forall|j: int| 0 <= j < io@.len() ==> within(rate((#[trigger] io@[j]).1, per_min.raw()), lim as int),
{
    let mut j: usize = 0;
    while j < io.len()
        invariant
            0 <= j <= io.len(),
            0 <= lim,
            forall|jj: int| 0 <= jj < j ==> within(rate((#[trigger] io@[jj]).1, per_min.raw()), lim as int),
        decreases io.len() - j,
    {
        let (_, q) = io[j];
        match q.checked_mul(per_min) {
            None => {
                assert(!within(rate(io@[j as int].1, per_min.raw()), lim as int));
                return false;
            },
            Some(x) => {
                if x.0 < -lim || x.0 > lim {
                    assert(!within(rate(io@[j as int].1, per_min.raw()), lim as int));
                    return false;
                }
            },
        }
        j += 1;
    }
    true
}

/// Whether recipe `r` run by `amount` buildings fits within `lim` (see
/// `recipe_fits`).
fn recipe_within(r: &Recipe, amount: Fl, lim: i64) -> (res: bool)
    requires
        0 <= lim,
    ensures
        res == crate::build_inv::recipe_fits(*r, amount, lim as int),
{
    let pm = match checked_per_minute(r.time, amount) {
        None => {
            return false;
        },
        Some(p) => p,
    };
    let ins = r.inputs.entries();
    let outs = r.outputs.entries();
    let a = flows_within(ins, pm, lim);
    let b = flows_within(outs, pm, lim);
    a && b
}

/// Whether the graph of `solution` can be built with the recipes of
/// `recipes` (see `buildable`).
pub fn is_buildable(solution: &Solution, recipes: &IdMap<Recipe>) -> (res: bool)
    ensures
        res == buildable(*solution, *recipes),
{
    let used = solution.recipes.entries();
    let outs = solution.outputs.entries();
    let ghost book = recipes.entry_seq();
    let n = used.len();
    let lim_wide: u128 = (i64::MAX as u128) / ((n as u128) + 2);
    assert(lim_wide == amount_limit(n as int));
    proof {
        lemma_limit(n as int);
    }
    let lim: i64 = lim_wide as i64;
    let mut i: usize = 0;
    while i < used.len()
        invariant
            0 <= i <= used.len(),
            used@ == solution.recipes.entry_seq(),
            book == recipes.entry_seq(),
            lim == amount_limit(used@.len() as int),
            0 <= lim,
            forall|ii: int|
                0 <= ii < i ==> has_key(book, #[trigger] used@[ii].0) && crate::build_inv::recipe_fits(
                    recipe_of(book, used@[ii].0),
                    used@[ii].1,
                    lim as int,
                ),
        decreases used.len() - i,
    {
        let (rid, amount) = used[i];
        match recipes.get(rid) {
            None => {
                return false;
            },
            Some(r) => {
                if !recipe_within(r, amount, lim) {
                    return false;
                }
            },
        }
        i += 1;
    }
    let mut j: usize = 0;
    while j < outs.len()
        invariant
            0 <= j <= outs.len(),
            outs@ == solution.outputs.entry_seq(),
            used@ == solution.recipes.entry_seq(),
            lim == amount_limit(used@.len() as int),
            0 <= lim,
            forall|jj: int| 0 <= jj < j ==> within((#[trigger] outs@[jj]).1.raw(), lim as int),
        decreases outs.len() - j,
    {
        let v = outs[j].1;
        if v.0 < -lim || v.0 > lim {
            assert(!within(outs@[j as int].1.raw(), lim as int));
            return false;
        }
        j += 1;
    }
    true
}

impl Graph {
    /// The production graph of `solution` for `targets`, with the recipes of
    /// `recipes`; `None` when it cannot be built (see `buildable`): a recipe
    /// of the solution missing from `recipes` or taking no time, or an amount
    /// too large to be handled.
    pub fn try_build_from_solution(solution: &Solution, targets: &[Target], recipes: &IdMap<Recipe>) -> (res: Option<Graph>)
        ensures
            res is Some <==> buildable(*solution, *recipes),
            res matches Some(g) ==> g.node_seq() == built_graph(*solution, targets@, *recipes).0
                && g.edge_seq() == built_graph(*solution, targets@, *recipes).1,
    {
        if is_buildable(solution, recipes) {
            Some(build_graph(solution, targets, recipes))
        } else {
            None
        }
    }
}

/// `recipe_fits` for a recipe in hand, with its item lists sorted.
spec fn recipe_fits_here(r: Recipe, amount: Fl, lim: int) -> bool {
    &&& crate::build_inv::recipe_fits(r, amount, lim)
    &&& io_sorted(r)
}

} // verus!
