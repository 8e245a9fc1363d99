use vstd::prelude::*;

use crate::amount::Fl;
use crate::build_inv::{
    book_sorted, buildable, io_sorted, lemma_book_entry, lemma_initial_inv, lemma_run_grows,
    lemma_run_inv, lemma_step_inv, lemma_used_entry, state_inv, amount_limit, inputs_fit,
};
use crate::build_spec::{
    add_outputs, amount_of, built_graph, connect, drain, flush, initial_state, input_nodes,
    input_requests, lemma_spawn_all_frame, lemma_step_measure, pop_need, recipe_of, run, spawn_all, spawn_one,
    spawn_producers, step, target_outputs, BuildState,
};
use crate::graph::{edges_in_bounds, Edge, Node};
use crate::sort_nodes::{children_of, lemma_sorted_levels_laws, parents_of, sortable, sorted_levels, sorted_max};
use crate::id_map::{
    delete, entries_or_empty, has_key, keys_increasing, lemma_delete, lemma_slot, lemma_slot_of_index,
    lemma_upsert, lookup, slot, upsert, IdMap,
};
use crate::ids::{ItemId, RecipeId};
use crate::recipe::{Recipe, Solution, Target};

verus! {

/// Node `n` can hand out item `iid`: a recipe that produces it, or the
/// input node of that item.
pub open spec fn supplies(n: Node, iid: ItemId, book: Seq<(usize, Recipe)>) -> bool {
    match n {
        Node::Recipe { rid, .. } => has_key(recipe_of(book, rid.0).outputs.entry_seq(), iid.0),
        Node::Input { iid: i, .. } => i == iid,
        _ => false,
    }
}

/// Node `n` can take in item `iid`: a recipe that consumes it, or the output
/// or excess node of that item.
pub open spec fn takes(n: Node, iid: ItemId, book: Seq<(usize, Recipe)>) -> bool {
    match n {
        Node::Recipe { rid, .. } => has_key(recipe_of(book, rid.0).inputs.entry_seq(), iid.0),
        Node::Output { iid: i, .. } => i == iid,
        Node::Excess { iid: i, .. } => i == iid,
        Node::Input { .. } => false,
    }
}

/// Edge `e` joins two nodes of `nodes`, and carries an item that the first
/// hands out and the second takes in.
pub open spec fn edge_ok(nodes: Seq<Node>, e: Edge, book: Seq<(usize, Recipe)>) -> bool {
    &&& e.from < nodes.len()
    &&& e.to < nodes.len()
    &&& supplies(nodes[e.from as int], e.iid, book)
    &&& takes(nodes[e.to as int], e.iid, book)
}

/// A node built before the by-products are flushed: a recipe of the solution
/// with its amount and its entry in `spawned`, or an input or output node of
/// the solution with its amount.
pub open spec fn node_ok(
    n: Node,
    i: int,
    spawned: Seq<(usize, usize)>,
    used: Seq<(usize, Fl)>,
    ins: Seq<(usize, Fl)>,
    outs: Seq<(usize, Fl)>,
) -> bool {
    match n {
        Node::Recipe { rid, amount } => has_key(used, rid.0) && amount == amount_of(used, rid.0)
            && lookup(spawned, rid.0) == Some(i as usize),
        Node::Input { iid, amount } => has_key(ins, iid.0) && amount == amount_of(ins, iid.0),
        Node::Output { iid, amount } => has_key(outs, iid.0) && amount == amount_of(outs, iid.0),
        Node::Excess { .. } => false,
    }
}

/// What the construction keeps of its nodes, edges, by-products and needs.
pub open spec fn kinds_inv(
    s: BuildState,
    used: Seq<(usize, Fl)>,
    ins: Seq<(usize, Fl)>,
    outs: Seq<(usize, Fl)>,
    book: Seq<(usize, Recipe)>,
) -> bool {
    &&& forall|i: int| 0 <= i < s.nodes.len() ==> node_ok(#[trigger] s.nodes[i], i, s.spawned, used, ins, outs)
    &&& forall|i: int| 0 <= i < s.edges.len() ==> edge_ok(s.nodes, #[trigger] s.edges[i], book)
    &&& forall|k: usize, j: int| #![trigger lookup(s.excess, k), (lookup(s.excess, k)->0)[j]]
        has_key(s.excess, k) && 0 <= j < (lookup(s.excess, k)->0).len() ==> {
            let from = (lookup(s.excess, k)->0)[j].0;
            from < s.nodes.len() && supplies(s.nodes[from as int], ItemId(k), book)
        }
    &&& forall|i: int| 0 <= i < s.queue.len() ==> {
        let (item, to, q) = #[trigger] s.queue[i];
        to < s.nodes.len() && takes(s.nodes[to as int], item, book)
    }
    &&& forall|k: usize| #[trigger] has_key(s.inputs, k) ==> {
        let v = lookup(s.inputs, k)->0;
        v < s.nodes.len() && supplies(s.nodes[v as int], ItemId(k), book)
    }
    &&& forall|k: usize| #[trigger] has_key(s.spawned, k) ==> {
        let v = lookup(s.spawned, k)->0;
        v < s.nodes.len() && s.nodes[v as int] is Recipe && s.nodes[v as int]->rid.0 == k
    }
}

pub proof fn lemma_kinds_targets(targets: Seq<Target>, outs: Seq<(usize, Fl)>)
    requires
        targets.len() <= usize::MAX,
    ensures
        target_outputs(targets, outs).0.len() <= targets.len(),
        forall|i: int| 0 <= i < target_outputs(targets, outs).0.len() ==> {
            let n = #[trigger] target_outputs(targets, outs).0[i];
            n is Output && has_key(outs, n->Output_iid.0) && n->Output_amount == amount_of(outs, n->Output_iid.0)
        },
        forall|i: int| 0 <= i < target_outputs(targets, outs).1.len() ==> {
            let (item, to, q) = #[trigger] target_outputs(targets, outs).1[i];
            to < target_outputs(targets, outs).0.len() && target_outputs(targets, outs).0[to as int]
                == Node::Output { iid: item, amount: q }
        },
    decreases targets.len(),
{
    if targets.len() > 0 {
        lemma_kinds_targets(targets.drop_last(), outs);
        let prev = target_outputs(targets.drop_last(), outs);
        let r = target_outputs(targets, outs);
        let t = targets.last();
        if has_key(outs, t.iid.0) {
            assert forall|i: int| 0 <= i < r.0.len() implies {
                let n = #[trigger] r.0[i];
                n is Output && has_key(outs, n->Output_iid.0) && n->Output_amount == amount_of(outs, n->Output_iid.0)
            } by {
                if i < prev.0.len() {
                    assert(r.0[i] == prev.0[i]);
                }
            }
            assert forall|i: int| 0 <= i < r.1.len() implies {
                let (item, to, q) = #[trigger] r.1[i];
                to < r.0.len() && r.0[to as int] == Node::Output { iid: item, amount: q }
            } by {
                if i < prev.1.len() {
                    assert(r.1[i] == prev.1[i]);
                    let (item, to, q) = prev.1[i];
                    assert(r.0[to as int] == prev.0[to as int]);
                }
            }
        } else {
            assert(r == prev);
        }
    }
}

pub proof fn lemma_kinds_inputs(nodes: Seq<Node>, ins: Seq<(usize, Fl)>)
    requires
        keys_increasing(ins),
        nodes.len() + ins.len() <= usize::MAX,
    ensures
        input_nodes(nodes, ins).0.len() == nodes.len() + ins.len(),
        input_nodes(nodes, ins).0.subrange(0, nodes.len() as int) == nodes,
        forall|i: int| nodes.len() <= i < input_nodes(nodes, ins).0.len() ==> {
            let n = #[trigger] input_nodes(nodes, ins).0[i];
            n is Input && has_key(ins, n->Input_iid.0) && n->Input_amount == amount_of(ins, n->Input_iid.0)
        },
        forall|k: usize| #[trigger] has_key(input_nodes(nodes, ins).1, k) ==> {
            let v = lookup(input_nodes(nodes, ins).1, k)->0;
            nodes.len() <= v < input_nodes(nodes, ins).0.len() && input_nodes(nodes, ins).0[v as int] is Input
                && input_nodes(nodes, ins).0[v as int]->Input_iid == ItemId(k)
        },
        keys_increasing(input_nodes(nodes, ins).1),
    decreases ins.len(),
{
    if ins.len() > 0 {
        let d = ins.drop_last();
        crate::id_map::lemma_lookup_drop_last(ins, 0);
        lemma_kinds_inputs(nodes, d);
        let p = input_nodes(nodes, d);
        let r = input_nodes(nodes, ins);
        let (iid, q) = ins.last();
        lemma_upsert(p.1, iid, p.0.len() as usize);
        assert(r.0.subrange(0, nodes.len() as int) =~= p.0.subrange(0, nodes.len() as int));
        assert forall|i: int| nodes.len() <= i < r.0.len() implies {
            let n = #[trigger] r.0[i];
            n is Input && has_key(ins, n->Input_iid.0) && n->Input_amount == amount_of(ins, n->Input_iid.0)
        } by {
            if i < p.0.len() {
                assert(r.0[i] == p.0[i]);
                let n = p.0[i];
                crate::id_map::lemma_lookup_drop_last(ins, n->Input_iid.0);
                if n->Input_iid.0 == iid {
                    crate::id_map::lemma_has_key(d, iid);
                    let j = choose|j: int| 0 <= j < d.len() && #[trigger] d[j].0 == iid;
                    assert(ins[j].0 < ins[ins.len() - 1].0);
                }
            } else {
                crate::id_map::lemma_lookup_drop_last(ins, iid);
            }
        }
        assert forall|k: usize| #[trigger] has_key(r.1, k) implies {
            let v = lookup(r.1, k)->0;
            nodes.len() <= v < r.0.len() && r.0[v as int] is Input && r.0[v as int]->Input_iid == ItemId(k)
        } by {
            if k != iid {
                assert(lookup(r.1, k) == lookup(p.1, k));
                let v = lookup(p.1, k)->0;
                assert(r.0[v as int] == p.0[v as int]);
            }
        }
    }
}

pub proof fn lemma_kinds_initial(
    used: Seq<(usize, Fl)>,
    ins: Seq<(usize, Fl)>,
    outs: Seq<(usize, Fl)>,
    targets: Seq<Target>,
    book: Seq<(usize, Recipe)>,
)
    requires
        keys_increasing(ins),
        targets.len() <= usize::MAX,
        target_outputs(targets, outs).0.len() + ins.len() <= usize::MAX,
    ensures
        kinds_inv(initial_state(used, ins, outs, targets, book), used, ins, outs, book),
{
    let s = initial_state(used, ins, outs, targets, book);
    let t = target_outputs(targets, outs);
    lemma_kinds_targets(targets, outs);
    lemma_kinds_inputs(t.0, ins);
    assert forall|i: int| 0 <= i < s.nodes.len() implies node_ok(#[trigger] s.nodes[i], i, s.spawned, used, ins, outs) by {
        if i < t.0.len() {
            assert(s.nodes[i] == s.nodes.subrange(0, t.0.len() as int)[i]);
            assert(s.nodes[i] == t.0[i]);
        }
    }
    assert forall|i: int| 0 <= i < s.queue.len() implies {
        let (item, to, q) = #[trigger] s.queue[i];
        to < s.nodes.len() && takes(s.nodes[to as int], item, book)
    } by {
        let (item, to, q) = s.queue[i];
        assert(t.0[to as int] == Node::Output { iid: item, amount: q });
        assert(s.nodes[to as int] == s.nodes.subrange(0, t.0.len() as int)[to as int]);
    }
    assert forall|k: usize| #[trigger] has_key(s.spawned, k) implies false by {
        lemma_slot(s.spawned, k);
    }
    assert forall|k: usize, j: int| #![trigger lookup(s.excess, k), (lookup(s.excess, k)->0)[j]]
        has_key(s.excess, k) && 0 <= j < (lookup(s.excess, k)->0).len() implies false by {
        lemma_slot(s.excess, k);
    }
}

/// Every by-product of `l` comes from a node of `nodes` that hands out `item`.
pub open spec fn from_suppliers(l: Seq<(usize, Fl)>, nodes: Seq<Node>, item: ItemId, book: Seq<(usize, Recipe)>) -> bool {
    forall|j: int| 0 <= j < l.len() ==> (#[trigger] l[j]).0 < nodes.len() && supplies(nodes[l[j].0 as int], item, book)
}

pub proof fn lemma_kinds_spawn_one(
    s: BuildState,
    rid: crate::ids::RecipeId,
    used: Seq<(usize, Fl)>,
    ins: Seq<(usize, Fl)>,
    outs: Seq<(usize, Fl)>,
    book: Seq<(usize, Recipe)>,
)
    requires
        kinds_inv(s, used, ins, outs, book),
        keys_increasing(s.spawned),
        keys_increasing(s.excess),
        has_key(used, rid.0),
        io_sorted(recipe_of(book, rid.0)),
        !has_key(s.spawned, rid.0) ==> s.nodes.len() < usize::MAX,
    ensures
        kinds_inv(spawn_one(s, rid, used, book), used, ins, outs, book),
{
    if !has_key(s.spawned, rid.0) {
        let r = spawn_one(s, rid, used, book);
        let recipe = recipe_of(book, rid.0);
        let idx = s.nodes.len() as usize;
        let pm = crate::recipe::per_minute(recipe.time, amount_of(used, rid.0));
        let rins = recipe.inputs.entry_seq();
        let routs = recipe.outputs.entry_seq();
        lemma_upsert(s.spawned, rid.0, idx);
        crate::build_inv::lemma_add_outputs(s.excess, routs, idx, pm);
        assert forall|i: int| 0 <= i < s.nodes.len() implies r.nodes[i] == s.nodes[i] by {}
        assert forall|i: int| 0 <= i < r.nodes.len() implies node_ok(#[trigger] r.nodes[i], i, r.spawned, used, ins, outs) by {
            if i < s.nodes.len() {
                assert(node_ok(s.nodes[i], i, s.spawned, used, ins, outs));
                if s.nodes[i] is Recipe {
                    let k = s.nodes[i]->rid.0;
                    assert(lookup(s.spawned, k) == Some(i as usize));
                    assert(k != rid.0);
                    assert(lookup(r.spawned, k) == lookup(s.spawned, k));
                }
            }
        }
        assert forall|i: int| 0 <= i < r.edges.len() implies edge_ok(r.nodes, #[trigger] r.edges[i], book) by {
            assert(edge_ok(s.nodes, s.edges[i], book));
        }
        assert forall|k: usize, j: int| #![trigger lookup(r.excess, k), (lookup(r.excess, k)->0)[j]]
            has_key(r.excess, k) && 0 <= j < (lookup(r.excess, k)->0).len() implies {
                let from = (lookup(r.excess, k)->0)[j].0;
                from < r.nodes.len() && supplies(r.nodes[from as int], ItemId(k), book)
            } by {
            let l = lookup(r.excess, k)->0;
            if has_key(routs, k) {
                let old = entries_or_empty(s.excess, k);
                if j < old.len() {
                    assert(l[j] == old[j]);
                    assert(has_key(s.excess, k));
                    let from = (lookup(s.excess, k)->0)[j].0;
                    assert(from < s.nodes.len() && supplies(s.nodes[from as int], ItemId(k), book));
                }
            } else {
                assert(lookup(r.excess, k) == lookup(s.excess, k));
                let from = (lookup(s.excess, k)->0)[j].0;
                assert(from < s.nodes.len() && supplies(s.nodes[from as int], ItemId(k), book));
            }
        }
        assert forall|i: int| 0 <= i < r.queue.len() implies {
            let (item, to, q) = #[trigger] r.queue[i];
            to < r.nodes.len() && takes(r.nodes[to as int], item, book)
        } by {
            if i < s.queue.len() {
                assert(r.queue[i] == s.queue[i]);
                let (item, to, q) = s.queue[i];
                assert(to < s.nodes.len() && takes(s.nodes[to as int], item, book));
            } else {
                let j = i - s.queue.len();
                assert(r.queue[i] == input_requests(rins, idx, pm)[j]);
                lemma_slot_of_index(rins, rins[j].0, j);
            }
        }
        assert forall|k: usize| #[trigger] has_key(r.inputs, k) implies {
            let v = lookup(r.inputs, k)->0;
            v < r.nodes.len() && supplies(r.nodes[v as int], ItemId(k), book)
        } by {
            let v = lookup(s.inputs, k)->0;
            assert(v < s.nodes.len() && supplies(s.nodes[v as int], ItemId(k), book));
        }
        assert forall|k: usize| #[trigger] has_key(r.spawned, k) implies {
            let v = lookup(r.spawned, k)->0;
            v < r.nodes.len() && r.nodes[v as int] is Recipe && r.nodes[v as int]->rid.0 == k
        } by {
            if k != rid.0 {
                assert(lookup(r.spawned, k) == lookup(s.spawned, k));
                let v = lookup(s.spawned, k)->0;
                assert(v < s.nodes.len() && s.nodes[v as int] is Recipe && s.nodes[v as int]->rid.0 == k);
            }
        }
    }
}

pub proof fn lemma_kinds_spawn_all(
    s: BuildState,
    rids: Seq<crate::ids::RecipeId>,
    used: Seq<(usize, Fl)>,
    ins: Seq<(usize, Fl)>,
    outs: Seq<(usize, Fl)>,
    book: Seq<(usize, Recipe)>,
)
    requires
        kinds_inv(s, used, ins, outs, book),
        state_inv(s, used, amount_limit(used.len() as int)),
        crate::build_inv::rids_used(rids, used),
        inputs_fit(used, outs, book),
        forall|j: int| 0 <= j < rids.len() ==> io_sorted(recipe_of(book, (#[trigger] rids[j]).0)),
        spawn_all(s, rids, used, book).nodes.len() <= usize::MAX,
    ensures
        kinds_inv(spawn_all(s, rids, used, book), used, ins, outs, book),
    decreases rids.len(),
{
    if rids.len() > 0 {
        let d = rids.drop_last();
        let p = spawn_all(s, d, used, book);
        crate::build_inv::lemma_spawn_one_frame(p, rids.last(), used, book);
        assert(crate::build_inv::rids_used(d, used)) by {
            assert forall|j: int| 0 <= j < d.len() implies has_key(used, #[trigger] d[j].0) by {
                assert(d[j] == rids[j]);
            }
        }
        assert forall|j: int| 0 <= j < d.len() implies io_sorted(recipe_of(book, (#[trigger] d[j]).0)) by {
            assert(d[j] == rids[j]);
        }
        lemma_kinds_spawn_all(s, d, used, ins, outs, book);
        crate::build_inv::lemma_spawn_all_inv(s, d, used, outs, book);
        assert(has_key(used, rids[rids.len() - 1].0));
        assert(io_sorted(recipe_of(book, rids[rids.len() - 1].0)));
        lemma_kinds_spawn_one(p, rids.last(), used, ins, outs, book);
    }
}

pub proof fn lemma_kinds_drain(
    vals: Seq<(usize, Fl)>,
    q: int,
    item: ItemId,
    to: usize,
    nodes: Seq<Node>,
    book: Seq<(usize, Recipe)>,
)
    requires
        from_suppliers(vals, nodes, item, book),
        to < nodes.len(),
        takes(nodes[to as int], item, book),
    ensures
        from_suppliers(drain(vals, q, item, to).0, nodes, item, book),
        forall|i: int| 0 <= i < drain(vals, q, item, to).2.len() ==> edge_ok(nodes, #[trigger] drain(vals, q, item, to).2[i], book)
            && drain(vals, q, item, to).2[i].iid == item,
    decreases vals.len(),
{
    if q >= 0 && vals.len() > 0 {
        let (from, f) = vals.last();
        let rest = vals.drop_last();
        assert(vals[vals.len() - 1].0 < nodes.len() && supplies(nodes[vals[vals.len() - 1].0 as int], item, book));
        assert(from_suppliers(rest, nodes, item, book)) by {
            assert forall|j: int| 0 <= j < rest.len() implies (#[trigger] rest[j]).0 < nodes.len() && supplies(nodes[rest[j].0 as int], item, book) by {
                assert(rest[j] == vals[j]);
                assert(vals[j].0 < nodes.len() && supplies(nodes[vals[j].0 as int], item, book));
            }
        }
        let d = drain(vals, q, item, to);
        if crate::build_spec::abs(f.raw() - q) <= crate::build_spec::PRECISION {
        } else if f.raw() > q {
            let nv = rest.push((from, Fl((f.raw() - q) as i64)));
            assert forall|j: int| 0 <= j < nv.len() implies (#[trigger] nv[j]).0 < nodes.len() && supplies(nodes[nv[j].0 as int], item, book) by {
                if j < rest.len() {
                    assert(nv[j] == rest[j]);
                    assert(rest[j].0 < nodes.len() && supplies(nodes[rest[j].0 as int], item, book));
                }
            }
        } else {
            lemma_kinds_drain(rest, q - f.raw(), item, to, nodes, book);
            let r = drain(rest, q - f.raw(), item, to);
            let e = seq![Edge { from, to, iid: item, amount: f }];
            assert forall|i: int| 0 <= i < d.2.len() implies edge_ok(nodes, #[trigger] d.2[i], book) && d.2[i].iid == item by {
                if i == 0 {
                    assert(d.2[0] == e[0]);
                } else {
                    assert(d.2[i] == r.2[i - 1]);
                    assert(edge_ok(nodes, r.2[i - 1], book) && r.2[i - 1].iid == item);
                }
            }
        }
    }
}

pub proof fn lemma_kinds_connect(
    s: BuildState,
    item: ItemId,
    to: usize,
    q: int,
    used: Seq<(usize, Fl)>,
    ins: Seq<(usize, Fl)>,
    outs: Seq<(usize, Fl)>,
    book: Seq<(usize, Recipe)>,
)
    requires
        kinds_inv(s, used, ins, outs, book),
        keys_increasing(s.excess),
        to < s.nodes.len(),
        takes(s.nodes[to as int], item, book),
    ensures
        kinds_inv(connect(s, item, to, q), used, ins, outs, book),
{
    let r = connect(s, item, to, q);
    let d = if has_key(s.excess, item.0) {
        drain(lookup(s.excess, item.0)->0, q, item, to)
    } else {
        (Seq::empty(), q, Seq::empty(), false)
    };
    assert(ItemId(item.0) == item);
    if has_key(s.excess, item.0) {
        let vals = lookup(s.excess, item.0)->0;
        assert(from_suppliers(vals, s.nodes, item, book)) by {
            assert forall|j: int| 0 <= j < vals.len() implies (#[trigger] vals[j]).0 < s.nodes.len() && supplies(s.nodes[vals[j].0 as int], item, book) by {
                let from = (lookup(s.excess, item.0)->0)[j].0;
                assert(from < s.nodes.len() && supplies(s.nodes[from as int], ItemId(item.0), book));
            }
        }
        lemma_kinds_drain(vals, q, item, to, s.nodes, book);
        lemma_upsert(s.excess, item.0, d.0);
        lemma_delete(s.excess, item.0);
        assert forall|k: usize, j: int| #![trigger lookup(r.excess, k), (lookup(r.excess, k)->0)[j]]
            has_key(r.excess, k) && 0 <= j < (lookup(r.excess, k)->0).len() implies {
                let from = (lookup(r.excess, k)->0)[j].0;
                from < r.nodes.len() && supplies(r.nodes[from as int], ItemId(k), book)
            } by {
            if k == item.0 {
                assert(lookup(r.excess, k)->0 == d.0);
                assert(d.0[j].0 < s.nodes.len() && supplies(s.nodes[d.0[j].0 as int], item, book));
            } else {
                assert(lookup(r.excess, k) == lookup(s.excess, k));
                let from = (lookup(s.excess, k)->0)[j].0;
                assert(from < s.nodes.len() && supplies(s.nodes[from as int], ItemId(k), book));
            }
        }
    }
    let es = if d.1 >= crate::build_spec::MIN_INPUT && has_key(s.inputs, item.0) {
        d.2.push(Edge { from: lookup(s.inputs, item.0)->0, to, iid: item, amount: Fl(d.1 as i64) })
    } else {
        d.2
    };
    assert forall|i: int| 0 <= i < es.len() implies edge_ok(s.nodes, #[trigger] es[i], book) by {
        if i < d.2.len() {
            assert(es[i] == d.2[i]);
            assert(edge_ok(s.nodes, d.2[i], book));
        } else {
            let v = lookup(s.inputs, item.0)->0;
            assert(v < s.nodes.len() && supplies(s.nodes[v as int], ItemId(item.0), book));
        }
    }
    assert forall|i: int| 0 <= i < r.edges.len() implies edge_ok(r.nodes, #[trigger] r.edges[i], book) by {
        if i < s.edges.len() {
            assert(r.edges[i] == s.edges[i]);
            assert(edge_ok(s.nodes, s.edges[i], book));
        } else {
            assert(r.edges[i] == es[i - s.edges.len()]);
        }
    }
}

pub proof fn lemma_kinds_step(
    s: BuildState,
    used: Seq<(usize, Fl)>,
    ins: Seq<(usize, Fl)>,
    outs: Seq<(usize, Fl)>,
    book: Seq<(usize, Recipe)>,
)
    requires
        kinds_inv(s, used, ins, outs, book),
        state_inv(s, used, amount_limit(used.len() as int)),
        s.queue.len() > 0,
        inputs_fit(used, outs, book),
        book_sorted(book),
        step(s, used, book).nodes.len() <= usize::MAX,
    ensures
        kinds_inv(step(s, used, book), used, ins, outs, book),
{
    let lim = amount_limit(used.len() as int);
    crate::build_inv::lemma_limit(used.len() as int);
    let (item, to, q) = s.queue[0];
    crate::build_inv::lemma_pop_inv(s, used, lim);
    let p = pop_need(s);
    assert(to < s.nodes.len() && takes(s.nodes[to as int], item, book));
    assert(kinds_inv(p, used, ins, outs, book)) by {
        assert forall|i: int| 0 <= i < p.queue.len() implies {
            let (item2, to2, q2) = #[trigger] p.queue[i];
            to2 < p.nodes.len() && takes(p.nodes[to2 as int], item2, book)
        } by {
            assert(p.queue[i] == s.queue[i + 1]);
            let (item2, to2, q2) = s.queue[i + 1];
            assert(to2 < s.nodes.len() && takes(s.nodes[to2 as int], item2, book));
        }
    }
    let sp = spawn_producers(p, item, used, book);
    if has_key(p.rev, item.0) {
        let t = crate::build_inv::without_producers(p, item.0);
        let rids = lookup(p.rev, item.0)->0;
        crate::build_inv::lemma_without_producers_inv(p, item.0, used, lim);
        assert forall|j: int| 0 <= j < rids.len() implies io_sorted(recipe_of(book, (#[trigger] rids[j]).0)) by {
            assert(has_key(used, rids[j].0));
            lemma_used_entry(used, rids[j].0);
            let i = slot(used, rids[j].0);
            assert(has_key(book, used[i].0));
            lemma_book_entry(book, rids[j].0);
        }
        crate::build_inv::lemma_spawn_all_frame2(t, rids, used, book);
        crate::build_spec::lemma_spawn_all_frame(t, rids, used, book);
        crate::build_inv::lemma_spawn_all_inv(t, rids, used, outs, book);
        lemma_kinds_spawn_all(t, rids, used, ins, outs, book);
        assert(sp.nodes[to as int] == sp.nodes.subrange(0, t.nodes.len() as int)[to as int]);
    }
    assert(state_inv(sp, used, lim));
    lemma_kinds_connect(sp, item, to, q.raw(), used, ins, outs, book);
}

pub proof fn lemma_kinds_run(
    s: BuildState,
    used: Seq<(usize, Fl)>,
    ins: Seq<(usize, Fl)>,
    outs: Seq<(usize, Fl)>,
    book: Seq<(usize, Recipe)>,
)
    requires
        kinds_inv(s, used, ins, outs, book),
        state_inv(s, used, amount_limit(used.len() as int)),
        inputs_fit(used, outs, book),
        book_sorted(book),
        run(s, used, book).nodes.len() <= usize::MAX,
    ensures
        kinds_inv(run(s, used, book), used, ins, outs, book),
    decreases s.rev.len(), s.queue.len(),
{
    if s.queue.len() > 0 {
        lemma_step_measure(s, used, book);
        lemma_run_grows(s, used, book);
        lemma_step_inv(s, used, outs, book);
        lemma_kinds_step(s, used, ins, outs, book);
        lemma_kinds_run(step(s, used, book), used, ins, outs, book);
    }
}

/// The total amount carried by the edges of `es` that enter node `x`.
pub open spec fn in_total(es: Seq<Edge>, x: int) -> int
    decreases es.len(),
{
    if es.len() == 0 {
        0
    } else {
        in_total(es.drop_last(), x) + (if es.last().to == x {
            es.last().amount.raw()
        } else {
            0
        })
    }
}

pub proof fn lemma_in_total_concat(a: Seq<Edge>, b: Seq<Edge>, x: int)
    ensures
        in_total(a + b, x) == in_total(a, x) + in_total(b, x),
    decreases b.len(),
{
    if b.len() == 0 {
        assert(a + b == a);
    } else {
        assert((a + b).drop_last() == a + b.drop_last());
        lemma_in_total_concat(a, b.drop_last(), x);
    }
}

pub proof fn lemma_in_total_none(es: Seq<Edge>, x: int)
    requires
        forall|i: int| 0 <= i < es.len() ==> (#[trigger] es[i]).to != x,
    ensures
        in_total(es, x) == 0,
    decreases es.len(),
{
    if es.len() > 0 {
        let d = es.drop_last();
        assert forall|i: int| 0 <= i < d.len() implies (#[trigger] d[i]).to != x by {
            assert(d[i] == es[i]);
        }
        lemma_in_total_none(d, x);
    }
}

pub proof fn lemma_in_total_excess(l: Seq<(usize, Fl)>, x: usize, iid: ItemId)
    ensures
        in_total(crate::build_spec::excess_edges(l, x, iid), x as int) == crate::build_spec::sum_amounts(l),
    decreases l.len(),
{
    if l.len() > 0 {
        let es = crate::build_spec::excess_edges(l, x, iid);
        assert(es.drop_last() == crate::build_spec::excess_edges(l.drop_last(), x, iid));
        lemma_in_total_excess(l.drop_last(), x, iid);
    }
}

/// The facts kept by the flush of the by-products `ex` onto `nodes` and
/// `edges`.
pub open spec fn flushed_ok(nodes: Seq<Node>, edges: Seq<Edge>, n0: Seq<Node>, book: Seq<(usize, Recipe)>) -> bool {
    &&& nodes.len() >= n0.len()
    &&& nodes.subrange(0, n0.len() as int) == n0
    &&& forall|i: int| 0 <= i < edges.len() ==> edge_ok(nodes, #[trigger] edges[i], book)
    &&& forall|x: int| n0.len() <= x < nodes.len() ==> {
        let n = #[trigger] nodes[x];
        &&& n is Excess
        &&& n->Excess_amount.raw() == in_total(edges, x)
        &&& n->Excess_amount.raw() >= crate::build_spec::MIN_EXCESS
    }
}

pub proof fn lemma_flush(
    n0: Seq<Node>,
    e0: Seq<Edge>,
    ex: Seq<(usize, Seq<(usize, Fl)>)>,
    book: Seq<(usize, Recipe)>,
    n: int,
    lim: int,
)
    requires
        forall|i: int| 0 <= i < e0.len() ==> edge_ok(n0, #[trigger] e0[i], book),
        forall|i: int| 0 <= i < ex.len() ==> from_suppliers((#[trigger] ex[i]).1, n0, ItemId(ex[i].0), book)
            && crate::build_inv::excess_ok(ex[i].1, n, n0.len() as int, lim),
        0 <= lim,
        (n + 2) * lim <= i64::MAX,
        flush(n0, e0, ex).0.len() <= usize::MAX,
    ensures
        flushed_ok(flush(n0, e0, ex).0, flush(n0, e0, ex).1, n0, book),
    decreases ex.len(),
{
    let r = flush(n0, e0, ex);
    if ex.len() == 0 {
        assert(r.0.subrange(0, n0.len() as int) == n0);
    } else {
        let d = ex.drop_last();
        assert forall|i: int| 0 <= i < d.len() implies from_suppliers((#[trigger] d[i]).1, n0, ItemId(d[i].0), book)
            && crate::build_inv::excess_ok(d[i].1, n, n0.len() as int, lim) by {
            assert(d[i] == ex[i]);
        }
        let p = flush(n0, e0, d);
        assert(p.0.len() <= r.0.len());
        lemma_flush(n0, e0, d, book, n, lim);
        let (k, l) = ex.last();
        let total = crate::build_spec::sum_amounts(l);
        if total >= crate::build_spec::MIN_EXCESS {
            let x = p.0.len();
            let new_es = crate::build_spec::excess_edges(l, x as usize, ItemId(k));
            assert(from_suppliers(l, n0, ItemId(k), book) && crate::build_inv::excess_ok(l, n, n0.len() as int, lim));
            assert(r.0.subrange(0, n0.len() as int) =~= p.0.subrange(0, n0.len() as int));
            assert forall|i: int| 0 <= i < p.0.len() implies r.0[i] == p.0[i] by {}
            assert forall|i: int| 0 <= i < n0.len() implies p.0[i] == n0[i] by {
                assert(p.0[i] == p.0.subrange(0, n0.len() as int)[i]);
            }
            assert forall|i: int| 0 <= i < r.1.len() implies edge_ok(r.0, #[trigger] r.1[i], book) by {
                if i < p.1.len() {
                    assert(r.1[i] == p.1[i]);
                    assert(edge_ok(p.0, p.1[i], book));
                } else {
                    let j = i - p.1.len();
                    assert(r.1[i] == new_es[j]);
                    assert(l[j].0 < n0.len() && supplies(n0[l[j].0 as int], ItemId(k), book));
                }
            }
            assert forall|i: int| 0 <= i < p.1.len() implies (#[trigger] p.1[i]).to != x by {
                assert(edge_ok(p.0, p.1[i], book));
            }
            lemma_in_total_none(p.1, x as int);
            lemma_in_total_concat(p.1, new_es, x as int);
            lemma_in_total_excess(l, x as usize, ItemId(k));
            crate::build_inv::lemma_sum_amounts(l, lim);
            assert(l.len() * lim <= (n + 2) * lim) by (nonlinear_arith)
                requires
                    l.len() <= n,
                    lim >= 0,
            ;
            assert forall|y: int| n0.len() <= y < r.0.len() implies {
                let nd = #[trigger] r.0[y];
                &&& nd is Excess
                &&& nd->Excess_amount.raw() == in_total(r.1, y)
                &&& nd->Excess_amount.raw() >= crate::build_spec::MIN_EXCESS
            } by {
                lemma_in_total_concat(p.1, new_es, y);
                if y < x {
                    assert(r.0[y] == p.0[y]);
                    assert forall|i: int| 0 <= i < new_es.len() implies (#[trigger] new_es[i]).to != y by {}
                    lemma_in_total_none(new_es, y);
                }
            }
        } else {
            assert(r == p);
        }
    }
}

/// What the laws of the built graph assume: the graph can be built, the maps
/// of the solution and of the recipes keep their keys in increasing order, and
/// the lists of targets and of nodes fit in memory.
pub open spec fn law_inputs(solution: Solution, targets: Seq<Target>, book: IdMap<Recipe>) -> bool {
    &&& buildable(solution, book)
    &&& keys_increasing(solution.recipes.entry_seq())
    &&& keys_increasing(solution.inputs.entry_seq())
    &&& keys_increasing(solution.outputs.entry_seq())
    &&& keys_increasing(book.entry_seq())
    &&& book_sorted(book.entry_seq())
    &&& targets.len() <= usize::MAX
    &&& built_graph(solution, targets, book).0.len() <= usize::MAX
}

pub proof fn lemma_flush_grows(n0: Seq<Node>, e0: Seq<Edge>, ex: Seq<(usize, Seq<(usize, Fl)>)>)
    ensures
        flush(n0, e0, ex).0.len() >= n0.len(),
    decreases ex.len(),
{
    if ex.len() > 0 {
        lemma_flush_grows(n0, e0, ex.drop_last());
    }
}

/// The state at the end of the construction, before the flush, keeps both
/// invariants, and the flush keeps `flushed_ok`.
proof fn lemma_built(solution: Solution, targets: Seq<Target>, book: IdMap<Recipe>)
    requires
        law_inputs(solution, targets, book),
    ensures
        state_inv(
            run(
                initial_state(solution.recipes.entry_seq(), solution.inputs.entry_seq(), solution.outputs.entry_seq(), targets, book.entry_seq()),
                solution.recipes.entry_seq(),
                book.entry_seq(),
            ),
            solution.recipes.entry_seq(),
            amount_limit(solution.recipes.entry_seq().len() as int),
        ),
        kinds_inv(
            run(
                initial_state(solution.recipes.entry_seq(), solution.inputs.entry_seq(), solution.outputs.entry_seq(), targets, book.entry_seq()),
                solution.recipes.entry_seq(),
                book.entry_seq(),
            ),
            solution.recipes.entry_seq(),
            solution.inputs.entry_seq(),
            solution.outputs.entry_seq(),
            book.entry_seq(),
        ),
        flushed_ok(
            built_graph(solution, targets, book).0,
            built_graph(solution, targets, book).1,
            run(
                initial_state(solution.recipes.entry_seq(), solution.inputs.entry_seq(), solution.outputs.entry_seq(), targets, book.entry_seq()),
                solution.recipes.entry_seq(),
                book.entry_seq(),
            ).nodes,
            book.entry_seq(),
        ),
{
    let used = solution.recipes.entry_seq();
    let ins = solution.inputs.entry_seq();
    let outs = solution.outputs.entry_seq();
    let b = book.entry_seq();
    let n = used.len() as int;
    let lim = amount_limit(n);
    crate::build_inv::lemma_limit(n);
    let s0 = initial_state(used, ins, outs, targets, b);
    let sf = run(s0, used, b);
    lemma_flush_grows(sf.nodes, sf.edges, sf.excess);
    lemma_run_grows(s0, used, b);
    crate::build_inv::lemma_input_nodes_len(target_outputs(targets, outs).0, ins);
    lemma_initial_inv(used, ins, outs, targets, b);
    lemma_kinds_initial(used, ins, outs, targets, b);
    lemma_run_inv(s0, used, outs, b);
    lemma_kinds_run(s0, used, ins, outs, b);
    assert forall|i: int| 0 <= i < sf.spawned.len() implies has_key(used, #[trigger] sf.spawned[i].0) by {
        lemma_slot_of_index(sf.spawned, sf.spawned[i].0, i);
    }
    crate::id_map::lemma_keys_subset_len(sf.spawned, used);
    assert forall|i: int| 0 <= i < sf.excess.len() implies from_suppliers((#[trigger] sf.excess[i]).1, sf.nodes, ItemId(sf.excess[i].0), b)
        && crate::build_inv::excess_ok(sf.excess[i].1, n, sf.nodes.len() as int, lim) by {
        let k = sf.excess[i].0;
        lemma_slot_of_index(sf.excess, k, i);
        let l = sf.excess[i].1;
        assert(lookup(sf.excess, k)->0 == l);
        assert forall|j: int| 0 <= j < l.len() implies (#[trigger] l[j]).0 < sf.nodes.len() && supplies(sf.nodes[l[j].0 as int], ItemId(k), b) by {
            let from = (lookup(sf.excess, k)->0)[j].0;
            assert(from < sf.nodes.len() && supplies(sf.nodes[from as int], ItemId(k), b));
        }
        crate::build_inv::lemma_excess_ok_mono(l, sf.spawned.len() as int, sf.nodes.len() as int, n, sf.nodes.len() as int, lim);
    }
    assert((n + 2) * lim <= i64::MAX) by (nonlinear_arith)
        requires
            lim * (n + 2) <= i64::MAX,
    ;
    lemma_flush(sf.nodes, sf.edges, sf.excess, b, n, lim);
}

/// Every edge of the built graph joins two of its nodes and carries an item
/// that its source hands out (a recipe producing it, or the input node of
/// that item) and its target takes in (a recipe consuming it, or the output
/// or excess node of that item).
pub proof fn lemma_graph_edges_carry_items(solution: Solution, targets: Seq<Target>, book: IdMap<Recipe>)
    requires
        law_inputs(solution, targets, book),
    ensures
        forall|i: int|
            0 <= i < built_graph(solution, targets, book).1.len() ==> edge_ok(
                built_graph(solution, targets, book).0,
                #[trigger] built_graph(solution, targets, book).1[i],
                book.entry_seq(),
            ),
{
    lemma_built(solution, targets, book);
}

/// The amount of each excess node of the built graph is the total carried by
/// the edges that enter it, and is at least `MIN_EXCESS`.
pub proof fn lemma_graph_excess_balance(solution: Solution, targets: Seq<Target>, book: IdMap<Recipe>)
    requires
        law_inputs(solution, targets, book),
    ensures
        forall|x: int|
            0 <= x < built_graph(solution, targets, book).0.len() && (#[trigger] built_graph(solution, targets, book).0[x]) is Excess
                ==> {
                let a = built_graph(solution, targets, book).0[x]->Excess_amount.raw();
                a == in_total(built_graph(solution, targets, book).1, x) && a >= crate::build_spec::MIN_EXCESS
            },
{
    lemma_built(solution, targets, book);
    let g = built_graph(solution, targets, book);
    let sf = run(
        initial_state(solution.recipes.entry_seq(), solution.inputs.entry_seq(), solution.outputs.entry_seq(), targets, book.entry_seq()),
        solution.recipes.entry_seq(),
        book.entry_seq(),
    );
    assert forall|x: int| 0 <= x < g.0.len() && (#[trigger] g.0[x]) is Excess implies {
        let a = g.0[x]->Excess_amount.raw();
        a == in_total(g.1, x) && a >= crate::build_spec::MIN_EXCESS
    } by {
        if x < sf.nodes.len() {
            assert(g.0[x] == g.0.subrange(0, sf.nodes.len() as int)[x]);
            assert(node_ok(sf.nodes[x], x, sf.spawned, solution.recipes.entry_seq(), solution.inputs.entry_seq(), solution.outputs.entry_seq()));
        }
    }
}

/// Each recipe node of the built graph runs a recipe of the solution, with
/// the solution's amount for it, and no recipe has two nodes.
pub proof fn lemma_graph_recipe_nodes(solution: Solution, targets: Seq<Target>, book: IdMap<Recipe>)
    requires
        law_inputs(solution, targets, book),
    ensures
        forall|i: int|
            0 <= i < built_graph(solution, targets, book).0.len() && (#[trigger] built_graph(solution, targets, book).0[i]) is Recipe
                ==> {
                let nd = built_graph(solution, targets, book).0[i];
                has_key(solution.recipes.entry_seq(), nd->rid.0) && nd->Recipe_amount == amount_of(solution.recipes.entry_seq(), nd->rid.0)
            },
        forall|i: int, j: int|
            0 <= i < built_graph(solution, targets, book).0.len() && 0 <= j < built_graph(solution, targets, book).0.len()
                && (#[trigger] built_graph(solution, targets, book).0[i]) is Recipe
                && (#[trigger] built_graph(solution, targets, book).0[j]) is Recipe
                && built_graph(solution, targets, book).0[i]->rid == built_graph(solution, targets, book).0[j]->rid ==> i == j,
{
    lemma_built(solution, targets, book);
    let g = built_graph(solution, targets, book);
    let used = solution.recipes.entry_seq();
    let ins = solution.inputs.entry_seq();
    let outs = solution.outputs.entry_seq();
    let sf = run(initial_state(used, ins, outs, targets, book.entry_seq()), used, book.entry_seq());
    assert forall|i: int| 0 <= i < g.0.len() && g.0[i] is Recipe implies g.0[i] == sf.nodes[i] && i < sf.nodes.len() by {
        if i < sf.nodes.len() {
            assert(g.0[i] == g.0.subrange(0, sf.nodes.len() as int)[i]);
        }
    }
    assert forall|i: int| 0 <= i < g.0.len() && (#[trigger] g.0[i]) is Recipe implies {
        let nd = g.0[i];
        has_key(used, nd->rid.0) && nd->Recipe_amount == amount_of(used, nd->rid.0)
    } by {
        assert(node_ok(sf.nodes[i], i, sf.spawned, used, ins, outs));
    }
    assert forall|i: int, j: int|
        0 <= i < g.0.len() && 0 <= j < g.0.len() && (#[trigger] g.0[i]) is Recipe && (#[trigger] g.0[j]) is Recipe
            && g.0[i]->rid == g.0[j]->rid implies i == j by {
        assert(node_ok(sf.nodes[i], i, sf.spawned, used, ins, outs));
        assert(node_ok(sf.nodes[j], j, sf.spawned, used, ins, outs));
    }
}

/// Each input node of the built graph stands for an item used by the
/// solution, and each output node for an item it produces, with the
/// solution's amounts.
pub proof fn lemma_graph_io_nodes(solution: Solution, targets: Seq<Target>, book: IdMap<Recipe>)
    requires
        law_inputs(solution, targets, book),
    ensures
        forall|i: int|
            0 <= i < built_graph(solution, targets, book).0.len() && (#[trigger] built_graph(solution, targets, book).0[i]) is Input
                ==> {
                let nd = built_graph(solution, targets, book).0[i];
                has_key(solution.inputs.entry_seq(), nd->Input_iid.0) && nd->Input_amount == amount_of(solution.inputs.entry_seq(), nd->Input_iid.0)
            },
        forall|i: int|
            0 <= i < built_graph(solution, targets, book).0.len() && (#[trigger] built_graph(solution, targets, book).0[i]) is Output
                ==> {
                let nd = built_graph(solution, targets, book).0[i];
                has_key(solution.outputs.entry_seq(), nd->Output_iid.0) && nd->Output_amount == amount_of(solution.outputs.entry_seq(), nd->Output_iid.0)
            },
{
    lemma_built(solution, targets, book);
    let g = built_graph(solution, targets, book);
    let used = solution.recipes.entry_seq();
    let ins = solution.inputs.entry_seq();
    let outs = solution.outputs.entry_seq();
    let sf = run(initial_state(used, ins, outs, targets, book.entry_seq()), used, book.entry_seq());
    assert forall|i: int| 0 <= i < g.0.len() && !(g.0[i] is Excess) implies g.0[i] == sf.nodes[i] && i < sf.nodes.len() by {
        if i < sf.nodes.len() {
            assert(g.0[i] == g.0.subrange(0, sf.nodes.len() as int)[i]);
        }
    }
    assert forall|i: int| 0 <= i < g.0.len() && (#[trigger] g.0[i]) is Input implies {
        let nd = g.0[i];
        has_key(ins, nd->Input_iid.0) && nd->Input_amount == amount_of(ins, nd->Input_iid.0)
    } by {
        assert(node_ok(sf.nodes[i], i, sf.spawned, used, ins, outs));
    }
    assert forall|i: int| 0 <= i < g.0.len() && (#[trigger] g.0[i]) is Output implies {
        let nd = g.0[i];
        has_key(outs, nd->Output_iid.0) && nd->Output_amount == amount_of(outs, nd->Output_iid.0)
    } by {
        assert(node_ok(sf.nodes[i], i, sf.spawned, used, ins, outs));
    }
}

/// In the built graph no edge enters an input node and none leaves an output
/// or excess node.
pub proof fn lemma_graph_sources_and_sinks(solution: Solution, targets: Seq<Target>, book: IdMap<Recipe>)
    requires
        law_inputs(solution, targets, book),
    ensures
        forall|x: int|
            0 <= x < built_graph(solution, targets, book).0.len() && (#[trigger] built_graph(solution, targets, book).0[x]) is Input
                ==> parents_of(built_graph(solution, targets, book).0, built_graph(solution, targets, book).1)[x].is_empty(),
        forall|x: int|
            0 <= x < built_graph(solution, targets, book).0.len() && ((#[trigger] built_graph(solution, targets, book).0[x]) is Output
                || built_graph(solution, targets, book).0[x] is Excess) ==> children_of(
                built_graph(solution, targets, book).1,
                x as usize,
            ).is_empty(),
{
    lemma_graph_edges_carry_items(solution, targets, book);
    let g = built_graph(solution, targets, book);
    let b = book.entry_seq();
    assert forall|x: int| 0 <= x < g.0.len() && (#[trigger] g.0[x]) is Input implies parents_of(g.0, g.1)[x].is_empty() by {
        assert forall|p: usize| !#[trigger] parents_of(g.0, g.1)[x].contains(p) by {
            if parents_of(g.0, g.1)[x].contains(p) {
                let i = choose|i: int| #![trigger g.1[i]] 0 <= i < g.1.len() && g.1[i].to == x && g.1[i].from == p;
                assert(edge_ok(g.0, g.1[i], b));
            }
        }
        assert(parents_of(g.0, g.1)[x] =~= Set::empty());
    }
    assert forall|x: int| 0 <= x < g.0.len() && ((#[trigger] g.0[x]) is Output || g.0[x] is Excess) implies children_of(
        g.1,
        x as usize,
    ).is_empty() by {
        assert forall|w: usize| !#[trigger] children_of(g.1, x as usize).contains(w) by {
            if children_of(g.1, x as usize).contains(w) {
                let i = choose|i: int| #![trigger g.1[i]] 0 <= i < g.1.len() && g.1[i].from == x as usize && g.1[i].to == w;
                assert(edge_ok(g.0, g.1[i], b));
            }
        }
        assert(children_of(g.1, x as usize) =~= Set::empty());
    }
}

/// When the built graph can be sorted, every input sits at level 0 and every
/// output and excess node at the last level, and every node gets a level.
pub proof fn lemma_graph_sorted_levels(solution: Solution, targets: Seq<Target>, book: IdMap<Recipe>)
    requires
        law_inputs(solution, targets, book),
        built_graph(solution, targets, book).0.len() + 2 <= usize::MAX,
        sortable(built_graph(solution, targets, book).0, built_graph(solution, targets, book).1),
    ensures
        forall|x: int|
            0 <= x < built_graph(solution, targets, book).0.len() ==> (#[trigger] sorted_levels(
                built_graph(solution, targets, book).0,
                built_graph(solution, targets, book).1,
            )[x]) is Some,
        forall|x: int|
            0 <= x < built_graph(solution, targets, book).0.len() && (#[trigger] built_graph(solution, targets, book).0[x]) is Input
                ==> sorted_levels(built_graph(solution, targets, book).0, built_graph(solution, targets, book).1)[x]
                == Some(0int),
        forall|x: int|
            0 <= x < built_graph(solution, targets, book).0.len() && ((#[trigger] built_graph(solution, targets, book).0[x]) is Output
                || built_graph(solution, targets, book).0[x] is Excess) ==> sorted_levels(
                built_graph(solution, targets, book).0,
                built_graph(solution, targets, book).1,
            )[x] == Some(sorted_max(built_graph(solution, targets, book).0, built_graph(solution, targets, book).1)),
{
    let g = built_graph(solution, targets, book);
    lemma_graph_edges_carry_items(solution, targets, book);
    lemma_graph_sources_and_sinks(solution, targets, book);
    assert(edges_in_bounds(g.0, g.1)) by {
        assert forall|i: int| 0 <= i < g.1.len() implies (#[trigger] g.1[i]).from < g.0.len() && g.1[i].to < g.0.len() by {
            assert(edge_ok(g.0, g.1[i], book.entry_seq()));
        }
    }
    lemma_sorted_levels_laws(g.0, g.1);
}

proof fn lemma_spawn_all_recipes(s: BuildState, rids: Seq<RecipeId>, used: Seq<(usize, Fl)>, book: Seq<(usize, Recipe)>)
    ensures
        forall|i: int|
            s.nodes.len() <= i < spawn_all(s, rids, used, book).nodes.len() ==> (#[trigger] spawn_all(
                s,
                rids,
                used,
                book,
            ).nodes[i]) is Recipe,
    decreases rids.len(),
{
    if rids.len() > 0 {
        lemma_spawn_all_recipes(s, rids.drop_last(), used, book);
        lemma_spawn_all_frame(s, rids.drop_last(), used, book);
    }
}

proof fn lemma_run_prefix(s: BuildState, used: Seq<(usize, Fl)>, book: Seq<(usize, Recipe)>)
    ensures
        run(s, used, book).nodes.len() >= s.nodes.len(),
        run(s, used, book).nodes.subrange(0, s.nodes.len() as int) == s.nodes,
        forall|i: int| s.nodes.len() <= i < run(s, used, book).nodes.len() ==> (#[trigger] run(s, used, book).nodes[i]) is Recipe,
    decreases s.rev.len(), s.queue.len(),
{
    if s.queue.len() > 0 {
        lemma_step_measure(s, used, book);
        let t = step(s, used, book);
        let (item, to, q) = s.queue[0];
        let p = pop_need(s);
        if has_key(p.rev, item.0) {
            let w = BuildState {
                nodes: p.nodes,
                edges: p.edges,
                rev: delete(p.rev, item.0),
                queue: p.queue,
                spawned: p.spawned,
                excess: p.excess,
                inputs: p.inputs,
            };
            lemma_spawn_all_frame(w, lookup(p.rev, item.0)->0, used, book);
            lemma_spawn_all_recipes(w, lookup(p.rev, item.0)->0, used, book);
        }
        assert(t.nodes.len() >= s.nodes.len());
        assert(t.nodes.subrange(0, s.nodes.len() as int) == s.nodes);
        lemma_run_prefix(t, used, book);
        let r = run(t, used, book);
        assert forall|i: int| s.nodes.len() <= i < r.nodes.len() implies (#[trigger] r.nodes[i]) is Recipe by {
            if i < t.nodes.len() {
                assert(r.nodes[i] == r.nodes.subrange(0, t.nodes.len() as int)[i]);
            }
        }
        assert(r.nodes.subrange(0, s.nodes.len() as int) =~= r.nodes.subrange(0, t.nodes.len() as int).subrange(
            0,
            s.nodes.len() as int,
        ));
    }
}

proof fn lemma_target_outputs_shape(targets: Seq<Target>, outs: Seq<(usize, Fl)>)
    ensures
        target_outputs(targets, outs).0.len() <= targets.len(),
        forall|i: int| 0 <= i < target_outputs(targets, outs).0.len() ==> (#[trigger] target_outputs(
            targets,
            outs,
        ).0[i]) is Output,
    decreases targets.len(),
{
    if targets.len() > 0 {
        lemma_target_outputs_shape(targets.drop_last(), outs);
    }
}

/// The input nodes appended for the items of `ins`, in order.
pub open spec fn inputs_as_nodes(ins: Seq<(usize, Fl)>) -> Seq<Node> {
    Seq::new(ins.len(), |j: int| Node::Input { iid: ItemId(ins[j].0), amount: ins[j].1 })
}

proof fn lemma_input_nodes_shape(nodes: Seq<Node>, ins: Seq<(usize, Fl)>)
    ensures
        input_nodes(nodes, ins).0 == nodes + inputs_as_nodes(ins),
    decreases ins.len(),
{
    if ins.len() > 0 {
        lemma_input_nodes_shape(nodes, ins.drop_last());
        assert(inputs_as_nodes(ins) =~= inputs_as_nodes(ins.drop_last()).push(
            Node::Input { iid: ItemId(ins.last().0), amount: ins.last().1 },
        ));
        assert(nodes + inputs_as_nodes(ins) =~= (nodes + inputs_as_nodes(ins.drop_last())).push(
            Node::Input { iid: ItemId(ins.last().0), amount: ins.last().1 },
        ));
    }
}

/// The built graph lists first the output nodes (at most one per target),
/// then one input node per item that the solution takes in, in the order of
/// its identifiers and with the solution's amounts, and only then the recipe
/// and excess nodes.
pub proof fn lemma_graph_layout(solution: Solution, targets: Seq<Target>, book: IdMap<Recipe>)
    requires
        law_inputs(solution, targets, book),
    ensures
        ({
            let g = built_graph(solution, targets, book).0;
            let k = target_outputs(targets, solution.outputs.entry_seq()).0.len();
            let ins = solution.inputs.entry_seq();
            &&& k <= targets.len()
            &&& k + ins.len() <= g.len()
            &&& forall|i: int| 0 <= i < k ==> (#[trigger] g[i]) is Output
            &&& forall|j: int|
                0 <= j < ins.len() ==> #[trigger] g[k + j] == Node::Input { iid: ItemId(ins[j].0), amount: ins[j].1 }
            &&& forall|i: int| k + ins.len() <= i < g.len() ==> (#[trigger] g[i]) is Recipe || g[i] is Excess
        }),
{
    let used = solution.recipes.entry_seq();
    let ins = solution.inputs.entry_seq();
    let outs = solution.outputs.entry_seq();
    let b = book.entry_seq();
    let s0 = initial_state(used, ins, outs, targets, b);
    let sf = run(s0, used, b);
    let g = built_graph(solution, targets, book).0;
    let t = target_outputs(targets, outs).0;
    let k = t.len();
    lemma_built(solution, targets, book);
    lemma_run_prefix(s0, used, b);
    lemma_target_outputs_shape(targets, outs);
    lemma_input_nodes_shape(t, ins);
    assert(s0.nodes == t + inputs_as_nodes(ins));
    assert(g.subrange(0, sf.nodes.len() as int) == sf.nodes);
    assert forall|i: int| 0 <= i < s0.nodes.len() implies #[trigger] g[i] == s0.nodes[i] by {
        assert(g[i] == g.subrange(0, sf.nodes.len() as int)[i]);
        assert(sf.nodes[i] == sf.nodes.subrange(0, s0.nodes.len() as int)[i]);
    }
    assert forall|i: int| 0 <= i < k implies (#[trigger] g[i]) is Output by {
        assert(g[i] == s0.nodes[i]);
        assert(s0.nodes[i] == t[i]);
    }
    assert forall|j: int| 0 <= j < ins.len() implies #[trigger] g[k + j] == Node::Input {
        iid: ItemId(ins[j].0),
        amount: ins[j].1,
    } by {
        assert(g[k + j] == s0.nodes[k + j]);
        assert(s0.nodes[k + j] == inputs_as_nodes(ins)[j]);
    }
    assert forall|i: int| k + ins.len() <= i < g.len() implies (#[trigger] g[i]) is Recipe || g[i] is Excess by {
        if i < sf.nodes.len() {
            assert(g[i] == sf.nodes[i]) by {
                assert(g[i] == g.subrange(0, sf.nodes.len() as int)[i]);
            }
            assert(sf.nodes[i] is Recipe);
        }
    }
}

proof fn lemma_flush_items(n0: Seq<Node>, e0: Seq<Edge>, ex: Seq<(usize, Seq<(usize, Fl)>)>)
    requires
        keys_increasing(ex),
    ensures
        flush(n0, e0, ex).0.subrange(0, n0.len() as int) == n0,
        forall|x: int|
            n0.len() <= x < flush(n0, e0, ex).0.len() ==> (#[trigger] flush(n0, e0, ex).0[x]) is Excess && exists|j: int|
                0 <= j < ex.len() && ex[j].0 == flush(n0, e0, ex).0[x]->Excess_iid.0,
        forall|x: int, y: int|
            n0.len() <= x < y < flush(n0, e0, ex).0.len() ==> (#[trigger] flush(n0, e0, ex).0[x])->Excess_iid.0
                < (#[trigger] flush(n0, e0, ex).0[y])->Excess_iid.0,
    decreases ex.len(),
{
    if ex.len() == 0 {
        assert(n0.subrange(0, n0.len() as int) == n0);
    } else {
        let pre = ex.drop_last();
        lemma_flush_items(n0, e0, pre);
        lemma_flush_grows(n0, e0, pre);
        let p = flush(n0, e0, pre).0;
        let f = flush(n0, e0, ex).0;
        let last = ex.last().0;
        assert forall|x: int| n0.len() <= x < p.len() implies (#[trigger] p[x])->Excess_iid.0 < last by {
            let j = choose|j: int| 0 <= j < pre.len() && pre[j].0 == p[x]->Excess_iid.0;
            assert(ex[j] == pre[j]);
        }
        assert forall|x: int| 0 <= x < p.len() implies #[trigger] f[x] == p[x] by {}
        assert(f.subrange(0, n0.len() as int) =~= p.subrange(0, n0.len() as int));
        assert forall|x: int| n0.len() <= x < f.len() implies (#[trigger] f[x]) is Excess && exists|j: int|
            0 <= j < ex.len() && ex[j].0 == f[x]->Excess_iid.0 by {
            if x < p.len() {
                let j = choose|j: int| 0 <= j < pre.len() && pre[j].0 == p[x]->Excess_iid.0;
                assert(ex[j] == pre[j]);
            } else {
                assert(ex[ex.len() - 1].0 == last);
            }
        }
    }
}

/// The excess nodes of the built graph come after every other node, and no
/// two of them carry the same item.
pub proof fn lemma_graph_excess_last_distinct(solution: Solution, targets: Seq<Target>, book: IdMap<Recipe>)
    requires
        law_inputs(solution, targets, book),
    ensures
        forall|x: int, y: int|
            0 <= x < y < built_graph(solution, targets, book).0.len() && (#[trigger] built_graph(solution, targets, book).0[x]) is Excess
                ==> (#[trigger] built_graph(solution, targets, book).0[y]) is Excess,
        forall|x: int, y: int|
            0 <= x < built_graph(solution, targets, book).0.len() && 0 <= y < built_graph(solution, targets, book).0.len()
                && x != y && (#[trigger] built_graph(solution, targets, book).0[x]) is Excess
                && (#[trigger] built_graph(solution, targets, book).0[y]) is Excess
                ==> built_graph(solution, targets, book).0[x]->Excess_iid != built_graph(solution, targets, book).0[y]->Excess_iid,
{
    let used = solution.recipes.entry_seq();
    let ins = solution.inputs.entry_seq();
    let outs = solution.outputs.entry_seq();
    let b = book.entry_seq();
    let s0 = initial_state(used, ins, outs, targets, b);
    let sf = run(s0, used, b);
    let g = built_graph(solution, targets, book).0;
    lemma_built(solution, targets, book);
    lemma_flush_items(sf.nodes, sf.edges, sf.excess);
    assert forall|x: int| 0 <= x < g.len() implies (#[trigger] g[x] is Excess) == (x >= sf.nodes.len()) by {
        if x < sf.nodes.len() {
            assert(g[x] == g.subrange(0, sf.nodes.len() as int)[x]);
            assert(node_ok(sf.nodes[x], x, sf.spawned, used, ins, outs));
        }
    }
}

proof fn lemma_target_outputs_filter(targets: Seq<Target>, outs: Seq<(usize, Fl)>)
    ensures
        target_outputs(targets, outs).0 == targets.filter(|t: Target| has_key(outs, t.iid.0)).map_values(
            |t: Target| Node::Output { iid: t.iid, amount: amount_of(outs, t.iid.0) },
        ),
    decreases targets.len(),
{
    reveal(Seq::filter);
    if targets.len() > 0 {
        lemma_target_outputs_filter(targets.drop_last(), outs);
        let f = targets.drop_last().filter(|t: Target| has_key(outs, t.iid.0));
        let t = targets.last();
        if has_key(outs, t.iid.0) {
            assert(targets.filter(|t: Target| has_key(outs, t.iid.0)) == f.push(t));
            assert(f.push(t).map_values(|t: Target| Node::Output { iid: t.iid, amount: amount_of(outs, t.iid.0) })
                =~= f.map_values(|t: Target| Node::Output { iid: t.iid, amount: amount_of(outs, t.iid.0) }).push(
                Node::Output { iid: t.iid, amount: amount_of(outs, t.iid.0) },
            ));
        } else {
            assert(targets.filter(|t: Target| has_key(outs, t.iid.0)) == f);
        }
    }
}

/// The built graph starts with one output node for each target whose item
/// the solution produces, in the targets' order and with the solution's
/// amount for it, and has no other output node: every such target gets its
/// output node.
pub proof fn lemma_graph_target_outputs(solution: Solution, targets: Seq<Target>, book: IdMap<Recipe>)
    requires
        law_inputs(solution, targets, book),
    ensures
        ({
            let g = built_graph(solution, targets, book).0;
            let outs = solution.outputs.entry_seq();
            let produced = targets.filter(|t: Target| has_key(outs, t.iid.0));
            &&& produced.len() <= g.len()
            &&& forall|i: int|
                0 <= i < produced.len() ==> #[trigger] g[i] == Node::Output {
                    iid: produced[i].iid,
                    amount: amount_of(outs, produced[i].iid.0),
                }
            &&& forall|i: int| produced.len() <= i < g.len() ==> !((#[trigger] g[i]) is Output)
            &&& forall|j: int|
                0 <= j < targets.len() && has_key(outs, (#[trigger] targets[j]).iid.0) ==> exists|i: int|
                    0 <= i < produced.len() && g[i] == Node::Output {
                        iid: targets[j].iid,
                        amount: amount_of(outs, targets[j].iid.0),
                    }
        }),
{
    let g = built_graph(solution, targets, book).0;
    let outs = solution.outputs.entry_seq();
    let ins = solution.inputs.entry_seq();
    let produced = targets.filter(|t: Target| has_key(outs, t.iid.0));
    let used = solution.recipes.entry_seq();
    let b = book.entry_seq();
    let s0 = initial_state(used, ins, outs, targets, b);
    let sf = run(s0, used, b);
    let t = target_outputs(targets, outs).0;
    lemma_graph_layout(solution, targets, book);
    lemma_target_outputs_filter(targets, outs);
    lemma_built(solution, targets, book);
    lemma_run_prefix(s0, used, b);
    lemma_input_nodes_shape(t, ins);
    assert(t.len() == produced.len());
    assert(s0.nodes == t + inputs_as_nodes(ins));
    assert forall|i: int| 0 <= i < produced.len() implies #[trigger] g[i] == Node::Output {
        iid: produced[i].iid,
        amount: amount_of(outs, produced[i].iid.0),
    } by {
        assert(g[i] == g.subrange(0, sf.nodes.len() as int)[i]);
        assert(sf.nodes[i] == sf.nodes.subrange(0, s0.nodes.len() as int)[i]);
        assert(s0.nodes[i] == t[i]);
    }
    assert forall|i: int| produced.len() <= i < g.len() implies !((#[trigger] g[i]) is Output) by {
        if i < produced.len() + ins.len() {
            assert(g[produced.len() + (i - produced.len())] is Input);
        }
    }
    assert forall|j: int| 0 <= j < targets.len() && has_key(outs, (#[trigger] targets[j]).iid.0) implies exists|i: int|
        0 <= i < produced.len() && g[i] == Node::Output { iid: targets[j].iid, amount: amount_of(outs, targets[j].iid.0) } by {
        targets.lemma_filter_contains(|t: Target| has_key(outs, t.iid.0), j);
        let i = choose|i: int| 0 <= i < produced.len() && produced[i] == targets[j];
        assert(g[i] == Node::Output { iid: produced[i].iid, amount: amount_of(outs, produced[i].iid.0) });
    }
}

} // verus!
