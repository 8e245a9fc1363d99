use vstd::prelude::*;

use crate::amount::{fits, Fl};
use crate::graph::{Edge, Node};
use crate::id_map::{delete, has_key, lemma_slot, lookup, push_entry, upsert, IdMap};
use crate::ids::{ItemId, RecipeId};
use crate::recipe::{per_minute, rate, Recipe, Solution, Target};

verus! {

/// Two amounts closer than this (in stored units) count as equal when a need
/// is matched against a by-product.
pub const PRECISION: i64 = 1;

/// The smallest need (in stored units) that is drawn from an input.
pub const MIN_INPUT: i64 = 1;

/// The smallest total (in stored units) for which a by-product gets a node.
pub const MIN_EXCESS: i64 = 200;

/// The state of the graph construction.
///
/// `rev` lists, for each item, the recipes of the solution that produce it and
/// were not spawned for it yet; `queue` holds the needs still to serve, as
/// (item, index of the node that needs it, amount); `spawned` gives the node
/// of each spawned recipe; `excess` lists, for each item, the nodes whose
/// production is not consumed yet, with the amount left; `inputs` gives the
/// node of each available item.
pub struct BuildState {
    pub nodes: Seq<Node>,
    pub edges: Seq<Edge>,
    pub rev: Seq<(usize, Seq<RecipeId>)>,
    pub queue: Seq<(ItemId, usize, Fl)>,
    pub spawned: Seq<(usize, usize)>,
    pub excess: Seq<(usize, Seq<(usize, Fl)>)>,
    pub inputs: Seq<(usize, usize)>,
}

/// The recipe stored for `rid` in `book` (meaningful when there is one).
pub open spec fn recipe_of(book: Seq<(usize, Recipe)>, rid: usize) -> Recipe {
    lookup(book, rid)->0
}

/// The amount stored for `k` in `s` (meaningful when there is one).
pub open spec fn amount_of(s: Seq<(usize, Fl)>, k: usize) -> Fl {
    lookup(s, k)->0
}

/// `rev` with `rid` recorded as a producer of each item of `outs`.
pub open spec fn add_producer(
    rev: Seq<(usize, Seq<RecipeId>)>,
    outs: Seq<(usize, Fl)>,
    rid: RecipeId,
) -> Seq<(usize, Seq<RecipeId>)>
    decreases outs.len(),
{
    if outs.len() == 0 {
        rev
    } else {
        push_entry(add_producer(rev, outs.drop_last(), rid), outs.last().0, rid)
    }
}

/// For each item, the recipes of `used` (in increasing identifier order)
/// that produce it.
pub open spec fn producers(used: Seq<(usize, Fl)>, book: Seq<(usize, Recipe)>) -> Seq<
    (usize, Seq<RecipeId>),
>
    decreases used.len(),
{
    if used.len() == 0 {
        Seq::empty()
    } else {
        let rid = used.last().0;
        add_producer(
            producers(used.drop_last(), book),
            recipe_of(book, rid).outputs.entry_seq(),
            RecipeId(rid),
        )
    }
}

/// The output nodes of the targets found among the solution's outputs, in
/// target order, and the matching needs.
pub open spec fn target_outputs(targets: Seq<Target>, outs: Seq<(usize, Fl)>) -> (
    Seq<Node>,
    Seq<(ItemId, usize, Fl)>,
)
    decreases targets.len(),
{
    if targets.len() == 0 {
        (Seq::empty(), Seq::empty())
    } else {
        let prev = target_outputs(targets.drop_last(), outs);
        let t = targets.last();
        if has_key(outs, t.iid.0) {
            let a = amount_of(outs, t.iid.0);
            (
                prev.0.push(Node::Output { iid: t.iid, amount: a }),
                prev.1.push((t.iid, prev.0.len() as usize, a)),
            )
        } else {
            prev
        }
    }
}

/// `nodes` followed by one input node per available item, and the index of
/// each.
pub open spec fn input_nodes(nodes: Seq<Node>, ins: Seq<(usize, Fl)>) -> (
    Seq<Node>,
    Seq<(usize, usize)>,
)
    decreases ins.len(),
{
    if ins.len() == 0 {
        (nodes, Seq::empty())
    } else {
        let prev = input_nodes(nodes, ins.drop_last());
        let (iid, q) = ins.last();
        (
            prev.0.push(Node::Input { iid: ItemId(iid), amount: q }),
            upsert(prev.1, iid, prev.0.len() as usize),
        )
    }
}

/// The state before the first need is served.
pub open spec fn initial_state(
    used: Seq<(usize, Fl)>,
    ins: Seq<(usize, Fl)>,
    outs: Seq<(usize, Fl)>,
    targets: Seq<Target>,
    book: Seq<(usize, Recipe)>,
) -> BuildState {
    let t = target_outputs(targets, outs);
    let i = input_nodes(t.0, ins);
    BuildState {
        nodes: i.0,
        edges: Seq::empty(),
        rev: producers(used, book),
        queue: t.1,
        spawned: Seq::empty(),
        excess: Seq::empty(),
        inputs: i.1,
    }
}

/// `ex` with the production of each item of `outs` by node `idx`, at
/// `per_min` runs per minute, recorded as not consumed.
pub open spec fn add_outputs(
    ex: Seq<(usize, Seq<(usize, Fl)>)>,
    outs: Seq<(usize, Fl)>,
    idx: usize,
    per_min: int,
) -> Seq<(usize, Seq<(usize, Fl)>)>
    decreases outs.len(),
{
    if outs.len() == 0 {
        ex
    } else {
        push_entry(
            add_outputs(ex, outs.drop_last(), idx, per_min),
            outs.last().0,
            (idx, Fl(rate(outs.last().1, per_min) as i64)),
        )
    }
}

/// The needs of node `idx` for the items of `ins`, at `per_min` runs per
/// minute.
pub open spec fn input_requests(ins: Seq<(usize, Fl)>, idx: usize, per_min: int) -> Seq<
    (ItemId, usize, Fl),
> {
    Seq::new(ins.len(), |i: int| (ItemId(ins[i].0), idx, Fl(rate(ins[i].1, per_min) as i64)))
}

/// Adds a node for recipe `rid`, unless it has one: its production becomes
/// available and its consumption becomes new needs.
pub open spec fn spawn_one(
    s: BuildState,
    rid: RecipeId,
    used: Seq<(usize, Fl)>,
    book: Seq<(usize, Recipe)>,
) -> BuildState {
    if has_key(s.spawned, rid.0) {
        s
    } else {
        let amount = amount_of(used, rid.0);
        let recipe = recipe_of(book, rid.0);
        let idx = s.nodes.len() as usize;
        let pm = per_minute(recipe.time, amount);
        BuildState {
            nodes: s.nodes.push(Node::Recipe { rid, amount }),
            edges: s.edges,
            rev: s.rev,
            queue: s.queue + input_requests(recipe.inputs.entry_seq(), idx, pm),
            spawned: upsert(s.spawned, rid.0, idx),
            excess: add_outputs(s.excess, recipe.outputs.entry_seq(), idx, pm),
            inputs: s.inputs,
        }
    }
}

/// Spawns each recipe of `rids` in turn.
pub open spec fn spawn_all(
    s: BuildState,
    rids: Seq<RecipeId>,
    used: Seq<(usize, Fl)>,
    book: Seq<(usize, Recipe)>,
) -> BuildState
    decreases rids.len(),
{
    if rids.len() == 0 {
        s
    } else {
        spawn_one(spawn_all(s, rids.drop_last(), used, book), rids.last(), used, book)
    }
}

pub open spec fn abs(x: int) -> int {
    if x < 0 {
        -x
    } else {
        x
    }
}

/// Serves a need of `q` items `item` for node `to` from the by-products
/// `vals`, last first. Gives the by-products left, the need left, the edges
/// made and whether the list of by-products is to be dropped.
pub open spec fn drain(vals: Seq<(usize, Fl)>, q: int, item: ItemId, to: usize) -> (
    Seq<(usize, Fl)>,
    int,
    Seq<Edge>,
    bool,
)
    decreases vals.len(),
{
    if q < 0 {
        (vals, q, Seq::empty(), false)
    } else if vals.len() == 0 {
        (vals, q, Seq::empty(), true)
    } else {
        let (from, f) = vals.last();
        let rest = vals.drop_last();
        if abs(f.raw() - q) <= PRECISION {
            (rest, 0, seq![Edge { from, to, iid: item, amount: f }], rest.len() == 0)
        } else if f.raw() > q {
            (
                rest.push((from, Fl((f.raw() - q) as i64))),
                0,
                seq![Edge { from, to, iid: item, amount: Fl(q as i64) }],
                false,
            )
        } else {
            let r = drain(rest, q - f.raw(), item, to);
            (r.0, r.1, seq![Edge { from, to, iid: item, amount: f }] + r.2, r.3)
        }
    }
}

/// Serves a need of `q` items `item` for node `to`: from by-products first,
/// then from the available items.
pub open spec fn connect(s: BuildState, item: ItemId, to: usize, q: int) -> BuildState {
    let d = if has_key(s.excess, item.0) {
        drain(lookup(s.excess, item.0)->0, q, item, to)
    } else {
        (Seq::empty(), q, Seq::empty(), false)
    };
    let ex = if !has_key(s.excess, item.0) {
        s.excess
    } else if d.3 {
        delete(s.excess, item.0)
    } else {
        upsert(s.excess, item.0, d.0)
    };
    let es = if d.1 >= MIN_INPUT && has_key(s.inputs, item.0) {
        d.2.push(Edge { from: lookup(s.inputs, item.0)->0, to, iid: item, amount: Fl(d.1 as i64) })
    } else {
        d.2
    };
    BuildState {
        nodes: s.nodes,
        edges: s.edges + es,
        rev: s.rev,
        queue: s.queue,
        spawned: s.spawned,
        excess: ex,
        inputs: s.inputs,
    }
}

/// `s` with its first need taken out of the queue.
pub open spec fn pop_need(s: BuildState) -> BuildState {
    BuildState {
        nodes: s.nodes,
        edges: s.edges,
        rev: s.rev,
        queue: s.queue.drop_first(),
        spawned: s.spawned,
        excess: s.excess,
        inputs: s.inputs,
    }
}

/// `s` after spawning the producers of `item` not spawned for it yet.
pub open spec fn spawn_producers(
    s: BuildState,
    item: ItemId,
    used: Seq<(usize, Fl)>,
    book: Seq<(usize, Recipe)>,
) -> BuildState {
    if has_key(s.rev, item.0) {
        let t = BuildState {
            nodes: s.nodes,
            edges: s.edges,
            rev: delete(s.rev, item.0),
            queue: s.queue,
            spawned: s.spawned,
            excess: s.excess,
            inputs: s.inputs,
        };
        spawn_all(t, lookup(s.rev, item.0)->0, used, book)
    } else {
        s
    }
}

/// Serves the first need of the queue.
pub open spec fn step(s: BuildState, used: Seq<(usize, Fl)>, book: Seq<(usize, Recipe)>) -> BuildState {
    let (item, to, q) = s.queue[0];
    connect(spawn_producers(pop_need(s), item, used, book), item, to, q.raw())
}

pub proof fn lemma_spawn_all_frame(
    s: BuildState,
    rids: Seq<RecipeId>,
    used: Seq<(usize, Fl)>,
    book: Seq<(usize, Recipe)>,
)
    ensures
        spawn_all(s, rids, used, book).rev == s.rev,
        spawn_all(s, rids, used, book).edges == s.edges,
        spawn_all(s, rids, used, book).inputs == s.inputs,
        spawn_all(s, rids, used, book).queue.len() >= s.queue.len(),
        spawn_all(s, rids, used, book).queue.subrange(0, s.queue.len() as int) == s.queue,
        spawn_all(s, rids, used, book).nodes.len() >= s.nodes.len(),
        spawn_all(s, rids, used, book).nodes.subrange(0, s.nodes.len() as int) == s.nodes,
    decreases rids.len(),
{
    if rids.len() > 0 {
        let p = spawn_all(s, rids.drop_last(), used, book);
        lemma_spawn_all_frame(s, rids.drop_last(), used, book);
        let r = spawn_one(p, rids.last(), used, book);
        assert(r.queue.subrange(0, p.queue.len() as int) == p.queue);
        assert(r.queue.subrange(0, s.queue.len() as int) =~= p.queue.subrange(0, s.queue.len() as int));
        assert(r.nodes.subrange(0, p.nodes.len() as int) == p.nodes);
        assert(r.nodes.subrange(0, s.nodes.len() as int) =~= p.nodes.subrange(0, s.nodes.len() as int));
    }
}

pub proof fn lemma_step_measure(s: BuildState, used: Seq<(usize, Fl)>, book: Seq<(usize, Recipe)>)
    requires
        s.queue.len() > 0,
    ensures
        step(s, used, book).rev.len() < s.rev.len() || (step(s, used, book).rev.len() == s.rev.len()
            && step(s, used, book).queue.len() < s.queue.len()),
{
    let (item, to, q) = s.queue[0];
    let p = pop_need(s);
    lemma_slot(p.rev, item.0);
    if has_key(p.rev, item.0) {
        let t = BuildState {
            nodes: p.nodes,
            edges: p.edges,
            rev: delete(p.rev, item.0),
            queue: p.queue,
            spawned: p.spawned,
            excess: p.excess,
            inputs: p.inputs,
        };
        lemma_spawn_all_frame(t, lookup(p.rev, item.0)->0, used, book);
    }
}

/// Serves the needs of the queue until none is left.
pub open spec fn run(s: BuildState, used: Seq<(usize, Fl)>, book: Seq<(usize, Recipe)>) -> BuildState
    decreases s.rev.len(), s.queue.len(),
{
    if s.queue.len() == 0 {
        s
    } else {
        proof {
            lemma_step_measure(s, used, book);
        }
        run(step(s, used, book), used, book)
    }
}

/// The total amount of a list of by-products.
pub open spec fn sum_amounts(l: Seq<(usize, Fl)>) -> int
    decreases l.len(),
{
    if l.len() == 0 {
        0
    } else {
        sum_amounts(l.drop_last()) + l.last().1.raw()
    }
}

/// The edges carrying the by-products `l` of item `iid` to node `to`.
pub open spec fn excess_edges(l: Seq<(usize, Fl)>, to: usize, iid: ItemId) -> Seq<Edge> {
    Seq::new(l.len(), |i: int| Edge { from: l[i].0, to, iid, amount: l[i].1 })
}

/// Adds, for each item of `ex` in order whose by-products total at least
/// `MIN_EXCESS`, an excess node and the edges that feed it.
pub open spec fn flush(nodes: Seq<Node>, edges: Seq<Edge>, ex: Seq<(usize, Seq<(usize, Fl)>)>) -> (
    Seq<Node>,
    Seq<Edge>,
)
    decreases ex.len(),
{
    if ex.len() == 0 {
        (nodes, edges)
    } else {
        let prev = flush(nodes, edges, ex.drop_last());
        let (iid, l) = ex.last();
        let total = sum_amounts(l);
        if total >= MIN_EXCESS {
            (
                prev.0.push(Node::Excess { iid: ItemId(iid), amount: Fl(total as i64) }),
                prev.1 + excess_edges(l, prev.0.len() as usize, ItemId(iid)),
            )
        } else {
            prev
        }
    }
}

/// The nodes and edges of the production graph of `solution` for `targets`.
pub open spec fn built_graph(solution: Solution, targets: Seq<Target>, book: IdMap<Recipe>) -> (
    Seq<Node>,
    Seq<Edge>,
) {
    let used = solution.recipes.entry_seq();
    let s0 = initial_state(
        used,
        solution.inputs.entry_seq(),
        solution.outputs.entry_seq(),
        targets,
        book.entry_seq(),
    );
    let s = run(s0, used, book.entry_seq());
    flush(s.nodes, s.edges, s.excess)
}

} // verus!
