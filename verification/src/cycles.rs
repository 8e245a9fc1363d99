use vstd::prelude::*;

use crate::graph::Node;
use crate::node_set::{
    below, lemma_below_finite, lemma_to_set_drop_first, lemma_to_set_drop_last,
    lemma_to_set_full_take, lemma_to_set_push, lemma_to_set_take_succ, set_insert, sets_of,
};
use std::collections::{BTreeSet, VecDeque};

verus! {

/// The state of the cycle removal: for each node the parents still linked to
/// it (`rs`), the parents whose link was cut (`cyc`), and, as bookkeeping for
/// the proofs, the layer counter (`clock`) and the layer in which each node was
/// last explored (`rank`, -1 when never explored).
pub struct Removal {
    pub rs: Seq<Set<usize>>,
    pub cyc: Seq<Set<usize>>,
    pub rank: Seq<int>,
    pub clock: int,
}

/// Explores the nodes of `layer` at once: each drops the links to itself and
/// to the nodes of `visited`, which it records as cut.
pub open spec fn process_layer(st: Removal, visited: Set<usize>, layer: Set<usize>) -> Removal {
    Removal {
        rs: Seq::new(
            st.rs.len(),
            |u: int|
                if layer.contains(u as usize) {
                    st.rs[u].remove(u as usize).difference(visited)
                } else {
                    st.rs[u]
                },
        ),
        cyc: Seq::new(
            st.cyc.len(),
            |u: int|
                if layer.contains(u as usize) {
                    st.cyc[u].union(st.rs[u].remove(u as usize).intersect(visited))
                } else {
                    st.cyc[u]
                },
        ),
        rank: Seq::new(
            st.rank.len(),
            |u: int|
                if layer.contains(u as usize) {
                    st.clock
                } else {
                    st.rank[u]
                },
        ),
        clock: st.clock + 1,
    }
}

/// The parents reached from `layer`: those not yet visited and not a node's
/// own link to itself.
pub open spec fn layer_next(rs: Seq<Set<usize>>, visited: Set<usize>, layer: Set<usize>, n: usize) -> Set<usize> {
    Set::new(
        |p: usize|
            p < n && !visited.contains(p) && exists|u: usize|
                #![trigger layer.contains(u), rs[u as int].contains(p)]
                layer.contains(u) && u < rs.len() && p != u && rs[u as int].contains(p),
    )
}

pub open spec fn measure_all(visited: Set<usize>, last: Set<usize>, next: Set<usize>, n: usize) -> int {
    n - visited.union(last).union(next).intersect(below(n)).len()
}

pub open spec fn measure_seen(visited: Set<usize>, last: Set<usize>, n: usize) -> int {
    n - visited.union(last).intersect(below(n)).len()
}

pub open spec fn measure_pending(next: Set<usize>) -> int {
    if next.is_empty() {
        0
    } else {
        1
    }
}

proof fn lemma_len_below(s: Set<usize>, n: usize)
    ensures
        s.intersect(below(n)).finite(),
        s.intersect(below(n)).len() <= n,
{
    lemma_below_finite(n);
    vstd::set_lib::lemma_len_subset(s.intersect(below(n)), below(n));
}

proof fn lemma_strict_subset_len(a: Set<usize>, b: Set<usize>, x: usize)
    requires
        b.finite(),
        a.subset_of(b),
        b.contains(x),
        !a.contains(x),
    ensures
        a.len() < b.len(),
{
    vstd::set_lib::lemma_len_subset(a, b.remove(x));
}

/// One layer of exploration strictly decreases the pass measure.
pub proof fn lemma_pass_decreases(
    rs: Seq<Set<usize>>,
    visited: Set<usize>,
    last: Set<usize>,
    next: Set<usize>,
    n: usize,
)
    requires
        !next.is_empty(),
    ensures
        ({
            let v2 = visited.union(last);
            let next2 = layer_next(rs, v2, next, n);
            ||| measure_all(v2, next, next2, n) < measure_all(visited, last, next, n)
            ||| (measure_all(v2, next, next2, n) == measure_all(visited, last, next, n)
                && measure_seen(v2, next, n) < measure_seen(visited, last, n))
            ||| (measure_all(v2, next, next2, n) == measure_all(visited, last, next, n)
                && measure_seen(v2, next, n) == measure_seen(visited, last, n)
                && measure_pending(next2) < measure_pending(next))
        }),
        ({
            let v2 = visited.union(last);
            let next2 = layer_next(rs, v2, next, n);
            &&& 0 <= measure_all(v2, next, next2, n)
            &&& 0 <= measure_seen(v2, next, n)
        }),
{
    let v2 = visited.union(last);
    let next2 = layer_next(rs, v2, next, n);
    let a_old = visited.union(last).union(next).intersect(below(n));
    let a_new = v2.union(next).union(next2).intersect(below(n));
    let s_old = visited.union(last).intersect(below(n));
    let s_new = v2.union(next).intersect(below(n));
    lemma_len_below(visited.union(last).union(next), n);
    lemma_len_below(v2.union(next).union(next2), n);
    lemma_len_below(visited.union(last), n);
    lemma_len_below(v2.union(next), n);
    assert(a_old.subset_of(a_new));
    assert(s_old.subset_of(s_new));
    vstd::set_lib::lemma_len_subset(a_old, a_new);
    vstd::set_lib::lemma_len_subset(s_old, s_new);
    if exists|p: usize| next2.contains(p) && !a_old.contains(p) {
        let p = choose|p: usize| next2.contains(p) && !a_old.contains(p);
        lemma_strict_subset_len(a_old, a_new, p);
    } else {
        assert(a_old =~= a_new);
        if exists|p: usize| next.contains(p) && p < n && !v2.contains(p) {
            let p = choose|p: usize| next.contains(p) && p < n && !v2.contains(p);
            lemma_strict_subset_len(s_old, s_new, p);
        } else {
            assert(s_old =~= s_new);
            assert(next2 =~= Set::empty()) by {
                assert forall|p: usize| !next2.contains(p) by {
                    if next2.contains(p) {
                        assert(a_new.contains(p));
                    }
                }
            }
        }
    }
}

/// Explores, layer by layer, from the nodes of `next`, until no new parent is
/// reached. `last` is the layer explored just before; it joins `visited` when
/// the next layer starts. Gives the final state and the last explored layer.
pub open spec fn run_pass(
    st: Removal,
    visited: Set<usize>,
    last: Set<usize>,
    next: Set<usize>,
    n: usize,
) -> (Removal, Set<usize>)
    decreases measure_all(visited, last, next, n), measure_seen(visited, last, n), measure_pending(
        next,
    ),
{
    if next.is_empty() {
        (st, last)
    } else {
        proof {
            lemma_pass_decreases(st.rs, visited, last, next, n);
        }
        let v2 = visited.union(last);
        run_pass(process_layer(st, v2, next), v2, next, layer_next(st.rs, v2, next, n), n)
    }
}

/// The state before any exploration.
pub open spec fn removal_init(rs0: Seq<Set<usize>>) -> Removal {
    Removal {
        rs: rs0,
        cyc: Seq::new(rs0.len(), |u: int| Set::empty()),
        rank: Seq::new(rs0.len(), |u: int| -1),
        clock: 0,
    }
}

/// Runs one pass from each of the first `k` nodes that is an output, in index
/// order. The last layer of a pass is held over and counts as visited when the
/// next pass starts.
pub open spec fn removal_upto(nodes: Seq<Node>, rs0: Seq<Set<usize>>, n: usize, k: nat) -> (
    Removal,
    Set<usize>,
)
    decreases k,
{
    if k == 0 {
        (removal_init(rs0), Set::empty())
    } else {
        let (st, w) = removal_upto(nodes, rs0, n, (k - 1) as nat);
        if nodes[k - 1] is Output {
            run_pass(st, Set::empty(), w, set![(k - 1) as usize], n)
        } else {
            (st, w)
        }
    }
}

/// The outcome of the cycle removal over the parent sets `rs0` of the graph
/// whose nodes are `nodes`.
pub open spec fn removal(nodes: Seq<Node>, rs0: Seq<Set<usize>>) -> Removal {
    removal_upto(nodes, rs0, nodes.len() as usize, nodes.len()).0
}

/// Exploring one more node of a layer extends the partial exploration of that
/// layer; exploring a node twice changes nothing.
proof fn lemma_layer_step(st0: Removal, v2: Set<usize>, done: Set<usize>, node: usize, n: usize)
    requires
        st0.rs.len() == n,
        st0.cyc.len() == n,
        st0.rank.len() == n,
        sets_below(st0.rs, n),
        node < n,
    ensures
        ({
            let cur_st = process_layer(st0, v2, done);
            let new_st = process_layer(st0, v2, done.insert(node));
            let cur = cur_st.rs[node as int];
            &&& new_st.rs == cur_st.rs.update(node as int, cur.remove(node).difference(v2))
            &&& new_st.cyc == cur_st.cyc.update(
                node as int,
                cur_st.cyc[node as int].union(cur.remove(node).intersect(v2)),
            )
            &&& layer_next(st0.rs, v2, done.insert(node), n) == layer_next(st0.rs, v2, done, n).union(
                cur.remove(node).difference(v2),
            )
        }),
{
    let cur_st = process_layer(st0, v2, done);
    let new_st = process_layer(st0, v2, done.insert(node));
    let cur = cur_st.rs[node as int];
    if done.contains(node) {
        assert(cur.remove(node).difference(v2) =~= cur);
        assert(cur.remove(node).intersect(v2) =~= Set::empty());
        assert(cur_st.cyc[node as int].union(Set::empty()) =~= cur_st.cyc[node as int]);
    }
    assert forall|u: int| 0 <= u < n implies #[trigger] new_st.rs[u] == cur_st.rs.update(
        node as int,
        cur.remove(node).difference(v2),
    )[u] && new_st.cyc[u] == cur_st.cyc.update(
        node as int,
        cur_st.cyc[node as int].union(cur.remove(node).intersect(v2)),
    )[u] by {
        if u != node as int {
            assert((u as usize) != node);
        }
    }
    assert(new_st.rs =~= cur_st.rs.update(node as int, cur.remove(node).difference(v2)));
    assert(new_st.cyc =~= cur_st.cyc.update(
        node as int,
        cur_st.cyc[node as int].union(cur.remove(node).intersect(v2)),
    ));
    let a = layer_next(st0.rs, v2, done.insert(node), n);
    let b = layer_next(st0.rs, v2, done, n).union(cur.remove(node).difference(v2));
    assert forall|p: usize| a.contains(p) == b.contains(p) by {
        if a.contains(p) {
            let u = choose|u: usize|
                #![trigger done.insert(node).contains(u), st0.rs[u as int].contains(p)]
                done.insert(node).contains(u) && u < st0.rs.len() && p != u && st0.rs[u as int].contains(
                    p,
                );
            if u != node {
                assert(done.contains(u));
                assert(layer_next(st0.rs, v2, done, n).contains(p));
            } else if done.contains(node) {
                assert(layer_next(st0.rs, v2, done, n).contains(p));
            } else {
                assert(cur == st0.rs[node as int]);
            }
        }
        if b.contains(p) {
            if layer_next(st0.rs, v2, done, n).contains(p) {
                let u = choose|u: usize|
                    #![trigger done.contains(u), st0.rs[u as int].contains(p)]
                    done.contains(u) && u < st0.rs.len() && p != u && st0.rs[u as int].contains(p);
                assert(done.insert(node).contains(u));
            } else {
                assert(st0.rs[node as int].subset_of(below(n)));
                if done.contains(node) {
                    assert(st0.rs[node as int].contains(p));
                } else {
                    assert(st0.rs[node as int].contains(p));
                }
                assert(done.insert(node).contains(node));
                assert(p < n);
            }
        }
    }
    assert(a =~= b);
}

/// What holds of the cycle removal between two layers: the links only shrink,
/// every explored node is below the clock, and a link from an explored node
/// leads to a parent explored later, or to one of the pending layer `next`.
pub open spec fn rank_inv(st: Removal, next: Set<usize>, rs0: Seq<Set<usize>>, n: usize) -> bool {
    &&& st.rs.len() == n
    &&& st.cyc.len() == n
    &&& st.rank.len() == n
    &&& rs0.len() == n
    &&& st.clock >= 0
    &&& sets_below(st.rs, n)
    &&& forall|u: int| 0 <= u < n ==> -1 <= #[trigger] st.rank[u] < st.clock
    &&& forall|u: int| 0 <= u < n ==> (#[trigger] st.rs[u]).subset_of(rs0[u])
    &&& forall|u: int| 0 <= u < n ==> (#[trigger] st.cyc[u]).subset_of(rs0[u])
    &&& forall|u: int| 0 <= u < n ==> (#[trigger] st.rs[u]).disjoint(st.cyc[u])
    &&& forall|u: int| 0 <= u < n ==> !(#[trigger] st.cyc[u]).contains(u as usize)
    &&& forall|u: int| 0 <= u < n && #[trigger] st.rank[u] < 0 ==> st.rs[u] == rs0[u] && st.cyc[u] == Set::<usize>::empty()
    &&& forall|u: int| 0 <= u < n ==> (#[trigger] rs0[u]).remove(u as usize).subset_of(st.rs[u].union(st.cyc[u]))
    &&& forall|u: int, p: usize|
        #![trigger st.rs[u].contains(p)]
        0 <= u < n && st.rank[u] >= 0 && st.rs[u].contains(p) ==> next.contains(p) || st.rank[u]
            < st.rank[p as int]
}

proof fn lemma_process_layer_inv(
    st: Removal,
    v2: Set<usize>,
    next: Set<usize>,
    rs0: Seq<Set<usize>>,
    n: usize,
)
    requires
        rank_inv(st, next, rs0, n),
        next.subset_of(below(n)),
    ensures
        rank_inv(process_layer(st, v2, next), layer_next(st.rs, v2, next, n), rs0, n),
        forall|u: int| 0 <= u < n ==> st.rank[u] <= #[trigger] process_layer(st, v2, next).rank[u],
        forall|u: usize| #[trigger] next.contains(u) ==> process_layer(st, v2, next).rank[u as int] >= 0,
        process_layer(st, v2, next).clock == st.clock + 1,
{
    let st2 = process_layer(st, v2, next);
    let next2 = layer_next(st.rs, v2, next, n);
    assert forall|u: int| 0 <= u < n implies (#[trigger] st2.rs[u]).subset_of(below(n)) by {
        assert(st.rs[u].subset_of(below(n)));
    }
    assert forall|u: int| 0 <= u < n implies (#[trigger] st2.rs[u]).subset_of(rs0[u]) by {
        assert(st.rs[u].subset_of(rs0[u]));
    }
    assert forall|u: int| 0 <= u < n implies (#[trigger] st2.cyc[u]).subset_of(rs0[u]) by {
        assert(st.rs[u].subset_of(rs0[u]));
        assert(st.cyc[u].subset_of(rs0[u]));
    }
    assert forall|u: int| 0 <= u < n implies (#[trigger] st2.rs[u]).disjoint(st2.cyc[u]) by {
        assert(st.rs[u].disjoint(st.cyc[u]));
    }
    assert forall|u: int| 0 <= u < n implies !(#[trigger] st2.cyc[u]).contains(u as usize) by {
        assert(!st.cyc[u].contains(u as usize));
    }
    assert forall|u: int| 0 <= u < n && #[trigger] st2.rank[u] < 0 implies st2.rs[u] == rs0[u]
        && st2.cyc[u] == Set::<usize>::empty() by {
        assert(!next.contains(u as usize));
    }
    assert forall|u: int| 0 <= u < n implies (#[trigger] rs0[u]).remove(u as usize).subset_of(
        st2.rs[u].union(st2.cyc[u]),
    ) by {
        assert(rs0[u].remove(u as usize).subset_of(st.rs[u].union(st.cyc[u])));
    }
    assert forall|u: int, p: usize|
        0 <= u < n && st2.rank[u] >= 0 && #[trigger] st2.rs[u].contains(p) implies next2.contains(p)
        || st2.rank[u] < st2.rank[p as int] by {
        assert(st.rs[u].subset_of(below(n)));
        if next.contains(u as usize) {
            assert(st.rs[u].contains(p));
            assert(layer_next(st.rs, v2, next, n).contains(p)) by {
                assert(next.contains(u as usize) && (u as usize) < st.rs.len() && p != (u as usize)
                    && st.rs[(u as usize) as int].contains(p));
            }
        } else {
            assert(st.rs[u].contains(p));
            assert(p < n);
            if next.contains(p) {
                assert(st2.rank[p as int] == st.clock);
            }
        }
    }
}

proof fn lemma_run_pass_inv(
    st: Removal,
    visited: Set<usize>,
    last: Set<usize>,
    next: Set<usize>,
    rs0: Seq<Set<usize>>,
    n: usize,
)
    requires
        rank_inv(st, next, rs0, n),
        next.subset_of(below(n)),
    ensures
        rank_inv(run_pass(st, visited, last, next, n).0, Set::empty(), rs0, n),
        forall|u: int| 0 <= u < n ==> st.rank[u] <= #[trigger] run_pass(st, visited, last, next, n).0.rank[u],
        forall|u: usize| #[trigger] next.contains(u) ==> run_pass(st, visited, last, next, n).0.rank[u as int] >= 0,
        run_pass(st, visited, last, next, n).0.clock >= st.clock,
    decreases measure_all(visited, last, next, n), measure_seen(visited, last, n), measure_pending(next),
{
    if next.is_empty() {
        assert(rank_inv(st, Set::empty(), rs0, n)) by {
            assert forall|u: int, p: usize|
                #![trigger st.rs[u].contains(p)]
                0 <= u < n && st.rank[u] >= 0 && st.rs[u].contains(p) implies st.rank[u] < st.rank[p as int] by {
                assert(!next.contains(p));
            }
        }
    } else {
        lemma_pass_decreases(st.rs, visited, last, next, n);
        let v2 = visited.union(last);
        let st2 = process_layer(st, v2, next);
        let next2 = layer_next(st.rs, v2, next, n);
        lemma_process_layer_inv(st, v2, next, rs0, n);
        assert(next2.subset_of(below(n)));
        lemma_run_pass_inv(st2, v2, next, next2, rs0, n);
    }
}

/// What holds of the cycle removal after the passes from the first `k` nodes:
/// every output among them was explored.
pub proof fn lemma_removal_upto_inv(nodes: Seq<Node>, rs0: Seq<Set<usize>>, n: usize, k: nat)
    requires
        n == nodes.len(),
        rs0.len() == n,
        sets_below(rs0, n),
        k <= n,
    ensures
        rank_inv(removal_upto(nodes, rs0, n, k).0, Set::empty(), rs0, n),
        forall|o: int| 0 <= o < k && nodes[o] is Output ==> #[trigger] removal_upto(nodes, rs0, n, k).0.rank[o] >= 0,
    decreases k,
{
    if k == 0 {
        let st = removal_init(rs0);
        assert(rank_inv(st, Set::empty(), rs0, n)) by {
            assert forall|u: int| 0 <= u < n implies (#[trigger] st.cyc[u]).subset_of(rs0[u]) by {
                assert(st.cyc[u] =~= Set::empty());
            }
            assert forall|u: int| 0 <= u < n implies (#[trigger] st.rs[u]).disjoint(st.cyc[u]) by {
                assert(st.cyc[u] =~= Set::empty());
            }
            assert forall|u: int| 0 <= u < n implies !(#[trigger] st.cyc[u]).contains(u as usize) by {
                assert(st.cyc[u] =~= Set::empty());
            }
            assert forall|u: int| 0 <= u < n && #[trigger] st.rank[u] < 0 implies st.rs[u] == rs0[u]
                && st.cyc[u] == Set::<usize>::empty() by {
                assert(st.cyc[u] =~= Set::empty());
            }
        }
    } else {
        lemma_removal_upto_inv(nodes, rs0, n, (k - 1) as nat);
        let (st, w) = removal_upto(nodes, rs0, n, (k - 1) as nat);
        if nodes[k - 1] is Output {
            let o = (k - 1) as usize;
            assert(rank_inv(st, set![o], rs0, n));
            lemma_run_pass_inv(st, Set::empty(), w, set![o], rs0, n);
            assert(set![o].contains(o));
        }
    }
}

/// The cycle removal only splits the links of each node: every link other
/// than a node's link to itself is either kept or cut, never both, and no link
/// is added.
pub proof fn lemma_removal_splits_links(nodes: Seq<Node>, rs0: Seq<Set<usize>>)
    requires
        rs0.len() == nodes.len(),
        nodes.len() <= usize::MAX,
        sets_below(rs0, nodes.len() as usize),
    ensures
        ({
            let r = removal(nodes, rs0);
            &&& r.rs.len() == nodes.len()
            &&& r.cyc.len() == nodes.len()
            &&& forall|u: int| 0 <= u < nodes.len() ==> (#[trigger] r.rs[u]).subset_of(rs0[u])
            &&& forall|u: int| 0 <= u < nodes.len() ==> (#[trigger] r.cyc[u]).subset_of(rs0[u])
            &&& forall|u: int| 0 <= u < nodes.len() ==> (#[trigger] r.rs[u]).disjoint(r.cyc[u])
            &&& forall|u: int|
                0 <= u < nodes.len() ==> (#[trigger] rs0[u]).remove(u as usize).subset_of(
                    r.rs[u].union(r.cyc[u]),
                )
            &&& forall|u: int| 0 <= u < nodes.len() ==> !(#[trigger] r.cyc[u]).contains(u as usize)
        }),
{
    lemma_removal_upto_inv(nodes, rs0, nodes.len() as usize, nodes.len());
}

/// The cycle removal leaves no loop among the nodes it explores: it explores
/// every output, each explored node has a rank, and along every link kept
/// from an explored node to a parent the rank rises strictly (so the parent
/// is explored too, and no chain of kept links returns to where it started).
/// A node it does not explore keeps all its links and loses none.
pub proof fn lemma_removal_no_loop(nodes: Seq<Node>, rs0: Seq<Set<usize>>)
    requires
        rs0.len() == nodes.len(),
        nodes.len() <= usize::MAX,
        sets_below(rs0, nodes.len() as usize),
    ensures
        ({
            let r = removal(nodes, rs0);
            &&& r.rank.len() == nodes.len()
            &&& forall|o: int| 0 <= o < nodes.len() && nodes[o] is Output ==> #[trigger] r.rank[o] >= 0
            &&& forall|u: int, p: usize|
                #![trigger r.rs[u].contains(p)]
                0 <= u < nodes.len() && r.rank[u] >= 0 && r.rs[u].contains(p) ==> r.rank[u] < r.rank[p as int]
            &&& forall|u: int|
                0 <= u < nodes.len() && #[trigger] r.rank[u] < 0 ==> r.rs[u] == rs0[u] && r.cyc[u]
                    == Set::<usize>::empty()
        }),
{
    lemma_removal_upto_inv(nodes, rs0, nodes.len() as usize, nodes.len());
    let r = removal(nodes, rs0);
    assert forall|u: int, p: usize|
        #![trigger r.rs[u].contains(p)]
        0 <= u < nodes.len() && r.rank[u] >= 0 && r.rs[u].contains(p) implies r.rank[u] < r.rank[p as int] by {
        assert(!Set::<usize>::empty().contains(p));
    }
}

/// Every parent set of `rs` names nodes below `n`.
pub open spec fn sets_below(rs: Seq<Set<usize>>, n: usize) -> bool {
    forall|u: int| 0 <= u < rs.len() ==> (#[trigger] rs[u]).subset_of(below(n))
}

/// Explores the parents of one node of the current layer: the links to
/// unvisited parents stay and those parents join the next layer; the links to
/// visited parents are cut and recorded in `cycles`.
fn explore_node(
    node: usize,
    reverse_search: &mut Vec<Vec<usize>>,
    cycles: &mut Vec<Vec<usize>>,
    visited: &BTreeSet<usize>,
    next_queue: &mut VecDeque<usize>,
    n: usize,
)
    requires
        node < n,
        old(reverse_search)@.len() == n,
        old(cycles)@.len() == n,
        sets_below(sets_of(old(reverse_search)@), n),
    ensures
        final(reverse_search)@.len() == n,
        final(cycles)@.len() == n,
        ({
            let cur = sets_of(old(reverse_search)@)[node as int];
            &&& sets_of(final(reverse_search)@) == sets_of(old(reverse_search)@).update(
                node as int,
                cur.remove(node).difference(visited@),
            )
            &&& sets_of(final(cycles)@) == sets_of(old(cycles)@).update(
                node as int,
                sets_of(old(cycles)@)[node as int].union(cur.remove(node).intersect(visited@)),
            )
            &&& final(next_queue)@.to_set() == old(next_queue)@.to_set().union(
                cur.remove(node).difference(visited@),
            )
        }),
        forall|i: int|
            0 <= i < final(next_queue)@.len() && !(0 <= i < old(next_queue)@.len())
                ==> #[trigger] final(next_queue)@[i] < n,
        forall|i: int|
            0 <= i < old(next_queue)@.len() ==> #[trigger] final(next_queue)@[i] == old(
                next_queue,
            )@[i],
{
    let ghost rs_before = sets_of(reverse_search@);
    let ghost cyc_before = sets_of(cycles@);
    let ghost nq_before = next_queue@;
    let mut parent_queue: Vec<usize> = Vec::new();
    reverse_search.set_and_swap(node, &mut parent_queue);
    let mut cycle_with: Vec<usize> = Vec::new();
    cycles.set_and_swap(node, &mut cycle_with);
    let ghost cur = parent_queue@.to_set();
    let ghost cyc_u = cycle_with@.to_set();
    proof {
        assert(rs_before.len() == n);
        assert(rs_before[node as int] == cur);
        assert(rs_before[node as int].subset_of(below(n)));
    }
    let mut parents: Vec<usize> = Vec::new();
    let mut j: usize = 0;
    while j < parent_queue.len()
        invariant
            0 <= j <= parent_queue.len(),
            node < n,
            cur == parent_queue@.to_set(),
            cur == rs_before[node as int],
            cur.subset_of(below(n)),
            reverse_search@.len() == n,
            cycles@.len() == n,
            parents@.to_set() == parent_queue@.take(j as int).to_set().remove(node).difference(
                visited@,
            ),
            cycle_with@.to_set() == cyc_u.union(
                parent_queue@.take(j as int).to_set().remove(node).intersect(visited@),
            ),
            next_queue@.to_set() == nq_before.to_set().union(
                parent_queue@.take(j as int).to_set().remove(node).difference(visited@),
            ),
            next_queue@.len() >= nq_before.len(),
            forall|i: int| 0 <= i < nq_before.len() ==> #[trigger] next_queue@[i] == nq_before[i],
            forall|i: int|
                0 <= i < next_queue@.len() && !(0 <= i < nq_before.len()) ==> #[trigger] next_queue@[i]
                    < n,
        decreases parent_queue.len() - j,
    {
        let parent = parent_queue[j];
        proof {
            lemma_to_set_take_succ(parent_queue@, j as int);
            assert(parent_queue@.contains(parent));
            assert(cur.contains(parent));
        }
        let ghost take_j = parent_queue@.take(j as int).to_set();
        if parent == node {
            proof {
                assert(parent_queue@.take(j as int + 1).to_set().remove(node) =~= take_j.remove(node));
            }
        } else if !visited.contains(&parent) {
            set_insert(&mut parents, parent);
            let ghost nq_old = next_queue@;
            next_queue.push_back(parent);
            proof {
                lemma_to_set_push(nq_old, parent);
                assert(parent_queue@.take(j as int + 1).to_set().remove(node).difference(visited@)
                    =~= take_j.remove(node).difference(visited@).insert(parent));
                assert(parent_queue@.take(j as int + 1).to_set().remove(node).intersect(visited@)
                    =~= take_j.remove(node).intersect(visited@));
                assert(next_queue@.to_set() =~= nq_before.to_set().union(
                    parent_queue@.take(j as int + 1).to_set().remove(node).difference(visited@),
                ));
            }
        } else {
            set_insert(&mut cycle_with, parent);
            proof {
                assert(parent_queue@.take(j as int + 1).to_set().remove(node).difference(visited@)
                    =~= take_j.remove(node).difference(visited@));
                assert(parent_queue@.take(j as int + 1).to_set().remove(node).intersect(visited@)
                    =~= take_j.remove(node).intersect(visited@).insert(parent));
                assert(cycle_with@.to_set() =~= cyc_u.union(
                    parent_queue@.take(j as int + 1).to_set().remove(node).intersect(visited@),
                ));
            }
        }
        j += 1;
    }
    proof {
        lemma_to_set_full_take(parent_queue@);
    }
    let ghost rs_mid = reverse_search@;
    let ghost cyc_mid = cycles@;
    reverse_search.set(node, parents);
    cycles.set(node, cycle_with);
    proof {
        assert(sets_of(reverse_search@) =~= rs_before.update(
            node as int,
            cur.remove(node).difference(visited@),
        ));
        assert(sets_of(cycles@) =~= cyc_before.update(
            node as int,
            cyc_before[node as int].union(cur.remove(node).intersect(visited@)),
        ));
    }
}

/// Removes the links that close a cycle. From each output node in turn, the
/// parents are explored layer by layer; a link from a node to a parent that was
/// already visited (or to itself) is cut. Returns, for each node, the parents
/// whose link was cut; `reverse_search` keeps the links that stay.
pub fn cycle_removal(nodes: &[Node], reverse_search: &mut Vec<Vec<usize>>) -> (cycles: Vec<
    Vec<usize>,
>)
    requires
        old(reverse_search)@.len() == nodes@.len(),
        sets_below(sets_of(old(reverse_search)@), nodes@.len() as usize),
    ensures
        final(reverse_search)@.len() == nodes@.len(),
        cycles@.len() == nodes@.len(),
        sets_of(final(reverse_search)@) == removal(nodes@, sets_of(old(reverse_search)@)).rs,
        sets_of(cycles@) == removal(nodes@, sets_of(old(reverse_search)@)).cyc,
{
    let n = nodes.len();
    let ghost rs0 = sets_of(reverse_search@);
    let mut queue: VecDeque<usize> = VecDeque::new();
    let mut next_queue: VecDeque<usize> = VecDeque::new();
    let mut visited: BTreeSet<usize> = BTreeSet::new();
    let mut visit_queue: Vec<usize> = Vec::new();
    let mut cycles: Vec<Vec<usize>> = Vec::new();
    let mut i: usize = 0;
    while i < n
        invariant
            0 <= i <= n,
            cycles@.len() == i,
            forall|u: int| 0 <= u < i ==> (#[trigger] cycles@[u])@ == Seq::<usize>::empty(),
        decreases n - i,
    {
        cycles.push(Vec::new());
        i += 1;
    }
    let ghost mut st = removal_init(rs0);
    proof {
        assert(sets_of(cycles@) =~= st.cyc) by {
            assert forall|u: int| 0 <= u < n implies #[trigger] sets_of(cycles@)[u] == st.cyc[u] by {
                assert(cycles@[u]@ == Seq::<usize>::empty());
                assert(cycles@[u]@.to_set() =~= Set::empty());
            }
        }
        assert(visit_queue@.to_set() =~= Set::empty());
    }
    let mut out_node: usize = 0;
    while out_node < n
        invariant
            0 <= out_node <= n,
            n == nodes@.len(),
            reverse_search@.len() == n,
            cycles@.len() == n,
            (st, visit_queue@.to_set()) == removal_upto(nodes@, rs0, n, out_node as nat),
            sets_of(reverse_search@) == st.rs,
            sets_of(cycles@) == st.cyc,
            st.rs.len() == n,
            st.cyc.len() == n,
            st.rank.len() == n,
            sets_below(st.rs, n),
            forall|k: int| 0 <= k < visit_queue@.len() ==> #[trigger] visit_queue@[k] < n,
            visited@ == Set::<usize>::empty(),
            queue@.len() == 0,
            next_queue@.len() == 0,
        decreases n - out_node,
    {
        if let Node::Output { .. } = nodes[out_node] {
            next_queue.push_back(out_node);
            let ghost target = run_pass(
                st,
                Set::empty(),
                visit_queue@.to_set(),
                set![out_node],
                n,
            );
            proof {
                assert(next_queue@.to_set() =~= set![out_node]) by {
                    assert(next_queue@ =~= seq![out_node]);
                    lemma_to_set_push(Seq::<usize>::empty(), out_node);
                    assert(Seq::<usize>::empty().to_set() =~= Set::empty());
                }
            }
            while next_queue.len() > 0
                invariant
                    n == nodes@.len(),
                    out_node < n,
                    reverse_search@.len() == n,
                    cycles@.len() == n,
                    run_pass(st, visited@, visit_queue@.to_set(), next_queue@.to_set(), n) == target,
                    sets_of(reverse_search@) == st.rs,
                    sets_of(cycles@) == st.cyc,
                    st.rs.len() == n,
                    st.cyc.len() == n,
                    st.rank.len() == n,
                    sets_below(st.rs, n),
                    forall|k: int| 0 <= k < visit_queue@.len() ==> #[trigger] visit_queue@[k] < n,
                    forall|k: int| 0 <= k < next_queue@.len() ==> #[trigger] next_queue@[k] < n,
                    queue@.len() == 0,
                decreases measure_all(visited@, visit_queue@.to_set(), next_queue@.to_set(), n),
                    measure_seen(visited@, visit_queue@.to_set(), n),
                    measure_pending(next_queue@.to_set()),
            {
                let ghost visited_before = visited@;
                let ghost last = visit_queue@.to_set();
                let ghost layer = next_queue@.to_set();
                proof {
                    assert(next_queue@[0] < n);
                    assert(next_queue@.to_set().contains(next_queue@[0]));
                    lemma_pass_decreases(st.rs, visited_before, last, layer, n);
                }
                while visit_queue.len() > 0
                    invariant
                        visited@.union(visit_queue@.to_set()) == visited_before.union(last),
                    decreases visit_queue.len(),
                {
                    let ghost vq = visit_queue@;
                    let node = visit_queue.pop().unwrap();
                    proof {
                        lemma_to_set_drop_last(vq);
                    }
                    visited.insert(node);
                    proof {
                        assert(visited@.union(visit_queue@.to_set()) =~= visited_before.union(last));
                    }
                }
                proof {
                    assert(visit_queue@.to_set() =~= Set::empty());
                    assert(visited@ =~= visited_before.union(last));
                }
                std::mem::swap(&mut queue, &mut next_queue);
                let ghost v2 = visited@;
                let ghost st0 = st;
                let ghost mut done: Set<usize> = Set::empty();
                proof {
                    assert(process_layer(st0, v2, done).rs =~= st0.rs);
                    assert(process_layer(st0, v2, done).cyc =~= st0.cyc);
                    assert(layer_next(st0.rs, v2, done, n) =~= Set::empty());
                    assert(next_queue@.to_set() =~= Set::empty());
                }
                while queue.len() > 0
                    invariant
                        n == nodes@.len(),
                        reverse_search@.len() == n,
                        cycles@.len() == n,
                        st0.rs.len() == n,
                        st0.cyc.len() == n,
                        st0.rank.len() == n,
                        sets_below(st0.rs, n),
                        visited@ == v2,
                        queue@.to_set().union(done) == layer,
                        done.subset_of(layer),
                        sets_of(reverse_search@) == process_layer(st0, v2, done).rs,
                        sets_of(cycles@) == process_layer(st0, v2, done).cyc,
                        next_queue@.to_set() == layer_next(st0.rs, v2, done, n),
                        visit_queue@.to_set() == done,
                        forall|k: int| 0 <= k < queue@.len() ==> #[trigger] queue@[k] < n,
                        forall|k: int| 0 <= k < visit_queue@.len() ==> #[trigger] visit_queue@[k] < n,
                        forall|k: int| 0 <= k < next_queue@.len() ==> #[trigger] next_queue@[k] < n,
                    decreases queue@.len(),
                {
                    let ghost q = queue@;
                    let node = queue.pop_front().unwrap();
                    proof {
                        lemma_to_set_drop_first(q);
                        assert(q[0] < n);
                        lemma_layer_step(st0, v2, done, node, n);
                        assert forall|u: int| 0 <= u < n implies #[trigger] process_layer(
                            st0,
                            v2,
                            done,
                        ).rs[u].subset_of(below(n)) by {
                            assert(st0.rs[u].subset_of(below(n)));
                        }
                    }
                    let ghost vq = visit_queue@;
                    visit_queue.push(node);
                    explore_node(node, reverse_search, &mut cycles, &visited, &mut next_queue, n);
                    proof {
                        lemma_to_set_push(vq, node);
                        done = done.insert(node);
                        assert(queue@.to_set().union(done) =~= layer);
                        assert forall|k: int| 0 <= k < visit_queue@.len() implies #[trigger] visit_queue@[k] < n by {
                            if k < vq.len() {
                                assert(visit_queue@[k] == vq[k]);
                            }
                        }
                    }
                }
                proof {
                    assert(queue@.to_set() =~= Set::empty());
                    assert(done =~= layer);
                    st = process_layer(st0, v2, layer);
                    assert forall|u: int| 0 <= u < n implies #[trigger] st.rs[u].subset_of(below(n)) by {
                        assert(st0.rs[u].subset_of(below(n)));
                    }
                }
            }
            proof {
                assert(next_queue@.to_set() =~= Set::empty());
            }
            visited.clear();
        }
        out_node += 1;
    }
    cycles
}

} // verus!
