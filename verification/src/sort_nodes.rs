use vstd::prelude::*;

use crate::cycles::{cycle_removal, lemma_removal_upto_inv, removal, removal_upto, sets_below, Removal};
use crate::graph::{edges_in_bounds, Edge, Graph, Node};
use crate::node_set::{below, lemma_to_set_push, set_contains, set_insert, sets_of};
use std::collections::{BTreeMap, VecDeque};

verus! {

/// The parents of each node: the sources of the edges that end at it.
pub open spec fn parents_of(nodes: Seq<Node>, edges: Seq<Edge>) -> Seq<Set<usize>> {
    Seq::new(
        nodes.len(),
        |v: int|
            Set::new(
                |p: usize|
                    exists|i: int|
                        #![trigger edges[i]]
                        0 <= i < edges.len() && edges[i].to == v && edges[i].from == p,
            ),
    )
}

/// The children of node `u`: the targets of the edges that leave it.
pub open spec fn children_of(edges: Seq<Edge>, u: usize) -> Set<usize> {
    Set::new(
        |w: usize|
            exists|i: int| #![trigger edges[i]] 0 <= i < edges.len() && edges[i].from == u && edges[i].to == w,
    )
}

/// The cycle removal applied to the graph.
pub open spec fn graph_removal(nodes: Seq<Node>, edges: Seq<Edge>) -> Removal {
    removal(nodes, parents_of(nodes, edges))
}

/// `s` holds every output and, with each of its nodes that is not an input,
/// the parents still linked to that node.
pub open spec fn closed_from_outputs(nodes: Seq<Node>, rs: Seq<Set<usize>>, s: Set<usize>) -> bool {
    &&& forall|o: usize| o < nodes.len() && (#[trigger] nodes[o as int]) is Output ==> s.contains(o)
    &&& forall|u: usize, p: usize|
        #![trigger s.contains(u), rs[u as int].contains(p)]
        s.contains(u) && u < nodes.len() && !(nodes[u as int] is Input) && rs[u as int].contains(p)
            ==> s.contains(p)
}

/// The nodes reached from the outputs by following the remaining links
/// towards the parents, without going past an input.
pub open spec fn reached(nodes: Seq<Node>, rs: Seq<Set<usize>>, x: usize) -> bool {
    forall|s: Set<usize>| #[trigger] closed_from_outputs(nodes, rs, s) ==> s.contains(x)
}

/// The level of a node from its parents: inputs are at 0, any other node one
/// above the highest of its remaining parents. `rank` orders the explored
/// nodes so that parents come after their children, which makes the
/// recursion well founded; `bound` is above every rank.
pub open spec fn level_of(nodes: Seq<Node>, rs: Seq<Set<usize>>, rank: Seq<int>, bound: int, x: int) -> int
    decreases bound - rank[x], nodes.len() + 1,
{
    if nodes[x] is Input {
        0
    } else {
        1 + max_parent_level(nodes, rs, rank, bound, x, nodes.len() as int)
    }
}

/// The highest level among the remaining parents of `x` below index `k`
/// (0 when there is none).
pub open spec fn max_parent_level(
    nodes: Seq<Node>,
    rs: Seq<Set<usize>>,
    rank: Seq<int>,
    bound: int,
    x: int,
    k: int,
) -> int
    decreases bound - rank[x], k,
{
    if k <= 0 || k > nodes.len() {
        0
    } else {
        let m = max_parent_level(nodes, rs, rank, bound, x, k - 1);
        let p = k - 1;
        if rs[x].contains(p as usize) && rank[x] < rank[p] && rank[p] <= bound {
            let l = level_of(nodes, rs, rank, bound, p);
            if l > m {
                l
            } else {
                m
            }
        } else {
            m
        }
    }
}

pub proof fn lemma_max_parent_level_nonneg(
    nodes: Seq<Node>,
    rs: Seq<Set<usize>>,
    rank: Seq<int>,
    bound: int,
    x: int,
    k: int,
)
    ensures
        max_parent_level(nodes, rs, rank, bound, x, k) >= 0,
    decreases k,
{
    if k > 0 && k <= nodes.len() {
        lemma_max_parent_level_nonneg(nodes, rs, rank, bound, x, k - 1);
    }
}

pub proof fn lemma_level_of_nonneg(nodes: Seq<Node>, rs: Seq<Set<usize>>, rank: Seq<int>, bound: int, x: int)
    ensures
        level_of(nodes, rs, rank, bound, x) >= 0,
{
    lemma_max_parent_level_nonneg(nodes, rs, rank, bound, x, nodes.len() as int);
}

/// When every parent of `x` ranks above `x` and within the bound,
/// `max_parent_level` is the highest level among those parents below `k`.
pub proof fn lemma_max_parent_level_is_max(
    nodes: Seq<Node>,
    rs: Seq<Set<usize>>,
    rank: Seq<int>,
    bound: int,
    x: int,
    k: int,
)
    requires
        0 <= k <= nodes.len(),
        nodes.len() <= usize::MAX,
        forall|p: usize| #[trigger] rs[x].contains(p) ==> rank[x] < rank[p as int] <= bound,
    ensures
        forall|p: usize|
            #![trigger rs[x].contains(p)]
            rs[x].contains(p) && p < k ==> level_of(nodes, rs, rank, bound, p as int)
                <= max_parent_level(nodes, rs, rank, bound, x, k),
        max_parent_level(nodes, rs, rank, bound, x, k) == 0 || exists|p: usize|
            #![trigger rs[x].contains(p)]
            rs[x].contains(p) && p < k && level_of(nodes, rs, rank, bound, p as int)
                == max_parent_level(nodes, rs, rank, bound, x, k),
    decreases k,
{
    if k > 0 {
        lemma_max_parent_level_is_max(nodes, rs, rank, bound, x, k - 1);
        let p = (k - 1) as usize;
        let m = max_parent_level(nodes, rs, rank, bound, x, k - 1);
        let r = max_parent_level(nodes, rs, rank, bound, x, k);
        if rs[x].contains(p) {
            assert(rank[x] < rank[p as int] <= bound);
        }
        if r != 0 {
            if r == m {
                let q = choose|q: usize|
                    #![trigger rs[x].contains(q)]
                    rs[x].contains(q) && q < k - 1 && level_of(nodes, rs, rank, bound, q as int) == m;
                assert(rs[x].contains(q) && q < k);
            } else {
                assert(rs[x].contains(p) && p < k);
            }
        }
    }
}

pub proof fn lemma_reached_output(nodes: Seq<Node>, rs: Seq<Set<usize>>, o: usize)
    requires
        o < nodes.len(),
        nodes[o as int] is Output,
    ensures
        reached(nodes, rs, o),
{
    assert forall|s: Set<usize>| #[trigger] closed_from_outputs(nodes, rs, s) implies s.contains(o) by {
        assert(nodes[o as int] is Output);
    }
}

pub proof fn lemma_reached_parent(nodes: Seq<Node>, rs: Seq<Set<usize>>, u: usize, p: usize)
    requires
        reached(nodes, rs, u),
        u < nodes.len(),
        !(nodes[u as int] is Input),
        rs[u as int].contains(p),
    ensures
        reached(nodes, rs, p),
{
    assert forall|s: Set<usize>| #[trigger] closed_from_outputs(nodes, rs, s) implies s.contains(p) by {
        assert(s.contains(u));
    }
}

/// The levels held in a vector, as integers.
pub open spec fn lv_view(v: Seq<Option<usize>>) -> Seq<Option<int>> {
    Seq::new(
        v.len(),
        |i: int|
            match v[i] {
                Some(l) => Some(l as int),
                None => None,
            },
    )
}

/// How many of the first `k` nodes have no level yet.
pub open spec fn count_none(lv: Seq<Option<int>>, k: int) -> int
    decreases k,
{
    if k <= 0 {
        0
    } else {
        count_none(lv, k - 1) + if lv[k - 1] is None {
            1int
        } else {
            0int
        }
    }
}

proof fn lemma_count_none_bounds(lv: Seq<Option<int>>, k: int)
    requires
        k >= 0,
    ensures
        0 <= count_none(lv, k) <= k,
    decreases k,
{
    if k > 0 {
        lemma_count_none_bounds(lv, k - 1);
    }
}

/// Giving a level to a node that had none lowers the count by one.
proof fn lemma_count_none_update(lv: Seq<Option<int>>, k: int, x: int, l: int)
    requires
        0 <= x < lv.len(),
        lv[x] is None,
        k <= lv.len(),
    ensures
        count_none(lv.update(x, Some(l)), k) == count_none(lv, k) - if x < k {
            1int
        } else {
            0int
        },
    decreases k,
{
    if k > 0 {
        lemma_count_none_update(lv, k - 1, x, l);
    }
}

/// The queue weight of a node: its rank while it has no level, -1 once it has.
pub open spec fn qval(lv: Seq<Option<int>>, rank: Seq<int>, x: usize) -> int {
    if lv[x as int] is None {
        rank[x as int]
    } else {
        -1
    }
}

/// The highest queue weight in `q` (-1 for none).
pub open spec fn max_qval(q: Seq<usize>, lv: Seq<Option<int>>, rank: Seq<int>) -> int
    decreases q.len(),
{
    if q.len() == 0 {
        -1
    } else {
        let a = qval(lv, rank, q[0]);
        let b = max_qval(q.subrange(1, q.len() as int), lv, rank);
        if a > b {
            a
        } else {
            b
        }
    }
}

/// The position of the first node of weight `m` in `q` (its length if none).
pub open spec fn first_at(q: Seq<usize>, lv: Seq<Option<int>>, rank: Seq<int>, m: int) -> int
    decreases q.len(),
{
    if q.len() == 0 {
        0
    } else if m >= 0 && qval(lv, rank, q[0]) == m {
        0
    } else {
        1 + first_at(q.subrange(1, q.len() as int), lv, rank, m)
    }
}

proof fn lemma_max_qval(q: Seq<usize>, lv: Seq<Option<int>>, rank: Seq<int>)
    requires
        forall|i: int| 0 <= i < q.len() ==> qval(lv, rank, #[trigger] q[i]) >= -1,
    ensures
        max_qval(q, lv, rank) >= -1,
        forall|i: int| 0 <= i < q.len() ==> qval(lv, rank, #[trigger] q[i]) <= max_qval(q, lv, rank),
        max_qval(q, lv, rank) == -1 || exists|i: int|
            0 <= i < q.len() && qval(lv, rank, #[trigger] q[i]) == max_qval(q, lv, rank),
    decreases q.len(),
{
    if q.len() > 0 {
        let t = q.subrange(1, q.len() as int);
        assert forall|i: int| 0 <= i < t.len() implies qval(lv, rank, #[trigger] t[i]) >= -1 by {
            assert(t[i] == q[i + 1]);
        }
        lemma_max_qval(t, lv, rank);
        assert forall|i: int| 0 <= i < q.len() implies qval(lv, rank, #[trigger] q[i]) <= max_qval(q, lv, rank) by {
            if i > 0 {
                assert(q[i] == t[i - 1]);
            }
        }
        if max_qval(q, lv, rank) != -1 && max_qval(q, lv, rank) != qval(lv, rank, q[0]) {
            let i = choose|i: int| 0 <= i < t.len() && qval(lv, rank, #[trigger] t[i]) == max_qval(t, lv, rank);
            assert(q[i + 1] == t[i]);
        }
    }
}

proof fn lemma_max_qval_concat(a: Seq<usize>, b: Seq<usize>, lv: Seq<Option<int>>, rank: Seq<int>)
    requires
        forall|i: int| 0 <= i < a.len() ==> qval(lv, rank, #[trigger] a[i]) >= -1,
        forall|i: int| 0 <= i < b.len() ==> qval(lv, rank, #[trigger] b[i]) >= -1,
    ensures
        max_qval(a + b, lv, rank) == if max_qval(a, lv, rank) > max_qval(b, lv, rank) {
            max_qval(a, lv, rank)
        } else {
            max_qval(b, lv, rank)
        },
    decreases a.len(),
{
    if a.len() == 0 {
        assert(a + b =~= b);
        lemma_max_qval(b, lv, rank);
    } else {
        let t = a.subrange(1, a.len() as int);
        assert((a + b).subrange(1, (a + b).len() as int) =~= t + b);
        assert forall|i: int| 0 <= i < t.len() implies qval(lv, rank, #[trigger] t[i]) >= -1 by {
            assert(t[i] == a[i + 1]);
        }
        lemma_max_qval_concat(t, b, lv, rank);
        assert((a + b)[0] == a[0]);
    }
}

proof fn lemma_first_at_bound(q: Seq<usize>, lv: Seq<Option<int>>, rank: Seq<int>, m: int)
    ensures
        0 <= first_at(q, lv, rank, m) <= q.len(),
        (m >= 0 && exists|i: int| 0 <= i < q.len() && qval(lv, rank, #[trigger] q[i]) == m) ==> first_at(
            q,
            lv,
            rank,
            m,
        ) < q.len(),
    decreases q.len(),
{
    if q.len() > 0 {
        let t = q.subrange(1, q.len() as int);
        lemma_first_at_bound(t, lv, rank, m);
        if m >= 0 && exists|i: int| 0 <= i < q.len() && qval(lv, rank, #[trigger] q[i]) == m {
            let i = choose|i: int| 0 <= i < q.len() && qval(lv, rank, #[trigger] q[i]) == m;
            if i > 0 && qval(lv, rank, q[0]) != m {
                assert(t[i - 1] == q[i]);
            }
        }
    }
}

proof fn lemma_first_at_concat(a: Seq<usize>, b: Seq<usize>, lv: Seq<Option<int>>, rank: Seq<int>, m: int)
    requires
        first_at(a, lv, rank, m) < a.len(),
    ensures
        first_at(a + b, lv, rank, m) == first_at(a, lv, rank, m),
    decreases a.len(),
{
    let t = a.subrange(1, a.len() as int);
    assert((a + b).subrange(1, (a + b).len() as int) =~= t + b);
    assert((a + b)[0] == a[0]);
    if !(m >= 0 && qval(lv, rank, a[0]) == m) {
        lemma_first_at_concat(t, b, lv, rank, m);
    }
}

/// Popping a node that already has a level keeps the highest weight and
/// brings its first occurrence one step closer.
proof fn lemma_skip_decreases(q: Seq<usize>, lv: Seq<Option<int>>, rank: Seq<int>)
    requires
        q.len() > 0,
        qval(lv, rank, q[0]) == -1,
        forall|i: int| 0 <= i < q.len() ==> qval(lv, rank, #[trigger] q[i]) >= -1,
    ensures
        ({
            let t = q.subrange(1, q.len() as int);
            &&& max_qval(t, lv, rank) == max_qval(q, lv, rank)
            &&& first_at(t, lv, rank, max_qval(t, lv, rank)) < first_at(q, lv, rank, max_qval(q, lv, rank))
        }),
{
    let t = q.subrange(1, q.len() as int);
    assert forall|i: int| 0 <= i < t.len() implies qval(lv, rank, #[trigger] t[i]) >= -1 by {
        assert(t[i] == q[i + 1]);
    }
    lemma_max_qval(t, lv, rank);
}

/// Putting back a node together with parents of higher weight either raises
/// the highest weight in the queue or brings its first occurrence closer.
proof fn lemma_requeue_decreases(q: Seq<usize>, pushed: Seq<usize>, lv: Seq<Option<int>>, rank: Seq<int>)
    requires
        q.len() > 0,
        pushed.len() > 0,
        qval(lv, rank, q[0]) >= 0,
        forall|i: int| 0 <= i < q.len() ==> qval(lv, rank, #[trigger] q[i]) >= -1,
        forall|i: int| 0 <= i < pushed.len() ==> qval(lv, rank, #[trigger] pushed[i]) > qval(lv, rank, q[0]),
    ensures
        ({
            let q2 = q.subrange(1, q.len() as int) + pushed + seq![q[0]];
            ||| max_qval(q2, lv, rank) > max_qval(q, lv, rank)
            ||| (max_qval(q2, lv, rank) == max_qval(q, lv, rank) && first_at(
                q2,
                lv,
                rank,
                max_qval(q2, lv, rank),
            ) < first_at(q, lv, rank, max_qval(q, lv, rank)))
        }),
{
    let x = q[0];
    let t = q.subrange(1, q.len() as int);
    let q2 = t + pushed + seq![x];
    assert forall|i: int| 0 <= i < t.len() implies qval(lv, rank, #[trigger] t[i]) >= -1 by {
        assert(t[i] == q[i + 1]);
    }
    let single = seq![x];
    assert forall|i: int| 0 <= i < single.len() implies qval(lv, rank, #[trigger] single[i]) >= -1 by {}
    assert forall|i: int| 0 <= i < pushed.len() implies qval(lv, rank, #[trigger] pushed[i]) >= -1 by {}
    lemma_max_qval(t, lv, rank);
    lemma_max_qval(pushed, lv, rank);
    lemma_max_qval(single, lv, rank);
    assert forall|i: int| 0 <= i < (t + pushed).len() implies qval(lv, rank, #[trigger] (t + pushed)[i]) >= -1 by {
        if i < t.len() {
            assert((t + pushed)[i] == t[i]);
        } else {
            assert((t + pushed)[i] == pushed[i - t.len()]);
        }
    }
    lemma_max_qval_concat(t, pushed, lv, rank);
    lemma_max_qval_concat(t + pushed, single, lv, rank);
    assert(pushed[0] == pushed[0]);
    let m = max_qval(q, lv, rank);
    let m2 = max_qval(q2, lv, rank);
    assert(max_qval(pushed, lv, rank) > qval(lv, rank, x));
    if qval(lv, rank, x) < m && m2 == m {
        assert(max_qval(t, lv, rank) == m);
        let i = choose|i: int| 0 <= i < t.len() && qval(lv, rank, #[trigger] t[i]) == max_qval(t, lv, rank);
        lemma_first_at_bound(t, lv, rank, m);
        lemma_first_at_concat(t, pushed, lv, rank, m);
        lemma_first_at_concat(t + pushed, single, lv, rank, m);
        assert(t + pushed + single == q2);
    }
}

/// The level of each node before outputs and by-products are moved to the
/// last level: inputs at 0, the nodes reached from the outputs at their
/// `level_of`, the others without a level.
pub open spec fn base_level(nodes: Seq<Node>, rs: Seq<Set<usize>>, rank: Seq<int>, bound: int, x: int) -> Option<int> {
    if nodes[x] is Input {
        Some(0)
    } else if reached(nodes, rs, x as usize) {
        Some(level_of(nodes, rs, rank, bound, x))
    } else {
        None
    }
}

pub open spec fn base_levels(nodes: Seq<Node>, rs: Seq<Set<usize>>, rank: Seq<int>, bound: int) -> Seq<Option<int>> {
    Seq::new(nodes.len(), |x: int| base_level(nodes, rs, rank, bound, x))
}

/// The highest level in `lv` among the parents in `ps` below index `k` (0
/// when none of them has a level).
pub open spec fn max_leveled_parent(ps: Set<usize>, lv: Seq<Option<int>>, k: int) -> int
    decreases k,
{
    if k <= 0 {
        0
    } else {
        let m = max_leveled_parent(ps, lv, k - 1);
        if ps.contains((k - 1) as usize) && k - 1 < lv.len() && lv[k - 1] is Some && lv[k - 1]->0 > m {
            lv[k - 1]->0
        } else {
            m
        }
    }
}

/// Every node left without a level gets one more than the highest level
/// among its parents (1 when none of them has a level).
pub open spec fn fill_missing(rs: Seq<Set<usize>>, lv: Seq<Option<int>>) -> Seq<Option<int>> {
    Seq::new(
        lv.len(),
        |x: int|
            if lv[x] is Some {
                lv[x]
            } else {
                Some(1 + max_leveled_parent(rs[x], lv, lv.len() as int))
            },
    )
}

proof fn lemma_max_leveled_parent_bounds(ps: Set<usize>, lv: Seq<Option<int>>, k: int, b: int)
    requires
        b >= 0,
        forall|y: int| 0 <= y < lv.len() && #[trigger] lv[y] is Some ==> 0 <= lv[y]->0 <= b,
    ensures
        0 <= max_leveled_parent(ps, lv, k) <= b,
        forall|p: usize|
            #![trigger ps.contains(p)]
            ps.contains(p) && p < k && p < lv.len() && lv[p as int] is Some ==> lv[p as int]->0
                <= max_leveled_parent(ps, lv, k),
    decreases k,
{
    if k > 0 {
        lemma_max_leveled_parent_bounds(ps, lv, k - 1, b);
    }
}

/// The levels given before outputs and by-products move to the last level:
/// the nodes reached from the outputs at their `base_level`, the others
/// just above their parents.
pub open spec fn start_levels(nodes: Seq<Node>, edges: Seq<Edge>) -> Seq<Option<int>> {
    let st = graph_removal(nodes, edges);
    fill_missing(st.rs, base_levels(nodes, st.rs, st.rank, st.clock))
}

/// The highest level among the first `k` nodes (0 when there is none).
pub open spec fn max_level_in(lv: Seq<Option<int>>, k: int) -> int
    decreases k,
{
    if k <= 0 {
        0
    } else {
        let m = max_level_in(lv, k - 1);
        match lv[k - 1] {
            Some(l) => if l > m {
                l
            } else {
                m
            },
            None => m,
        }
    }
}

proof fn lemma_max_level_in_update(lv: Seq<Option<int>>, k: int, x: int, l: int)
    requires
        0 <= x < lv.len(),
        lv[x] is None,
        k <= lv.len(),
    ensures
        max_level_in(lv.update(x, Some(l)), k) == if x < k {
            if l > max_level_in(lv, k) {
                l
            } else {
                max_level_in(lv, k)
            }
        } else {
            max_level_in(lv, k)
        },
    decreases k,
{
    if k > 0 {
        lemma_max_level_in_update(lv, k - 1, x, l);
    }
}

/// What the worklist keeps true: every level is the one of `base_level`,
/// inputs are at 0, the parents of a node with a level have one too, and no
/// level exceeds the number of nodes that have one.
pub open spec fn levels_inv(
    nodes: Seq<Node>,
    rs: Seq<Set<usize>>,
    rank: Seq<int>,
    bound: int,
    lv: Seq<Option<int>>,
) -> bool {
    let n = nodes.len() as int;
    &&& lv.len() == n
    &&& forall|x: int|
        #![trigger lv[x]]
        0 <= x < n && lv[x] is Some ==> lv[x] == base_level(nodes, rs, rank, bound, x)
    &&& forall|x: int| 0 <= x < n && (#[trigger] nodes[x]) is Input ==> lv[x] == Some(0int)
    &&& forall|x: int, p: usize|
        #![trigger lv[x], rs[x].contains(p)]
        0 <= x < n && lv[x] is Some && !(nodes[x] is Input) && rs[x].contains(p) ==> lv[p as int] is Some
    &&& forall|x: int|
        #![trigger lv[x]]
        0 <= x < n && lv[x] is Some ==> 0 <= lv[x]->0 <= n - count_none(lv, n)
}

/// What the cycle removal leaves for the worklist.
pub open spec fn ranked(nodes: Seq<Node>, rs: Seq<Set<usize>>, rank: Seq<int>, bound: int) -> bool {
    let n = nodes.len();
    &&& rs.len() == n
    &&& rank.len() == n
    &&& n <= usize::MAX
    &&& sets_below(rs, n as usize)
    &&& forall|u: int| 0 <= u < n ==> -1 <= #[trigger] rank[u] < bound
    &&& forall|o: int| 0 <= o < n && nodes[o] is Output ==> #[trigger] rank[o] >= 0
    &&& forall|u: int, p: usize|
        #![trigger rs[u].contains(p)]
        0 <= u < n && rank[u] >= 0 && rs[u].contains(p) ==> rank[u] < rank[p as int]
}

proof fn lemma_max_level_in_bound(lv: Seq<Option<int>>, k: int, b: int)
    requires
        k <= lv.len(),
        b >= 0,
        forall|x: int| 0 <= x < k && #[trigger] lv[x] is Some ==> lv[x]->0 <= b,
    ensures
        max_level_in(lv, k) <= b,
    decreases k,
{
    if k > 0 {
        lemma_max_level_in_bound(lv, k - 1, b);
    }
}

proof fn lemma_max_level_in_ge(lv: Seq<Option<int>>, k: int, y: int)
    requires
        0 <= y < k <= lv.len(),
        lv[y] is Some,
    ensures
        lv[y]->0 <= max_level_in(lv, k),
    decreases k,
{
    if y < k - 1 {
        lemma_max_level_in_ge(lv, k - 1, y);
    }
}

proof fn lemma_max_level_in_zero(lv: Seq<Option<int>>, k: int)
    requires
        k <= lv.len(),
        forall|x: int| 0 <= x < k && lv[x] is Some ==> #[trigger] lv[x] == Some(0int),
    ensures
        max_level_in(lv, k) == 0,
    decreases k,
{
    if k > 0 {
        lemma_max_level_in_zero(lv, k - 1);
    }
}

proof fn lemma_count_none_positive(lv: Seq<Option<int>>, k: int, x: int)
    requires
        0 <= x < k <= lv.len(),
        lv[x] is None,
    ensures
        count_none(lv, k) >= 1,
    decreases k,
{
    if x < k - 1 {
        lemma_count_none_positive(lv, k - 1, x);
    } else {
        lemma_count_none_bounds(lv, k - 1);
    }
}

/// The level computed from the parents' levels is `level_of`.
proof fn lemma_new_level(
    nodes: Seq<Node>,
    rs: Seq<Set<usize>>,
    rank: Seq<int>,
    bound: int,
    lv: Seq<Option<int>>,
    node: usize,
    from: Seq<usize>,
    max_level: int,
)
    requires
        ranked(nodes, rs, rank, bound),
        levels_inv(nodes, rs, rank, bound, lv),
        node < nodes.len(),
        rank[node as int] >= 0,
        !(nodes[node as int] is Input),
        rs[node as int] == from.to_set(),
        forall|i: int|
            0 <= i < from.len() ==> lv[#[trigger] from[i] as int] is Some && lv[from[i] as int]->0 <= max_level,
        max_level == 0 || exists|i: int| 0 <= i < from.len() && lv[#[trigger] from[i] as int] == Some(max_level),
    ensures
        level_of(nodes, rs, rank, bound, node as int) == max_level + 1,
{
    let n = nodes.len();
    assert(rs[node as int].subset_of(below(n as usize)));
    assert forall|p: usize| #[trigger] rs[node as int].contains(p) implies rank[node as int] < rank[p as int] <= bound by {
        assert(p < n);
    }
    lemma_max_parent_level_is_max(nodes, rs, rank, bound, node as int, n as int);
    lemma_max_parent_level_nonneg(nodes, rs, rank, bound, node as int, n as int);
    let mpl = max_parent_level(nodes, rs, rank, bound, node as int, n as int);
    assert forall|p: usize| #[trigger] rs[node as int].contains(p) implies lv[p as int] == Some(level_of(nodes, rs, rank, bound, p as int)) && lv[p as int]->0 <= max_level by {
        assert(from.contains(p));
        let i = choose|i: int| 0 <= i < from.len() && from[i] == p;
        assert(lv[from[i] as int] is Some);
        assert(p < n);
        assert(lv[p as int] == base_level(nodes, rs, rank, bound, p as int));
    }
    if mpl != 0 {
        let p = choose|p: usize|
            #![trigger rs[node as int].contains(p)]
            rs[node as int].contains(p) && p < n && level_of(nodes, rs, rank, bound, p as int) == mpl;
    }
    if max_level != 0 {
        let i = choose|i: int| 0 <= i < from.len() && lv[#[trigger] from[i] as int] == Some(max_level);
        let p = from[i];
        assert(from.contains(p));
        assert(rs[node as int].contains(p));
        assert(p < n);
    }
}

/// Giving `node` its level keeps the worklist invariant.
proof fn lemma_levels_inv_step(
    nodes: Seq<Node>,
    rs: Seq<Set<usize>>,
    rank: Seq<int>,
    bound: int,
    lv: Seq<Option<int>>,
    node: usize,
    l: int,
)
    requires
        levels_inv(nodes, rs, rank, bound, lv),
        ranked(nodes, rs, rank, bound),
        node < nodes.len(),
        lv[node as int] is None,
        !(nodes[node as int] is Input),
        reached(nodes, rs, node),
        l == level_of(nodes, rs, rank, bound, node as int),
        forall|p: usize| #[trigger] rs[node as int].contains(p) ==> lv[p as int] is Some,
        0 <= l <= nodes.len() - count_none(lv, nodes.len() as int) + 1,
    ensures
        levels_inv(nodes, rs, rank, bound, lv.update(node as int, Some(l))),
{
    let n = nodes.len() as int;
    let lv2 = lv.update(node as int, Some(l));
    lemma_count_none_update(lv, n, node as int, l);
    assert forall|x: int| #![trigger lv2[x]] 0 <= x < n && lv2[x] is Some implies 0 <= lv2[x]->0 <= n - count_none(lv2, n) by {
        if x != node as int {
            assert(lv[x] is Some);
        }
    }
    assert forall|x: int, p: usize|
        #![trigger lv2[x], rs[x].contains(p)]
        0 <= x < n && lv2[x] is Some && !(nodes[x] is Input) && rs[x].contains(p) implies lv2[p as int] is Some by {
        assert(rs[x].subset_of(below(n as usize)));
        assert(p < n);
        if x != node as int {
            assert(lv[x] is Some);
            assert(lv[p as int] is Some);
        } else {
            assert(lv[p as int] is Some);
        }
    }
}

/// Once every output has a level, the nodes with a level are exactly those
/// of `base_level`.
proof fn lemma_levels_complete(nodes: Seq<Node>, rs: Seq<Set<usize>>, rank: Seq<int>, bound: int, lv: Seq<Option<int>>)
    requires
        ranked(nodes, rs, rank, bound),
        levels_inv(nodes, rs, rank, bound, lv),
        forall|o: int| 0 <= o < nodes.len() && nodes[o] is Output ==> (#[trigger] lv[o]) is Some,
    ensures
        forall|x: int| 0 <= x < nodes.len() ==> #[trigger] lv[x] == base_level(nodes, rs, rank, bound, x),
{
    let n = nodes.len();
    let s = Set::new(|y: usize| y < n && lv[y as int] is Some);
    assert(closed_from_outputs(nodes, rs, s)) by {
        assert forall|o: usize| o < n && (#[trigger] nodes[o as int]) is Output implies s.contains(o) by {
            assert(lv[o as int] is Some);
        }
        assert forall|u: usize, p: usize|
            #![trigger s.contains(u), rs[u as int].contains(p)]
            s.contains(u) && u < n && !(nodes[u as int] is Input) && rs[u as int].contains(p) implies s.contains(p) by {
            assert(rs[u as int].subset_of(below(n as usize)));
            assert(lv[u as int] is Some);
        }
    }
    assert forall|x: int| 0 <= x < n implies #[trigger] lv[x] == base_level(nodes, rs, rank, bound, x) by {
        if lv[x] is None {
            if reached(nodes, rs, x as usize) {
                assert(s.contains(x as usize));
            }
        }
    }
}

/// Gives a level to every node reached from the outputs. Inputs start at
/// level 0; from each output in turn, a node whose parents all have a level
/// gets one more than the highest of them, and is otherwise queued again
/// after the parents that still miss one. Returns the highest level given.
fn assign_levels(
    nodes: &[Node],
    reverse_search: &Vec<Vec<usize>>,
    levels: &mut Vec<Option<usize>>,
    Ghost(rank): Ghost<Seq<int>>,
    Ghost(bound): Ghost<int>,
) -> (maximum_level: usize)
    requires
        reverse_search@.len() == nodes@.len(),
        ranked(nodes@, sets_of(reverse_search@), rank, bound),
        lv_view(old(levels)@) == Seq::new(
            nodes@.len(),
            |x: int|
                if nodes@[x] is Input {
                    Some(0int)
                } else {
                    None
                },
        ),
    ensures
        lv_view(final(levels)@) == base_levels(nodes@, sets_of(reverse_search@), rank, bound),
        maximum_level == max_level_in(lv_view(final(levels)@), nodes@.len() as int),
        forall|x: int|
            0 <= x < nodes@.len() && #[trigger] final(levels)@[x] is Some ==> final(levels)@[x]->0
                <= nodes@.len(),
        forall|x: int|
            0 <= x < nodes@.len() && #[trigger] final(levels)@[x] is Some ==> final(levels)@[x]->0
                + count_none(lv_view(final(levels)@), nodes@.len() as int) <= nodes@.len(),
{
    let n = nodes.len();
    let ghost rs = sets_of(reverse_search@);
    let ghost ns = nodes@;
    proof {
        let lv = lv_view(levels@);
        assert forall|x: int| 0 <= x < n && lv[x] is Some implies lv[x] == base_level(ns, rs, rank, bound, x) by {}
        lemma_count_none_bounds(lv, n as int);
        assert forall|x: int, p: usize|
            #![trigger lv[x], rs[x].contains(p)]
            0 <= x < n && lv[x] is Some && !(ns[x] is Input) && rs[x].contains(p) implies lv[p as int] is Some by {}
        assert(max_level_in(lv, n as int) == 0) by {
            lemma_max_level_in_zero(lv, n as int);
        }
    }
    let mut maximum_level: usize = 0;
    let mut queue: VecDeque<usize> = VecDeque::new();
    let mut output_node: usize = 0;
    while output_node < n
        invariant
            0 <= output_node <= n,
            n == ns.len(),
            ns == nodes@,
            rs == sets_of(reverse_search@),
            reverse_search@.len() == n,
            ranked(ns, rs, rank, bound),
            levels@.len() == n,
            levels_inv(ns, rs, rank, bound, lv_view(levels@)),
            maximum_level == max_level_in(lv_view(levels@), n as int),
            forall|o: int| 0 <= o < output_node && ns[o] is Output ==> (#[trigger] levels@[o]) is Some,
            queue@.len() == 0,
        decreases n - output_node,
    {
        if let Node::Output { .. } = nodes[output_node] {
            proof {
                lemma_reached_output(ns, rs, output_node);
            }
            queue.push_back(output_node);
            proof {
                assert(queue@[0] == output_node);
            }
            while queue.len() > 0
                invariant
                    0 <= output_node < n,
                    ns[output_node as int] is Output,
                    n == ns.len(),
                    ns == nodes@,
                    rs == sets_of(reverse_search@),
                    reverse_search@.len() == n,
                    ranked(ns, rs, rank, bound),
                    levels@.len() == n,
                    levels_inv(ns, rs, rank, bound, lv_view(levels@)),
                    maximum_level == max_level_in(lv_view(levels@), n as int),
                    forall|o: int| 0 <= o < output_node && ns[o] is Output ==> (#[trigger] levels@[o]) is Some,
                    levels@[output_node as int] is Some || queue@.contains(output_node),
                    forall|i: int|
                        0 <= i < queue@.len() ==> #[trigger] queue@[i] < n && reached(ns, rs, queue@[i])
                            && rank[queue@[i] as int] >= 0,
                decreases count_none(lv_view(levels@), n as int),
                    bound + 1 - max_qval(queue@, lv_view(levels@), rank),
                    first_at(queue@, lv_view(levels@), rank, max_qval(queue@, lv_view(levels@), rank)),
            {
                let ghost q = queue@;
                let ghost lv = lv_view(levels@);
                proof {
                    assert forall|i: int| 0 <= i < q.len() implies qval(lv, rank, #[trigger] q[i]) >= -1 by {
                        assert(q[i] < n);
                        assert(-1 <= rank[q[i] as int]);
                    }
                    lemma_max_qval(q, lv, rank);
                    lemma_count_none_bounds(lv, n as int);
                    assert(q[0] < n);
                }
                let node = queue.pop_front().unwrap();
                proof {
                    assert(queue@ == q.subrange(1, q.len() as int));
                    if node != output_node && q.contains(output_node) {
                        let i = choose|i: int| 0 <= i < q.len() && q[i] == output_node;
                        assert(queue@[i - 1] == output_node);
                    }
                }
                if levels[node].is_some() {
                    proof {
                        lemma_skip_decreases(q, lv, rank);
                        lemma_first_at_bound(queue@, lv, rank, max_qval(queue@, lv, rank));
                        assert(lv_view(levels@) == lv);
                    }
                    continue;
                }
                let ghost q_rest = queue@;
                let from = &reverse_search[node];
                proof {
                    assert(rs[node as int] == from@.to_set());
                    assert(rs[node as int].subset_of(below(n)));
                    assert(lv[node as int] is None);
                    assert(reached(ns, rs, node));
                    assert(rank[node as int] >= 0);
                }
                let mut max_level: usize = 0;
                let ghost mut pushed: Seq<usize> = Seq::empty();
                let mut j: usize = 0;
                while j < from.len()
                    invariant
                        0 <= j <= from@.len(),
                        n == ns.len(),
                        node < n,
                        levels@.len() == n,
                        lv == lv_view(levels@),
                        levels_inv(ns, rs, rank, bound, lv),
                        ranked(ns, rs, rank, bound),
                        rs[node as int] == from@.to_set(),
                        rs[node as int].subset_of(below(n)),
                        lv[node as int] is None,
                        reached(ns, rs, node),
                        !(ns[node as int] is Input),
                        rank[node as int] >= 0,
                        queue@ == q_rest + pushed,
                        forall|i: int|
                            0 <= i < pushed.len() ==> #[trigger] pushed[i] < n && rs[node as int].contains(pushed[i])
                                && lv[pushed[i] as int] is None,
                        (max_level == usize::MAX) == (pushed.len() > 0),
                        (max_level == usize::MAX) == (exists|i: int| 0 <= i < j && lv[#[trigger] from@[i] as int] is None),
                        max_level != usize::MAX ==> (forall|i: int|
                            0 <= i < j ==> lv[#[trigger] from@[i] as int] is Some && lv[from@[i] as int]->0 <= max_level),
                        max_level != usize::MAX ==> (max_level == 0 || exists|i: int|
                            0 <= i < j && lv[#[trigger] from@[i] as int] == Some(max_level as int)),
                    decreases from@.len() - j,
                {
                    let from_node = from[j];
                    proof {
                        assert(from@.to_set().contains(from_node)) by {
                            assert(from@.contains(from_node));
                        }
                        assert(from_node < n);
                    }
                    match levels[from_node] {
                        Some(level) => {
                            proof {
                                lemma_count_none_bounds(lv, n as int);
                                assert(lv[from_node as int] == Some(level as int));
                                assert(level <= n - count_none(lv, n as int));
                                assert(count_none(lv, n as int) >= 1) by {
                                    lemma_count_none_positive(lv, n as int, node as int);
                                }
                            }
                            if max_level != usize::MAX && level > max_level {
                                max_level = level;
                            }
                        },
                        None => {
                            max_level = usize::MAX;
                            queue.push_back(from_node);
                            proof {
                                pushed = pushed.push(from_node);
                                assert(queue@ =~= q_rest + pushed);
                            }
                        },
                    }
                    j += 1;
                }
                if max_level == usize::MAX {
                    queue.push_back(node);
                    proof {
                        assert forall|i: int| 0 <= i < pushed.len() implies qval(lv, rank, #[trigger] pushed[i]) > qval(lv, rank, q[0]) by {
                            assert(rs[node as int].contains(pushed[i]));
                        }
                        lemma_requeue_decreases(q, pushed, lv, rank);
                        assert(queue@ =~= q.subrange(1, q.len() as int) + pushed + seq![q[0]]);
                        assert forall|i: int| 0 <= i < queue@.len() implies #[trigger] queue@[i] < n && reached(ns, rs, queue@[i])
                            && rank[queue@[i] as int] >= 0 by {
                            if i < q_rest.len() {
                                assert(queue@[i] == q[i + 1]);
                            } else if i < q_rest.len() + pushed.len() {
                                let k = i - q_rest.len();
                                assert(queue@[i] == pushed[k]);
                                lemma_reached_parent(ns, rs, node, pushed[k]);
                                assert(rank[node as int] < rank[pushed[k] as int]);
                            } else {
                                assert(queue@[i] == node);
                            }
                        }
                        assert forall|i: int| 0 <= i < queue@.len() implies qval(lv, rank, #[trigger] queue@[i]) >= -1
                            && qval(lv, rank, queue@[i]) < bound by {
                            assert(queue@[i] < n);
                        }
                        lemma_max_qval(queue@, lv, rank);
                        lemma_first_at_bound(queue@, lv, rank, max_qval(queue@, lv, rank));
                        assert(lv_view(levels@) == lv);
                        if node == output_node {
                            assert(queue@[queue@.len() - 1] == output_node);
                        } else if lv[output_node as int] is None {
                            let i = choose|i: int| 0 <= i < q_rest.len() && q_rest[i] == output_node;
                            assert(queue@[i] == output_node);
                        }
                    }
                } else {
                    proof {
                        lemma_count_none_bounds(lv, n as int);
                        if max_level != 0 {
                            let i = choose|i: int| 0 <= i < j && lv[#[trigger] from@[i] as int] == Some(max_level as int);
                            assert(from@.to_set().contains(from@[i])) by {
                                assert(from@.contains(from@[i]));
                            }
                            assert(from@[i] < n);
                        }
                        assert(max_level <= n - count_none(lv, n as int));
                    }
                    let new_level = max_level + 1;
                    proof {
                        lemma_new_level(ns, rs, rank, bound, lv, node, from@, max_level as int);
                        lemma_count_none_update(lv, n as int, node as int, new_level as int);
                        lemma_max_level_in_update(lv, n as int, node as int, new_level as int);
                        lemma_count_none_positive(lv, n as int, node as int);
                    }
                    if new_level > maximum_level {
                        maximum_level = new_level;
                    }
                    levels.set(node, Some(new_level));
                    proof {
                        let lv2 = lv_view(levels@);
                        assert(lv2 =~= lv.update(node as int, Some(new_level as int)));
                        lemma_levels_inv_step(ns, rs, rank, bound, lv, node, new_level as int);
                        lemma_count_none_bounds(lv2, n as int);
                        assert forall|i: int| 0 <= i < queue@.len() implies #[trigger] queue@[i] < n && reached(ns, rs, queue@[i])
                            && rank[queue@[i] as int] >= 0 by {
                            assert(queue@[i] == q[i + 1]);
                        }
                        if node != output_node && lv[output_node as int] is None {
                            let i = choose|i: int| 0 <= i < q_rest.len() && q_rest[i] == output_node;
                            assert(queue@[i] == output_node);
                        }
                    }
                }
            }
        }
        output_node += 1;
    }
    proof {
        let lv = lv_view(levels@);
        let base = base_levels(ns, rs, rank, bound);
        lemma_levels_complete(ns, rs, rank, bound, lv);
        assert(lv =~= base);
        assert forall|x: int| 0 <= x < n && #[trigger] levels@[x] is Some implies levels@[x]->0 <= n by {
            assert(lv[x] is Some);
            lemma_count_none_bounds(lv, n as int);
        }
        assert forall|x: int| 0 <= x < n && #[trigger] levels@[x] is Some implies levels@[x]->0
            + count_none(lv, n as int) <= n by {
            assert(lv[x] is Some);
        }
    }
    maximum_level
}

/// The parents of every node, one set per node.
fn build_reverse_search(nodes: &[Node], edges: &[Edge]) -> (reverse_search: Vec<Vec<usize>>)
    requires
        edges_in_bounds(nodes@, edges@),
    ensures
        reverse_search@.len() == nodes@.len(),
        sets_of(reverse_search@) == parents_of(nodes@, edges@),
{
    let n = nodes.len();
    let mut reverse_search: Vec<Vec<usize>> = Vec::new();
    let mut i: usize = 0;
    while i < n
        invariant
            0 <= i <= n,
            reverse_search@.len() == i,
            forall|u: int| 0 <= u < i ==> (#[trigger] reverse_search@[u])@ == Seq::<usize>::empty(),
        decreases n - i,
    {
        reverse_search.push(Vec::new());
        i += 1;
    }
    let mut k: usize = 0;
    while k < edges.len()
        invariant
            0 <= k <= edges@.len(),
            n == nodes@.len(),
            edges_in_bounds(nodes@, edges@),
            reverse_search@.len() == n,
            forall|v: int|
                0 <= v < n ==> #[trigger] reverse_search@[v]@.to_set() == Set::new(
                    |p: usize|
                        exists|i: int|
                            #![trigger edges@[i]]
                            0 <= i < k && edges@[i].to == v && edges@[i].from == p,
                ),
        decreases edges@.len() - k,
    {
        let edge = edges[k];
        assert(edges@[k as int].to < n);
        let ghost before = reverse_search@;
        let mut parents: Vec<usize> = Vec::new();
        reverse_search.set_and_swap(edge.to, &mut parents);
        set_insert(&mut parents, edge.from);
        reverse_search.set(edge.to, parents);
        proof {
            assert forall|v: int| 0 <= v < n implies #[trigger] reverse_search@[v]@.to_set() == Set::new(
                |p: usize|
                    exists|i: int|
                        #![trigger edges@[i]]
                        0 <= i < k + 1 && edges@[i].to == v && edges@[i].from == p,
            ) by {
                let target = Set::new(
                    |p: usize|
                        exists|i: int|
                            #![trigger edges@[i]]
                            0 <= i < k + 1 && edges@[i].to == v && edges@[i].from == p,
                );
                let prev = Set::new(
                    |p: usize|
                        exists|i: int|
                            #![trigger edges@[i]]
                            0 <= i < k && edges@[i].to == v && edges@[i].from == p,
                );
                if v == edge.to as int {
                    assert(target =~= prev.insert(edge.from));
                } else {
                    assert(reverse_search@[v] == before[v]);
                    assert(target =~= prev);
                }
            }
        }
        k += 1;
    }
    proof {
        assert(sets_of(reverse_search@) =~= parents_of(nodes@, edges@));
    }
    reverse_search
}

/// Whether the graph has a by-product node.
pub open spec fn has_excess(nodes: Seq<Node>) -> bool {
    exists|x: int| 0 <= x < nodes.len() && #[trigger] nodes[x] is Excess
}

/// The last level: one above the highest level when there are by-products,
/// which get a level of their own.
pub open spec fn top_level(nodes: Seq<Node>, m0: int) -> int {
    if has_excess(nodes) {
        m0 + 1
    } else {
        m0
    }
}

/// Outputs and by-products moved to the last level `m1`.
pub open spec fn with_sinks(nodes: Seq<Node>, lv: Seq<Option<int>>, m1: int) -> Seq<Option<int>> {
    Seq::new(
        lv.len(),
        |x: int|
            if nodes[x] is Excess || nodes[x] is Output {
                Some(m1)
            } else {
                lv[x]
            },
    )
}

/// One step of the raising of the nodes that lost a link: node `u`, if it
/// lost one, moves one level up unless one of its children (other than the
/// parents it lost a link to) is no more than one level above it.
pub open spec fn raise_step(lv: Seq<Option<int>>, cyc: Seq<Set<usize>>, edges: Seq<Edge>, u: int) -> Seq<
    Option<int>,
> {
    if cyc[u].is_empty() {
        lv
    } else {
        match lv[u] {
            None => lv,
            Some(c) => if forall|w: usize|
                #![trigger children_of(edges, u as usize).contains(w)]
                children_of(edges, u as usize).contains(w) && !cyc[u].contains(w) && w < lv.len()
                    && lv[w as int] is Some ==> lv[w as int]->0 > c + 1 {
                lv.update(u, Some(c + 1))
            } else {
                lv
            },
        }
    }
}

/// The raising applied to the first `k` nodes, in index order.
pub open spec fn raise_upto(lv: Seq<Option<int>>, cyc: Seq<Set<usize>>, edges: Seq<Edge>, k: int) -> Seq<
    Option<int>,
>
    decreases k,
{
    if k <= 0 {
        lv
    } else {
        raise_step(raise_upto(lv, cyc, edges, k - 1), cyc, edges, k - 1)
    }
}

/// The raising can be carried out: every node that lost a link has a level
/// and at least one child.
pub open spec fn raise_defined(lv: Seq<Option<int>>, cyc: Seq<Set<usize>>, edges: Seq<Edge>) -> bool {
    forall|u: int|
        0 <= u < lv.len() && !(#[trigger] cyc[u]).is_empty() ==> lv[u] is Some && !children_of(
            edges,
            u as usize,
        ).is_empty()
}

/// Whether some node is at level `l`.
pub open spec fn level_used(lv: Seq<Option<int>>, l: int) -> bool {
    exists|x: int| 0 <= x < lv.len() && lv[x] == Some(l)
}

/// How many levels below `l`, and not above `m`, hold no node.
pub open spec fn empties_below(lv: Seq<Option<int>>, m: int, l: int) -> int
    decreases l,
{
    if l <= 0 {
        0
    } else {
        empties_below(lv, m, l - 1) + if l - 1 <= m && !level_used(lv, l - 1) {
            1int
        } else {
            0int
        }
    }
}

/// The levels with the empty levels below `m` squeezed out.
pub open spec fn compacted(lv: Seq<Option<int>>, m: int) -> Seq<Option<int>> {
    Seq::new(
        lv.len(),
        |x: int|
            match lv[x] {
                Some(l) => Some(l - empties_below(lv, m, l)),
                None => None,
            },
    )
}

/// The last level once the empty levels are squeezed out.
pub open spec fn compacted_max(lv: Seq<Option<int>>, m: int) -> int {
    let e = empties_below(lv, m, m + 1);
    if m >= e {
        m - e
    } else {
        m
    }
}

/// The levels before the empty ones are squeezed out, and the last level.
pub open spec fn raised_levels(nodes: Seq<Node>, edges: Seq<Edge>) -> (Seq<Option<int>>, int) {
    let st = graph_removal(nodes, edges);
    let start = start_levels(nodes, edges);
    let m1 = top_level(nodes, max_level_in(start, nodes.len() as int));
    let lv1 = with_sinks(nodes, start, m1);
    (raise_upto(lv1, st.cyc, edges, nodes.len() as int), m1)
}

/// The graph can be sorted: the raising can be carried out and leaves every
/// level within the last level.
pub open spec fn sortable(nodes: Seq<Node>, edges: Seq<Edge>) -> bool {
    let st = graph_removal(nodes, edges);
    let start = start_levels(nodes, edges);
    let m1 = top_level(nodes, max_level_in(start, nodes.len() as int));
    let lv1 = with_sinks(nodes, start, m1);
    let (lv2, m) = raised_levels(nodes, edges);
    &&& raise_defined(lv1, st.cyc, edges)
    &&& forall|x: int| 0 <= x < nodes.len() && #[trigger] lv2[x] is Some ==> lv2[x]->0 <= m
}

/// The level of each node after sorting (every node gets one; see
/// `lemma_sorted_levels_laws`).
pub open spec fn sorted_levels(nodes: Seq<Node>, edges: Seq<Edge>) -> Seq<Option<int>> {
    compacted(raised_levels(nodes, edges).0, raised_levels(nodes, edges).1)
}

/// The last level after sorting.
pub open spec fn sorted_max(nodes: Seq<Node>, edges: Seq<Edge>) -> int {
    compacted_max(raised_levels(nodes, edges).0, raised_levels(nodes, edges).1)
}

/// The levels as a map from node index to level.
pub open spec fn levels_map(lv: Seq<Option<int>>) -> Map<usize, usize> {
    Map::new(|x: usize| x < lv.len() && lv[x as int] is Some, |x: usize| lv[x as int]->0 as usize)
}

/// Moves up by one level each node that lost a link, unless one of its
/// children (other than the parents it lost a link to) is no more than one
/// level above it; nodes are taken in index order. Returns `false`, at the
/// first such node, when it has no level or no child.
fn update_cycles_level(
    edges: &[Edge],
    cycles: &Vec<Vec<usize>>,
    levels: &mut Vec<Option<usize>>,
    Ghost(m1): Ghost<int>,
) -> (ok: bool)
    requires
        cycles@.len() == old(levels)@.len(),
        forall|i: int|
            0 <= i < edges@.len() ==> (#[trigger] edges@[i]).from < old(levels)@.len() && edges@[i].to
                < old(levels)@.len(),
        forall|x: int|
            0 <= x < old(levels)@.len() && #[trigger] old(levels)@[x] is Some ==> old(levels)@[x]->0 <= m1,
        m1 + 1 <= usize::MAX,
    ensures
        final(levels)@.len() == old(levels)@.len(),
        ok == raise_defined(lv_view(old(levels)@), sets_of(cycles@), edges@),
        ok ==> lv_view(final(levels)@) == raise_upto(
            lv_view(old(levels)@),
            sets_of(cycles@),
            edges@,
            old(levels)@.len() as int,
        ),
{
    let n = levels.len();
    let ghost lv0 = lv_view(levels@);
    let ghost cyc = sets_of(cycles@);
    let mut cycle_edges: Vec<Vec<usize>> = Vec::new();
    let mut i: usize = 0;
    while i < n
        invariant
            0 <= i <= n,
            cycle_edges@.len() == i,
            forall|u: int| 0 <= u < i ==> (#[trigger] cycle_edges@[u])@ == Seq::<usize>::empty(),
        decreases n - i,
    {
        cycle_edges.push(Vec::new());
        i += 1;
    }
    let mut k: usize = 0;
    while k < edges.len()
        invariant
            0 <= k <= edges@.len(),
            n == cycles@.len(),
            cyc == sets_of(cycles@),
            cycle_edges@.len() == n,
            forall|i: int| 0 <= i < edges@.len() ==> (#[trigger] edges@[i]).from < n && edges@[i].to < n,
            forall|u: int|
                0 <= u < n ==> #[trigger] cycle_edges@[u]@.to_set() == if cyc[u].is_empty() {
                    Set::<usize>::empty()
                } else {
                    Set::new(
                        |w: usize|
                            exists|i: int|
                                #![trigger edges@[i]]
                                0 <= i < k && edges@[i].from == u && edges@[i].to == w,
                    )
                },
        decreases edges@.len() - k,
    {
        let edge = edges[k];
        let ghost before = cycle_edges@;
        if cycles[edge.from].len() > 0 {
            proof {
                assert(cycles@[edge.from as int]@.len() > 0);
                assert(cyc[edge.from as int].contains(cycles@[edge.from as int]@[0])) by {
                    assert(cycles@[edge.from as int]@.contains(cycles@[edge.from as int]@[0]));
                }
            }
            let mut childs: Vec<usize> = Vec::new();
            cycle_edges.set_and_swap(edge.from, &mut childs);
            set_insert(&mut childs, edge.to);
            cycle_edges.set(edge.from, childs);
        } else {
            proof {
                assert(cycles@[edge.from as int]@ =~= Seq::<usize>::empty());
                assert(cyc[edge.from as int] =~= Set::<usize>::empty());
            }
        }
        proof {
            assert forall|u: int| 0 <= u < n implies #[trigger] cycle_edges@[u]@.to_set() == if cyc[u].is_empty() {
                Set::<usize>::empty()
            } else {
                Set::new(
                    |w: usize|
                        exists|i: int|
                            #![trigger edges@[i]]
                            0 <= i < k + 1 && edges@[i].from == u && edges@[i].to == w,
                )
            } by {
                let prev = Set::new(
                    |w: usize|
                        exists|i: int|
                            #![trigger edges@[i]]
                            0 <= i < k && edges@[i].from == u && edges@[i].to == w,
                );
                let next = Set::new(
                    |w: usize|
                        exists|i: int|
                            #![trigger edges@[i]]
                            0 <= i < k + 1 && edges@[i].from == u && edges@[i].to == w,
                );
                if u == edge.from as int {
                    assert(next =~= prev.insert(edge.to));
                } else {
                    assert(next =~= prev);
                    assert(cycle_edges@[u] == before[u]);
                }
            }
        }
        k += 1;
    }
    let mut u: usize = 0;
    while u < n
        invariant
            0 <= u <= n,
            n == cycles@.len(),
            n == levels@.len(),
            cyc == sets_of(cycles@),
            cycle_edges@.len() == n,
            lv0.len() == n,
            forall|i: int| 0 <= i < edges@.len() ==> (#[trigger] edges@[i]).from < n && edges@[i].to < n,
            forall|v: int|
                0 <= v < n ==> #[trigger] cycle_edges@[v]@.to_set() == if cyc[v].is_empty() {
                    Set::<usize>::empty()
                } else {
                    children_of(edges@, v as usize)
                },
            lv_view(levels@) == raise_upto(lv0, cyc, edges@, u as int),
            lv0 == lv_view(old(levels)@),
            n == old(levels)@.len(),
            forall|x: int| 0 <= x < n ==> (#[trigger] levels@[x] is Some) == (lv0[x] is Some),
            forall|x: int| u <= x < n ==> #[trigger] lv_view(levels@)[x] == lv0[x],
            forall|x: int| 0 <= x < n && #[trigger] levels@[x] is Some ==> levels@[x]->0 <= m1 + 1,
            forall|x: int| 0 <= x < n && #[trigger] lv0[x] is Some ==> lv0[x]->0 <= m1,
            m1 + 1 <= usize::MAX,
            forall|v: int|
                0 <= v < u && !(#[trigger] cyc[v]).is_empty() ==> lv0[v] is Some && !children_of(
                    edges@,
                    v as usize,
                ).is_empty(),
        decreases n - u,
    {
        proof {
            assert forall|v: int| 0 <= v < n implies cycle_edges@[v]@.to_set() == if cyc[v].is_empty() {
                Set::<usize>::empty()
            } else {
                children_of(edges@, v as usize)
            } by {
                assert(cycle_edges@[v]@.to_set() == if cyc[v].is_empty() {
                    Set::<usize>::empty()
                } else {
                    children_of(edges@, v as usize)
                });
            }
        }
        let ghost cur = lv_view(levels@);
        if cycles[u].len() > 0 {
            proof {
                assert(cyc[u as int].contains(cycles@[u as int]@[0])) by {
                    assert(cycles@[u as int]@.contains(cycles@[u as int]@[0]));
                }
            }
            let level_u: Option<usize> = levels[u];
            if level_u.is_none() {
                proof {
                    assert(levels@[u as int] is None);
                    assert(lv0[u as int] is None);
                    assert(!raise_defined(lv0, cyc, edges@)) by {
                        assert(!cyc[u as int].is_empty());
                    }
                }
                return false;
            }
            let c = level_u.unwrap();
            if cycle_edges[u].len() == 0 {
                proof {
                    assert(cycle_edges@[u as int]@ =~= Seq::<usize>::empty());
                    assert(children_of(edges@, u) =~= Set::<usize>::empty());
                    assert(!raise_defined(lv0, cyc, edges@)) by {
                        assert(!cyc[u as int].is_empty());
                    }
                }
                return false;
            }
            proof {
                assert(cur[u as int] == lv0[u as int]);
                assert(c <= m1);
                assert(children_of(edges@, u).contains(cycle_edges@[u as int]@[0])) by {
                    assert(cycle_edges@[u as int]@.contains(cycle_edges@[u as int]@[0]));
                }
            }
            let childs = &cycle_edges[u];
            let mut raise = true;
            let mut j: usize = 0;
            while j < childs.len() && raise
                invariant
                    0 <= j <= childs@.len(),
                    n == levels@.len(),
                    cur == lv_view(levels@),
                    cur[u as int] == Some(c as int),
                    c <= m1,
                    m1 + 1 <= usize::MAX,
                    childs@.to_set() == children_of(edges@, u),
                    cyc == sets_of(cycles@),
                    n == cycles@.len(),
                    u < n,
                    forall|i: int| 0 <= i < edges@.len() ==> (#[trigger] edges@[i]).from < n && edges@[i].to < n,
                    raise == forall|i: int|
                        0 <= i < j && !cyc[u as int].contains(#[trigger] childs@[i]) && cur[childs@[i] as int]
                            is Some ==> cur[childs@[i] as int]->0 > c + 1,
                decreases childs@.len() - j,
            {
                let w = childs[j];
                proof {
                    assert(children_of(edges@, u).contains(w)) by {
                        assert(childs@.contains(w));
                    }
                    let i = choose|i: int| #![trigger edges@[i]] 0 <= i < edges@.len() && edges@[i].from == u && edges@[i].to == w;
                    assert(w < n);
                }
                if !set_contains(&cycles[u], w) {
                    if let Some(l) = levels[w] {
                        if l <= c + 1 {
                            raise = false;
                        }
                    }
                }
                j += 1;
            }
            proof {
                let allc = forall|w: usize|
                    #![trigger children_of(edges@, u).contains(w)]
                    children_of(edges@, u).contains(w) && !cyc[u as int].contains(w) && w < cur.len()
                        && cur[w as int] is Some ==> cur[w as int]->0 > c + 1;
                if raise {
                    assert forall|w: usize|
                        #![trigger children_of(edges@, u).contains(w)]
                        children_of(edges@, u).contains(w) && !cyc[u as int].contains(w) && w < cur.len()
                            && cur[w as int] is Some implies cur[w as int]->0 > c + 1 by {
                        assert(childs@.to_set().contains(w));
                        assert(childs@.contains(w));
                        let i = choose|i: int| 0 <= i < childs@.len() && childs@[i] == w;
                    }
                    assert(allc);
                } else {
                    let i = choose|i: int|
                        0 <= i < j && !cyc[u as int].contains(#[trigger] childs@[i]) && cur[childs@[i] as int]
                            is Some && !(cur[childs@[i] as int]->0 > c + 1);
                    let w = childs@[i];
                    assert(childs@.contains(w));
                    assert(children_of(edges@, u).contains(w));
                    let e = choose|e: int| #![trigger edges@[e]] 0 <= e < edges@.len() && edges@[e].from == u && edges@[e].to == w;
                    assert(!allc);
                }
            }
            if raise {
                levels.set(u, Some(c + 1));
                proof {
                    assert(lv_view(levels@) =~= cur.update(u as int, Some(c as int + 1)));
                }
            }
        } else {
            proof {
                assert(cycles@[u as int]@ =~= Seq::<usize>::empty());
                assert(cyc[u as int] =~= Set::<usize>::empty());
            }
        }
        proof {
            assert(lv_view(levels@) == raise_upto(lv0, cyc, edges@, u as int + 1));
        }
        u += 1;
    }
    true
}

/// How many leading elements of `s` are below `t`.
pub open spec fn take_below(s: Seq<usize>, t: int) -> int
    decreases s.len(),
{
    if s.len() == 0 {
        0
    } else if s[0] >= t {
        0
    } else {
        1 + take_below(s.subrange(1, s.len() as int), t)
    }
}

proof fn lemma_take_below_push(s: Seq<usize>, e: usize, t: int)
    requires
        e >= t,
    ensures
        take_below(s.push(e), t) == take_below(s, t),
    decreases s.len(),
{
    if s.len() > 0 {
        assert(s.push(e).subrange(1, s.len() as int + 1) =~= s.subrange(1, s.len() as int).push(e));
        lemma_take_below_push(s.subrange(1, s.len() as int), e, t);
    } else {
        assert(s.push(e).subrange(1, 1) =~= Seq::<usize>::empty());
    }
}

proof fn lemma_take_below_all(s: Seq<usize>, t: int)
    requires
        forall|k: int| 0 <= k < s.len() ==> s[k] < t,
    ensures
        take_below(s, t) == s.len(),
    decreases s.len(),
{
    if s.len() > 0 {
        lemma_take_below_all(s.subrange(1, s.len() as int), t);
    }
}

proof fn lemma_take_below_prefix(s: Seq<usize>, t: int, k: int)
    requires
        0 <= k <= s.len(),
        forall|i: int| 0 <= i < k ==> s[i] < t,
        k == s.len() || s[k] >= t,
    ensures
        take_below(s, t) == k,
    decreases k,
{
    if k > 0 {
        let r = s.subrange(1, s.len() as int);
        assert forall|i: int| 0 <= i < k - 1 implies r[i] < t by {
            assert(r[i] == s[i + 1]);
        }
        if k < s.len() {
            assert(r[k - 1] == s[k]);
        }
        lemma_take_below_prefix(r, t, k - 1);
    } else if s.len() > 0 {
        assert(s[0] >= t);
    }
}

proof fn lemma_empties_below_bound(lv: Seq<Option<int>>, m: int, l: int)
    requires
        l >= 0,
    ensures
        0 <= empties_below(lv, m, l) <= l,
    decreases l,
{
    if l > 0 {
        lemma_empties_below_bound(lv, m, l - 1);
    }
}

/// Squeezes out the empty levels up to `maximum_level`: each level drops by
/// the number of empty levels below it. Returns `None` when a level is above
/// `maximum_level`.
fn remove_empty_levels(levels: &mut Vec<Option<usize>>, maximum_level: usize) -> (res: Option<usize>)
    requires
        maximum_level + 1 <= usize::MAX,
    ensures
        final(levels)@.len() == old(levels)@.len(),
        res is Some <==> forall|x: int|
            0 <= x < old(levels)@.len() && #[trigger] old(levels)@[x] is Some ==> old(levels)@[x]->0
                <= maximum_level,
        res matches Some(m) ==> lv_view(final(levels)@) == compacted(lv_view(old(levels)@), maximum_level as int)
            && m == compacted_max(lv_view(old(levels)@), maximum_level as int),
{
    let n = levels.len();
    let ghost lv = lv_view(levels@);
    let m = maximum_level;
    let mut level_count: Vec<usize> = vec![0; m + 1];
    let mut x: usize = 0;
    while x < n
        invariant
            0 <= x <= n,
            n == levels@.len(),
            lv == lv_view(levels@),
            levels@ == old(levels)@,
            m == maximum_level,
            level_count@.len() == m + 1,
            forall|y: int| 0 <= y < x && #[trigger] levels@[y] is Some ==> levels@[y]->0 <= m,
            forall|l: int| 0 <= l <= m ==> #[trigger] level_count@[l] <= x,
            forall|l: int|
                0 <= l <= m ==> (#[trigger] level_count@[l] == 0) == !(exists|y: int|
                    0 <= y < x && lv[y] == Some(l)),
        decreases n - x,
    {
        match levels[x] {
            Some(l) => {
                if l > m {
                    proof {
                        assert(levels@[x as int] == Some(l));
                        assert(old(levels)@[x as int] == Some(l));
                        assert(l > maximum_level);
                        assert(!(old(levels)@[x as int]->0 <= maximum_level));
                    }
                    return None;
                }
                let c = level_count[l];
                level_count.set(l, c + 1);
                proof {
                    assert forall|k: int| 0 <= k <= m implies (#[trigger] level_count@[k] == 0) == !(exists|y: int|
                        0 <= y < x + 1 && lv[y] == Some(k)) by {
                        if k == l as int {
                            assert(lv[x as int] == Some(k));
                        } else {
                            if exists|y: int| 0 <= y < x + 1 && lv[y] == Some(k) {
                                let y = choose|y: int| 0 <= y < x + 1 && lv[y] == Some(k);
                                assert(y < x);
                            }
                        }
                    }
                }
            },
            None => {
                proof {
                    assert forall|k: int| 0 <= k <= m implies (#[trigger] level_count@[k] == 0) == !(exists|y: int|
                        0 <= y < x + 1 && lv[y] == Some(k)) by {
                        if exists|y: int| 0 <= y < x + 1 && lv[y] == Some(k) {
                            let y = choose|y: int| 0 <= y < x + 1 && lv[y] == Some(k);
                            assert(y < x);
                        }
                    }
                }
            },
        }
        x += 1;
    }
    let mut empty_levels: Vec<usize> = Vec::new();
    let mut l: usize = 0;
    while l <= m
        invariant
            0 <= l <= m + 1,
            m + 1 <= usize::MAX,
            level_count@.len() == m + 1,
            forall|k: int|
                0 <= k <= m ==> (#[trigger] level_count@[k] == 0) == !level_used(lv, k),
            empty_levels@.len() == empties_below(lv, m as int, l as int),
            forall|k: int| 0 <= k < empty_levels@.len() ==> #[trigger] empty_levels@[k] < l,
            forall|t: int| 0 <= t <= l ==> #[trigger] take_below(empty_levels@, t) == empties_below(lv, m as int, t),
        decreases m + 1 - l,
    {
        let ghost before = empty_levels@;
        if level_count[l] == 0 {
            empty_levels.push(l);
            proof {
                assert forall|t: int| 0 <= t <= l implies #[trigger] take_below(empty_levels@, t) == empties_below(lv, m as int, t) by {
                    lemma_take_below_push(before, l, t);
                }
                lemma_take_below_all(empty_levels@, l + 1);
            }
        } else {
            proof {
                lemma_take_below_all(empty_levels@, l + 1);
            }
        }
        l += 1;
    }
    let mut x: usize = 0;
    while x < n
        invariant
            0 <= x <= n,
            n == levels@.len(),
            n == lv.len(),
            lv == lv_view(old(levels)@),
            m == maximum_level,
            forall|y: int| 0 <= y < n && #[trigger] lv[y] is Some ==> lv[y]->0 <= m,
            forall|y: int| x <= y < n ==> #[trigger] lv_view(levels@)[y] == lv[y],
            forall|y: int| 0 <= y < x ==> #[trigger] lv_view(levels@)[y] == compacted(lv, m as int)[y],
            forall|t: int| 0 <= t <= m + 1 ==> #[trigger] take_below(empty_levels@, t) == empties_below(lv, m as int, t),
        decreases n - x,
    {
        let ghost before = lv_view(levels@);
        match levels[x] {
            Some(level) => {
                proof {
                    assert(lv_view(levels@)[x as int] == Some(level as int));
                    assert(lv[x as int] == Some(level as int));
                }
                let mut k: usize = 0;
                while k < empty_levels.len() && empty_levels[k] < level
                    invariant
                        0 <= k <= empty_levels@.len(),
                        forall|i: int| 0 <= i < k ==> empty_levels@[i] < level,
                    decreases empty_levels@.len() - k,
                {
                    k += 1;
                }
                proof {
                    lemma_take_below_prefix(empty_levels@, level as int, k as int);
                    lemma_empties_below_bound(lv, m as int, level as int);
                }
                levels.set(x, Some(level - k));
                proof {
                    assert forall|y: int| 0 <= y < x + 1 implies #[trigger] lv_view(levels@)[y] == compacted(lv, m as int)[y] by {
                        if y < x {
                            assert(lv_view(levels@)[y] == before[y]);
                        }
                    }
                    assert forall|y: int| x + 1 <= y < n implies #[trigger] lv_view(levels@)[y] == lv[y] by {
                        assert(lv_view(levels@)[y] == before[y]);
                    }
                }
            },
            None => {
                proof {
                    assert(lv_view(levels@)[x as int] is None);
                    assert(lv[x as int] is None);
                }
            },
        }
        x += 1;
    }
    proof {
        assert(lv_view(levels@) =~= compacted(lv, m as int));
        lemma_take_below_all(empty_levels@, m as int + 1);
    }
    if m >= empty_levels.len() {
        Some(m - empty_levels.len())
    } else {
        Some(m)
    }
}

/// The levels as a map from node index to level.
fn levels_to_map(levels: &Vec<Option<usize>>) -> (res: BTreeMap<usize, usize>)
    ensures
        res@ == levels_map(lv_view(levels@)),
{
    let mut res: BTreeMap<usize, usize> = BTreeMap::new();
    let mut x: usize = 0;
    while x < levels.len()
        invariant
            0 <= x <= levels@.len(),
            res@ == Map::new(
                |y: usize| y < x && lv_view(levels@)[y as int] is Some,
                |y: usize| lv_view(levels@)[y as int]->0 as usize,
            ),
        decreases levels@.len() - x,
    {
        if let Some(l) = levels[x] {
            res.insert(x, l);
            proof {
                assert(lv_view(levels@)[x as int] == Some(l as int));
            }
        }
        proof {
            assert(res@ =~= Map::new(
                |y: usize| y < x + 1 && lv_view(levels@)[y as int] is Some,
                |y: usize| lv_view(levels@)[y as int]->0 as usize,
            ));
        }
        x += 1;
    }
    proof {
        assert(res@ =~= levels_map(lv_view(levels@)));
    }
    res
}

proof fn lemma_parents_below(nodes: Seq<Node>, edges: Seq<Edge>)
    requires
        edges_in_bounds(nodes, edges),
        nodes.len() <= usize::MAX,
    ensures
        sets_below(parents_of(nodes, edges), nodes.len() as usize),
{
    let rs0 = parents_of(nodes, edges);
    assert forall|u: int| 0 <= u < rs0.len() implies (#[trigger] rs0[u]).subset_of(below(nodes.len() as usize)) by {
        assert forall|p: usize| rs0[u].contains(p) implies below(nodes.len() as usize).contains(p) by {
            let i = choose|i: int| #![trigger edges[i]] 0 <= i < edges.len() && edges[i].to == u && edges[i].from == p;
        }
    }
}

proof fn lemma_raise_shape(lv: Seq<Option<int>>, cyc: Seq<Set<usize>>, edges: Seq<Edge>, k: int)
    requires
        0 <= k <= lv.len(),
        cyc.len() == lv.len(),
    ensures
        raise_upto(lv, cyc, edges, k).len() == lv.len(),
        forall|x: int|
            0 <= x < lv.len() ==> (#[trigger] raise_upto(lv, cyc, edges, k)[x] is Some) == (lv[x] is Some),
        forall|x: int|
            0 <= x < lv.len() ==> #[trigger] raise_upto(lv, cyc, edges, k)[x] == lv[x] || (!cyc[x].is_empty()
                && lv[x] is Some && raise_upto(lv, cyc, edges, k)[x] == Some(lv[x]->0 + 1)),
        forall|x: int| k <= x < lv.len() ==> #[trigger] raise_upto(lv, cyc, edges, k)[x] == lv[x],
    decreases k,
{
    if k > 0 {
        lemma_raise_shape(lv, cyc, edges, k - 1);
    }
}

proof fn lemma_max_level_in_nonneg(lv: Seq<Option<int>>, k: int)
    ensures
        max_level_in(lv, k) >= 0,
    decreases k,
{
    if k > 0 {
        lemma_max_level_in_nonneg(lv, k - 1);
    }
}

proof fn lemma_empties_step(lv: Seq<Option<int>>, m: int, l: int)
    requires
        l >= 0,
    ensures
        empties_below(lv, m, l + 1) == empties_below(lv, m, l) + if l <= m && !level_used(lv, l) {
            1int
        } else {
            0int
        },
{
}

proof fn lemma_empties_growth(lv: Seq<Option<int>>, m: int, a: int, b: int)
    requires
        0 <= a <= b,
    ensures
        0 <= empties_below(lv, m, b) - empties_below(lv, m, a) <= b - a,
    decreases b - a,
{
    if a < b {
        lemma_empties_growth(lv, m, a, b - 1);
    }
}

/// Some used level below `k` lands on `t` once the empty levels are
/// squeezed out.
pub open spec fn level_hit(lv: Seq<Option<int>>, m: int, k: int, t: int) -> bool {
    exists|l: int| 0 <= l < k && l <= m && level_used(lv, l) && l - empties_below(lv, m, l) == t
}

/// Once the empty levels are squeezed out, every level from 0 up to the
/// number of used levels is held by a used level.
proof fn lemma_empties_onto(lv: Seq<Option<int>>, m: int, k: int)
    requires
        0 <= k <= m + 1,
    ensures
        forall|t: int| 0 <= t < k - empties_below(lv, m, k) ==> #[trigger] level_hit(lv, m, k, t),
    decreases k,
{
    if k > 0 {
        lemma_empties_onto(lv, m, k - 1);
        lemma_empties_step(lv, m, k - 1);
        assert forall|t: int| 0 <= t < k - empties_below(lv, m, k) implies #[trigger] level_hit(lv, m, k, t) by {
            if t < k - 1 - empties_below(lv, m, k - 1) {
                assert(level_hit(lv, m, k - 1, t));
                let l = choose|l: int|
                    0 <= l < k - 1 && l <= m && level_used(lv, l) && l - empties_below(lv, m, l) == t;
            } else {
                assert(k - 1 <= m && level_used(lv, k - 1));
            }
        }
    }
}

/// Every node has a start level, none below 0, and the nodes reached from
/// the outputs keep their `base_level`.
proof fn lemma_start_levels(nodes: Seq<Node>, edges: Seq<Edge>)
    requires
        edges_in_bounds(nodes, edges),
        nodes.len() <= usize::MAX,
    ensures
        start_levels(nodes, edges).len() == nodes.len(),
        forall|x: int|
            0 <= x < nodes.len() ==> (#[trigger] start_levels(nodes, edges)[x]) is Some
                && start_levels(nodes, edges)[x]->0 >= 0,
        forall|x: int|
            0 <= x < nodes.len() && (#[trigger] base_levels(
                nodes,
                graph_removal(nodes, edges).rs,
                graph_removal(nodes, edges).rank,
                graph_removal(nodes, edges).clock,
            )[x]) is Some ==> start_levels(nodes, edges)[x] == base_levels(
                nodes,
                graph_removal(nodes, edges).rs,
                graph_removal(nodes, edges).rank,
                graph_removal(nodes, edges).clock,
            )[x],
{
    let n = nodes.len();
    let st = graph_removal(nodes, edges);
    let base = base_levels(nodes, st.rs, st.rank, st.clock);
    let b = max_level_in(base, n as int);
    lemma_max_level_in_nonneg(base, n as int);
    assert forall|y: int| 0 <= y < base.len() && #[trigger] base[y] is Some implies 0 <= base[y]->0 <= b by {
        if !(nodes[y] is Input) {
            lemma_level_of_nonneg(nodes, st.rs, st.rank, st.clock, y);
        }
        lemma_max_level_in_ge(base, n as int, y);
    }
    assert forall|x: int| 0 <= x < n implies (#[trigger] start_levels(nodes, edges)[x]) is Some
        && start_levels(nodes, edges)[x]->0 >= 0 by {
        lemma_max_leveled_parent_bounds(st.rs[x], base, n as int, b);
    }
}

/// What sorting promises: the inputs without incoming edges are at level 0,
/// the outputs and by-products at the last level, every level lies between 0
/// and the last level, and no level in that range is left empty.
pub proof fn lemma_sorted_levels_laws(nodes: Seq<Node>, edges: Seq<Edge>)
    requires
        edges_in_bounds(nodes, edges),
        nodes.len() + 2 <= usize::MAX,
        sortable(nodes, edges),
    ensures
        ({
            let lv = sorted_levels(nodes, edges);
            let top = sorted_max(nodes, edges);
            &&& lv.len() == nodes.len()
            &&& forall|x: int| 0 <= x < nodes.len() ==> #[trigger] lv[x] is Some
            &&& forall|x: int|
                0 <= x < nodes.len() && #[trigger] nodes[x] is Input && parents_of(nodes, edges)[x].is_empty()
                    ==> lv[x] == Some(0int)
            &&& forall|x: int|
                0 <= x < nodes.len() && (#[trigger] nodes[x] is Output || nodes[x] is Excess) ==> lv[x]
                    == Some(top)
            &&& forall|x: int| 0 <= x < nodes.len() && #[trigger] lv[x] is Some ==> 0 <= lv[x]->0 <= top
            &&& (exists|x: int| 0 <= x < nodes.len() && #[trigger] lv[x] is Some) ==> forall|t: int|
                0 <= t <= top ==> #[trigger] level_used(lv, t)
        }),
{
    let n = nodes.len();
    let rs0 = parents_of(nodes, edges);
    let st = graph_removal(nodes, edges);
    lemma_parents_below(nodes, edges);
    lemma_removal_upto_inv(nodes, rs0, n as usize, n);
    let base = start_levels(nodes, edges);
    lemma_start_levels(nodes, edges);
    let m0 = max_level_in(base, n as int);
    let m1 = top_level(nodes, m0);
    let lv1 = with_sinks(nodes, base, m1);
    let lv2 = raise_upto(lv1, st.cyc, edges, n as int);
    let lv = sorted_levels(nodes, edges);
    let top = sorted_max(nodes, edges);
    lemma_max_level_in_nonneg(base, n as int);
    lemma_raise_shape(lv1, st.cyc, edges, n as int);
    assert(raised_levels(nodes, edges) == (lv2, m1));
    assert forall|x: int| 0 <= x < n implies #[trigger] lv2[x] is Some && 0 <= lv2[x]->0 <= m1 by {
        assert(base[x] is Some);
    }
    assert forall|x: int| 0 <= x < n implies #[trigger] lv[x] is Some by {
        assert(lv2[x] is Some);
    }
    lemma_empties_below_bound(lv2, m1, m1 + 1);
    assert forall|x: int| 0 <= x < n && #[trigger] lv[x] is Some implies 0 <= lv[x]->0 <= top by {
        let l = lv2[x]->0;
        assert(level_used(lv2, l));
        lemma_empties_below_bound(lv2, m1, l);
        lemma_empties_growth(lv2, m1, l + 1, m1 + 1);
        lemma_empties_step(lv2, m1, l);
    }
    assert forall|x: int|
        0 <= x < n && #[trigger] nodes[x] is Input && rs0[x].is_empty() implies lv[x] == Some(0int) by {
        assert(st.cyc[x].subset_of(rs0[x]));
        assert(st.cyc[x] =~= Set::empty());
        assert(lv2[x] == Some(0int));
    }
    assert forall|x: int|
        0 <= x < n && (#[trigger] nodes[x] is Output || nodes[x] is Excess) implies lv[x] == Some(top) by {
        assert(lv2[x] == Some(m1));
        assert(level_used(lv2, m1));
        lemma_empties_step(lv2, m1, m1);
        lemma_empties_below_bound(lv2, m1, m1);
    }
    if exists|x: int| 0 <= x < n && #[trigger] lv[x] is Some {
    let x = choose|x: int| 0 <= x < n && #[trigger] lv[x] is Some;
    assert forall|t: int| 0 <= t <= top implies #[trigger] level_used(lv, t) by {
        let l = lv2[x]->0;
        assert(level_used(lv2, l));
        lemma_empties_below_bound(lv2, m1, l);
        lemma_empties_growth(lv2, m1, l + 1, m1 + 1);
        lemma_empties_step(lv2, m1, l);
        lemma_empties_onto(lv2, m1, m1 + 1);
        assert(level_hit(lv2, m1, m1 + 1, t));
        let l2 = choose|l2: int|
            0 <= l2 < m1 + 1 && l2 <= m1 && level_used(lv2, l2) && l2 - empties_below(lv2, m1, l2) == t;
        let y = choose|y: int| 0 <= y < lv2.len() && lv2[y] == Some(l2);
        assert(lv[y] == Some(t));
    }
    }
}

/// The nodes reached from the outputs have been explored by the cycle
/// removal.
proof fn lemma_reached_explored(nodes: Seq<Node>, rs: Seq<Set<usize>>, rank: Seq<int>, x: usize)
    requires
        reached(nodes, rs, x),
        rs.len() == nodes.len(),
        rank.len() == nodes.len(),
        forall|o: int| 0 <= o < nodes.len() && nodes[o] is Output ==> #[trigger] rank[o] >= 0,
        forall|u: int, p: usize|
            #![trigger rs[u].contains(p)]
            0 <= u < nodes.len() && rank[u] >= 0 && rs[u].contains(p) ==> rank[u] < rank[p as int],
        forall|u: int| 0 <= u < nodes.len() ==> (#[trigger] rs[u]).subset_of(below(nodes.len() as usize)),
    ensures
        x < nodes.len(),
        rank[x as int] >= 0,
{
    let s = Set::new(|y: usize| y < nodes.len() && rank[y as int] >= 0);
    assert(closed_from_outputs(nodes, rs, s)) by {
        assert forall|o: usize| o < nodes.len() && (#[trigger] nodes[o as int]) is Output implies s.contains(o) by {
            assert(rank[o as int] >= 0);
        }
        assert forall|u: usize, p: usize|
            #![trigger s.contains(u), rs[u as int].contains(p)]
            s.contains(u) && u < nodes.len() && !(nodes[u as int] is Input) && rs[u as int].contains(p)
            implies s.contains(p) by {
            assert(rs[u as int].subset_of(below(nodes.len() as usize)));
            assert(rank[u as int] < rank[p as int]);
        }
    }
}

/// Along every link kept by the cycle removal, from a node that is neither an
/// output nor a by-product to a node that is not an input, that does not
/// reverse a link cut at its source, and whose order is settled (see
/// `placed_link`), the level rises.
pub open spec fn rises_along(nodes: Seq<Node>, rs: Seq<Set<usize>>, cyc: Seq<Set<usize>>, lv: Seq<Option<int>>) -> bool {
    forall|x: int, p: usize|
        #![trigger rs[x].contains(p)]
        0 <= x < nodes.len() && rs[x].contains(p) && !(nodes[x] is Input) && !(nodes[p as int] is Output)
            && !(nodes[p as int] is Excess) && !cyc[p as int].contains(x as usize) && placed_link(
            nodes,
            rs,
            x,
            p,
        ) && lv[x] is Some && lv[p as int] is Some ==> lv[p as int]->0 < lv[x]->0
}

/// A link whose level order is settled by the level assignment: its target
/// is reached from an output or is a by-product, or its source is reached
/// from an output or is an input.
pub open spec fn placed_link(nodes: Seq<Node>, rs: Seq<Set<usize>>, x: int, p: usize) -> bool {
    reached(nodes, rs, x as usize) || nodes[x] is Excess || reached(nodes, rs, p) || nodes[p as int] is Input
}

proof fn lemma_raise_step_rises(
    nodes: Seq<Node>,
    edges: Seq<Edge>,
    rs: Seq<Set<usize>>,
    cyc: Seq<Set<usize>>,
    lv: Seq<Option<int>>,
    u: int,
)
    requires
        rises_along(nodes, rs, cyc, lv),
        lv.len() == nodes.len(),
        cyc.len() == nodes.len(),
        rs.len() == nodes.len(),
        0 <= u < nodes.len(),
        forall|x: int| 0 <= x < nodes.len() ==> (#[trigger] rs[x]).subset_of(parents_of(nodes, edges)[x]),
        sets_below(rs, nodes.len() as usize),
    ensures
        rises_along(nodes, rs, cyc, raise_step(lv, cyc, edges, u)),
{
    let lv2 = raise_step(lv, cyc, edges, u);
    if lv2 != lv {
        let c = lv[u]->0;
        assert(lv2 == lv.update(u, Some(c + 1)));
        assert forall|x: int, p: usize|
            #![trigger rs[x].contains(p)]
            0 <= x < nodes.len() && rs[x].contains(p) && !(nodes[x] is Input) && !(nodes[p as int] is Output)
                && !(nodes[p as int] is Excess) && !cyc[p as int].contains(x as usize) && placed_link(nodes, rs, x, p)
                && lv2[x] is Some && lv2[p as int] is Some implies lv2[p as int]->0 < lv2[x]->0 by {
            assert(rs[x].subset_of(below(nodes.len() as usize)));
            assert(lv[x] is Some && lv[p as int] is Some);
            assert(lv[p as int]->0 < lv[x]->0);
            if p as int == u && x != u {
                assert(parents_of(nodes, edges)[x].contains(p));
                let i = choose|i: int|
                    #![trigger edges[i]]
                    0 <= i < edges.len() && edges[i].to == x && edges[i].from == p;
                assert(children_of(edges, u as usize).contains(x as usize)) by {
                    assert(edges[i].from == u as usize && edges[i].to == x as usize);
                }
                assert(lv[x]->0 > c + 1);
            }
        }
    }
}

proof fn lemma_raise_upto_rises(
    nodes: Seq<Node>,
    edges: Seq<Edge>,
    rs: Seq<Set<usize>>,
    cyc: Seq<Set<usize>>,
    lv: Seq<Option<int>>,
    k: int,
)
    requires
        rises_along(nodes, rs, cyc, lv),
        lv.len() == nodes.len(),
        cyc.len() == nodes.len(),
        rs.len() == nodes.len(),
        0 <= k <= nodes.len(),
        forall|x: int| 0 <= x < nodes.len() ==> (#[trigger] rs[x]).subset_of(parents_of(nodes, edges)[x]),
        sets_below(rs, nodes.len() as usize),
    ensures
        rises_along(nodes, rs, cyc, raise_upto(lv, cyc, edges, k)),
    decreases k,
{
    if k > 0 {
        lemma_raise_upto_rises(nodes, edges, rs, cyc, lv, k - 1);
        lemma_raise_shape(lv, cyc, edges, k - 1);
        lemma_raise_step_rises(nodes, edges, rs, cyc, raise_upto(lv, cyc, edges, k - 1), k - 1);
    }
}

/// The flow goes from lower to higher levels: along every link that the cycle
/// removal keeps, from a node that is neither an output nor a by-product to a
/// node that is not an input, that does not reverse a link cut at its source,
/// and whose target is reached from an output or is a by-product, or whose
/// source is reached from an output or is an input, the source sits on a
/// lower level than the target.
pub proof fn lemma_sorted_levels_follow_links(nodes: Seq<Node>, edges: Seq<Edge>)
    requires
        edges_in_bounds(nodes, edges),
        nodes.len() <= usize::MAX,
    ensures
        rises_along(
            nodes,
            graph_removal(nodes, edges).rs,
            graph_removal(nodes, edges).cyc,
            sorted_levels(nodes, edges),
        ),
{
    let n = nodes.len();
    let rs0 = parents_of(nodes, edges);
    let st = graph_removal(nodes, edges);
    lemma_parents_below(nodes, edges);
    lemma_removal_upto_inv(nodes, rs0, n as usize, n);
    let rs = st.rs;
    let cyc = st.cyc;
    let base = base_levels(nodes, rs, st.rank, st.clock);
    let start = start_levels(nodes, edges);
    lemma_start_levels(nodes, edges);
    let b = max_level_in(base, n as int);
    lemma_max_level_in_nonneg(base, n as int);
    assert forall|y: int| 0 <= y < base.len() && #[trigger] base[y] is Some implies 0 <= base[y]->0 <= b by {
        if !(nodes[y] is Input) {
            lemma_level_of_nonneg(nodes, rs, st.rank, st.clock, y);
        }
        lemma_max_level_in_ge(base, n as int, y);
    }
    let m0 = max_level_in(start, n as int);
    let m1 = top_level(nodes, m0);
    let lv1 = with_sinks(nodes, start, m1);
    let lv2 = raise_upto(lv1, cyc, edges, n as int);
    let lv = sorted_levels(nodes, edges);
    lemma_max_level_in_nonneg(start, n as int);
    lemma_raise_shape(lv1, cyc, edges, n as int);
    assert(raised_levels(nodes, edges) == (lv2, m1));
    // before the raising, every kept link rises
    assert forall|x: int, p: usize|
        #![trigger rs[x].contains(p)]
        0 <= x < n && rs[x].contains(p) && !(nodes[x] is Input) && !(nodes[p as int] is Output)
            && !(nodes[p as int] is Excess) && placed_link(nodes, rs, x, p) && lv1[x] is Some
            && lv1[p as int] is Some implies lv1[p as int]->0 < lv1[x]->0 by {
        assert(rs[x].subset_of(below(n as usize)));
        assert(p < n);
        if nodes[x] is Excess {
            assert(has_excess(nodes));
            lemma_max_level_in_ge(start, n as int, p as int);
        } else {
            if nodes[x] is Output {
                lemma_reached_output(nodes, rs, x as usize);
            }
            if reached(nodes, rs, x as usize) {
                lemma_reached_explored(nodes, rs, st.rank, x as usize);
                lemma_reached_parent(nodes, rs, x as usize, p);
                assert forall|q: usize| #[trigger] rs[x].contains(q) implies st.rank[x] < st.rank[q as int] <= st.clock by {
                    assert(rs[x].subset_of(below(n as usize)));
                }
                lemma_max_parent_level_is_max(nodes, rs, st.rank, st.clock, x, n as int);
                assert(base[p as int] == Some(level_of(nodes, rs, st.rank, st.clock, p as int)));
                assert(base[x] == Some(level_of(nodes, rs, st.rank, st.clock, x)));
                assert(start[p as int] == base[p as int]);
                assert(start[x] == base[x]);
                lemma_max_level_in_ge(start, n as int, x);
            } else {
                assert(base[p as int] is Some);
                assert(start[p as int] == base[p as int]);
                assert(base[x] is None);
                lemma_max_leveled_parent_bounds(rs[x], base, n as int, b);
            }
        }
    }
    lemma_raise_upto_rises(nodes, edges, rs, cyc, lv1, n as int);
    // squeezing out the empty levels keeps the order of the used levels
    assert forall|x: int, p: usize|
        #![trigger rs[x].contains(p)]
        0 <= x < n && rs[x].contains(p) && !(nodes[x] is Input) && !(nodes[p as int] is Output)
            && !(nodes[p as int] is Excess) && !cyc[p as int].contains(x as usize) && placed_link(nodes, rs, x, p)
            && lv[x] is Some && lv[p as int] is Some implies lv[p as int]->0 < lv[x]->0 by {
        assert(rs[x].subset_of(below(n as usize)));
        let a = lv2[p as int]->0;
        let bb = lv2[x]->0;
        assert(a < bb);
        assert(start[p as int] is Some);
        assert(a >= 0);
        assert(level_used(lv2, a));
        lemma_empties_step(lv2, m1, a);
        lemma_empties_growth(lv2, m1, a + 1, bb);
    }
}

/// Gives every node left without a level one more than the highest level
/// among its parents (1 when none of them has one). Returns the highest
/// level once every node has one.
fn fill_levels(reverse_search: &Vec<Vec<usize>>, levels: &mut Vec<Option<usize>>) -> (maximum_level: usize)
    requires
        old(levels)@.len() == reverse_search@.len(),
        forall|x: int|
            0 <= x < old(levels)@.len() && #[trigger] old(levels)@[x] is Some ==> old(levels)@[x]->0
                + count_none(lv_view(old(levels)@), old(levels)@.len() as int) <= old(levels)@.len(),
    ensures
        lv_view(final(levels)@) == fill_missing(sets_of(reverse_search@), lv_view(old(levels)@)),
        forall|x: int| 0 <= x < final(levels)@.len() ==> (#[trigger] final(levels)@[x]) is Some,
        forall|x: int| 0 <= x < final(levels)@.len() ==> final(levels)@[x]->0 <= final(levels)@.len(),
        maximum_level == max_level_in(lv_view(final(levels)@), final(levels)@.len() as int),
{
    let n = levels.len();
    let ghost lv = lv_view(levels@);
    let ghost rs = sets_of(reverse_search@);
    let ghost cn = count_none(lv, n as int);
    proof {
        lemma_count_none_bounds(lv, n as int);
    }
    let mut filled: Vec<Option<usize>> = Vec::new();
    let mut x: usize = 0;
    while x < n
        invariant
            0 <= x <= n,
            n == levels@.len(),
            n == reverse_search@.len(),
            lv == lv_view(levels@),
            rs == sets_of(reverse_search@),
            cn == count_none(lv, n as int),
            0 <= cn <= n,
            forall|y: int| 0 <= y < n && #[trigger] levels@[y] is Some ==> levels@[y]->0 + cn <= n,
            filled@.len() == x,
            forall|y: int| 0 <= y < x ==> #[trigger] lv_view(filled@)[y] == fill_missing(rs, lv)[y],
            forall|y: int| 0 <= y < x ==> (#[trigger] filled@[y]) is Some && filled@[y]->0 <= n,
        decreases n - x,
    {
        let ghost before = filled@;
        match levels[x] {
            Some(l) => {
                filled.push(Some(l));
            },
            None => {
                proof {
                    lemma_count_none_positive(lv, n as int, x as int);
                }
                let mut m: usize = 0;
                let mut k: usize = 0;
                while k < n
                    invariant
                        0 <= k <= n,
                        x < n,
                        n == levels@.len(),
                        n == reverse_search@.len(),
                        lv == lv_view(levels@),
                        rs == sets_of(reverse_search@),
                        1 <= cn <= n,
                        forall|y: int| 0 <= y < n && #[trigger] levels@[y] is Some ==> levels@[y]->0 + cn <= n,
                        m == max_leveled_parent(rs[x as int], lv, k as int),
                        m + cn <= n,
                    decreases n - k,
                {
                    match levels[k] {
                        Some(l) => {
                            if set_contains(&reverse_search[x], k) && l > m {
                                m = l;
                            }
                        },
                        None => {},
                    }
                    k += 1;
                }
                filled.push(Some(m + 1));
            },
        }
        proof {
            assert forall|y: int| 0 <= y < x + 1 implies #[trigger] lv_view(filled@)[y] == fill_missing(rs, lv)[y]
                && filled@[y] is Some && filled@[y]->0 <= n by {
                if y < x {
                    assert(filled@[y] == before[y]);
                    assert(lv_view(filled@)[y] == lv_view(before)[y]);
                }
            }
        }
        x += 1;
    }
    proof {
        assert(lv_view(filled@) =~= fill_missing(rs, lv));
    }
    *levels = filled;
    let mut maximum_level: usize = 0;
    let mut y: usize = 0;
    while y < n
        invariant
            0 <= y <= n,
            n == levels@.len(),
            forall|z: int| 0 <= z < n ==> (#[trigger] levels@[z]) is Some && levels@[z]->0 <= n,
            maximum_level == max_level_in(lv_view(levels@), y as int),
        decreases n - y,
    {
        let l = levels[y].unwrap();
        assert(lv_view(levels@)[y as int] == Some(l as int));
        if l > maximum_level {
            maximum_level = l;
        }
        y += 1;
    }
    maximum_level
}

/// Gives each node of the graph a level that sets the direction of the flow:
/// inputs at level 0, then the recipes, and the outputs and by-products at
/// the last level (with several outputs, a recipe may sit above an output's
/// own chain). `None` when the graph holds a loop that the level assignment
/// cannot handle (a node that lost a link but has no level or no child, or a
/// raised level beyond the last one).
pub fn try_sort_nodes(graph: &Graph) -> (res: Option<(BTreeMap<usize, usize>, usize)>)
    requires
        graph.node_seq().len() + 2 <= usize::MAX,
    ensures
        res is Some <==> sortable(graph.node_seq(), graph.edge_seq()),
        res matches Some(r) ==> r.0@ == levels_map(sorted_levels(graph.node_seq(), graph.edge_seq()))
            && r.1 == sorted_max(graph.node_seq(), graph.edge_seq()),
{
    proof {
        use_type_invariant(graph);
    }
    let nodes = graph.nodes();
    let edges = graph.edges();
    let n = nodes.len();
    let ghost ns = nodes@;
    let ghost es = edges@;
    // the parents of each node, then the links that close a cycle removed
    let mut reverse_search = build_reverse_search(nodes, edges);
    let ghost rs0 = sets_of(reverse_search@);
    proof {
        lemma_parents_below(ns, es);
    }
    let cycles = cycle_removal(nodes, &mut reverse_search);
    let ghost st = graph_removal(ns, es);
    proof {
        lemma_removal_upto_inv(ns, rs0, n, n as nat);
        assert(st == removal_upto(ns, rs0, n, n as nat).0);
        assert(ranked(ns, st.rs, st.rank, st.clock)) by {
            assert forall|u: int, p: usize|
                #![trigger st.rs[u].contains(p)]
                0 <= u < n && st.rank[u] >= 0 && st.rs[u].contains(p) implies st.rank[u] < st.rank[p as int] by {
                assert(!Set::<usize>::empty().contains(p));
            }
        }
    }
    // inputs start at level 0
    let mut levels: Vec<Option<usize>> = Vec::new();
    let mut x: usize = 0;
    while x < n
        invariant
            0 <= x <= n,
            n == ns.len(),
            ns == nodes@,
            levels@.len() == x,
            forall|y: int|
                0 <= y < x ==> #[trigger] lv_view(levels@)[y] == if ns[y] is Input {
                    Some(0int)
                } else {
                    None
                },
        decreases n - x,
    {
        let ghost before = levels@;
        if let Node::Input { .. } = nodes[x] {
            levels.push(Some(0));
        } else {
            levels.push(None);
        }
        proof {
            assert forall|y: int| 0 <= y < x implies #[trigger] lv_view(levels@)[y] == lv_view(before)[y] by {
                assert(levels@[y] == before[y]);
            }
            assert(lv_view(levels@)[x as int] == if ns[x as int] is Input {
                Some(0int)
            } else {
                None
            });
        }
        x += 1;
    }
    proof {
        assert(lv_view(levels@) =~= Seq::new(
            ns.len(),
            |y: int|
                if ns[y] is Input {
                    Some(0int)
                } else {
                    None
                },
        ));
    }
    assign_levels(nodes, &reverse_search, &mut levels, Ghost(st.rank), Ghost(st.clock));
    proof {
        assert(lv_view(levels@) == base_levels(ns, st.rs, st.rank, st.clock));
    }
    // the nodes not reached from an output go just above their parents
    let mut maximum_level = fill_levels(&reverse_search, &mut levels);
    let ghost base = lv_view(levels@);
    let ghost m0 = maximum_level as int;
    proof {
        assert(base == start_levels(ns, es));
        assert(m0 == max_level_in(base, n as int));
    }
    // by-products and outputs go to the last level
    let mut excess_found = false;
    let mut x: usize = 0;
    while x < n
        invariant
            0 <= x <= n,
            n == ns.len(),
            ns == nodes@,
            excess_found == exists|y: int| 0 <= y < x && #[trigger] ns[y] is Excess,
        decreases n - x,
    {
        if let Node::Excess { .. } = nodes[x] {
            excess_found = true;
        }
        x += 1;
    }
    proof {
        assert forall|y: int| 0 <= y < n && #[trigger] levels@[y] is Some implies levels@[y]->0 <= n by {}
        assert(maximum_level <= n) by {
            lemma_max_level_in_bound(base, n as int, n as int);
        }
    }
    if excess_found {
        maximum_level = maximum_level + 1;
    }
    let ghost m1 = maximum_level as int;
    let mut x: usize = 0;
    while x < n
        invariant
            0 <= x <= n,
            n == ns.len(),
            ns == nodes@,
            levels@.len() == n,
            base.len() == n,
            m1 == maximum_level,
            forall|y: int| 0 <= y < x ==> #[trigger] lv_view(levels@)[y] == with_sinks(ns, base, m1)[y],
            forall|y: int| x <= y < n ==> #[trigger] lv_view(levels@)[y] == base[y],
        decreases n - x,
    {
        let ghost before = lv_view(levels@);
        match nodes[x] {
            Node::Excess { .. } | Node::Output { .. } => {
                levels.set(x, Some(maximum_level));
                proof {
                    assert forall|y: int| 0 <= y < n && y != x implies #[trigger] lv_view(levels@)[y] == before[y] by {}
                }
            },
            _ => {},
        }
        x += 1;
    }
    proof {
        assert(lv_view(levels@) =~= with_sinks(ns, base, m1));
        assert forall|y: int| 0 <= y < n && #[trigger] levels@[y] is Some implies levels@[y]->0 <= m1 by {
            assert(lv_view(levels@)[y] is Some);
            if !(ns[y] is Excess || ns[y] is Output) {
                assert(base[y] is Some);
                lemma_max_level_in_ge(base, n as int, y);
            }
        }
    }
    proof {
        assert(excess_found == has_excess(ns));
        assert(m1 == top_level(ns, m0));
        assert(sets_of(cycles@) == st.cyc);
    }
    // nodes that lost a link are raised when their children leave room
    if !update_cycles_level(edges, &cycles, &mut levels, Ghost(m1)) {
        return None;
    }
    proof {
        let lv2 = raised_levels(ns, es).0;
        assert(lv_view(levels@) == lv2);
        assert(m1 == raised_levels(ns, es).1);
        let exec_bounded = forall|y: int|
            0 <= y < n && #[trigger] levels@[y] is Some ==> levels@[y]->0 <= maximum_level;
        let spec_bounded = forall|y: int| 0 <= y < ns.len() && #[trigger] lv2[y] is Some ==> lv2[y]->0 <= m1;
        if exec_bounded {
            assert forall|y: int| 0 <= y < ns.len() && #[trigger] lv2[y] is Some implies lv2[y]->0 <= m1 by {
                assert(lv_view(levels@)[y] is Some);
                assert(levels@[y] is Some);
            }
        }
        if spec_bounded {
            assert forall|y: int| 0 <= y < n && #[trigger] levels@[y] is Some implies levels@[y]->0 <= maximum_level by {
                assert(lv_view(levels@)[y] is Some);
                assert(lv2[y] is Some);
            }
        }
        assert(exec_bounded == spec_bounded);
    }
    // empty levels are squeezed out
    match remove_empty_levels(&mut levels, maximum_level) {
        Some(max) => {
            let res = levels_to_map(&levels);
            Some((res, max))
        },
        None => None,
    }
}

/// Gives each node of the graph a level that sets the direction of the flow:
/// inputs at level 0, then the recipes, and the outputs and by-products at
/// the last level; a node not reached from an output goes just above its
/// parents. Returns the level of each node, and the last level.
pub fn sort_nodes(graph: &Graph) -> (res: (BTreeMap<usize, usize>, usize))
    requires
        graph.node_seq().len() + 2 <= usize::MAX,
        sortable(graph.node_seq(), graph.edge_seq()),
    ensures
        res.0@ == levels_map(sorted_levels(graph.node_seq(), graph.edge_seq())),
        res.1 == sorted_max(graph.node_seq(), graph.edge_seq()),
        forall|x: usize| x < graph.node_seq().len() ==> #[trigger] res.0@.contains_key(x),
        forall|x: usize|
            x < graph.node_seq().len() && #[trigger] graph.node_seq()[x as int] is Input && parents_of(
                graph.node_seq(),
                graph.edge_seq(),
            )[x as int].is_empty() ==> res.0@.contains_key(x) && res.0@[x] == 0,
        forall|x: usize|
            x < graph.node_seq().len() && (#[trigger] graph.node_seq()[x as int] is Output
                || graph.node_seq()[x as int] is Excess) ==> res.0@.contains_key(x) && res.0@[x] == res.1,
        forall|x: usize| #[trigger] res.0@.contains_key(x) ==> res.0@[x] <= res.1,
        !res.0@.is_empty() ==> forall|t: usize| t <= res.1 ==> #[trigger] res.0@.values().contains(t),
{
    let res = try_sort_nodes(graph).unwrap();
    proof {
        use_type_invariant(graph);
        let ns = graph.node_seq();
        let es = graph.edge_seq();
        lemma_sorted_levels_laws(ns, es);
        let lv = sorted_levels(ns, es);
        let top = sorted_max(ns, es);
        assert forall|x: usize| x < ns.len() implies #[trigger] res.0@.contains_key(x) by {
            assert(lv[x as int] is Some);
        }
        assert forall|x: usize| #[trigger] res.0@.contains_key(x) implies res.0@[x] <= res.1 by {
            assert(lv[x as int] is Some);
        }
        if !res.0@.is_empty() {
            let x0 = choose|x0: usize| res.0@.contains_key(x0);
            assert(lv[x0 as int] is Some);
            assert forall|t: usize| t <= res.1 implies #[trigger] res.0@.values().contains(t) by {
                assert(level_used(lv, t as int));
                let y = choose|y: int| 0 <= y < lv.len() && lv[y] == Some(t as int);
                assert(res.0@.contains_key(y as usize));
                assert(res.0@[y as usize] == t);
            }
        }
    }
    res
}

} // verus!
