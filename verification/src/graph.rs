use vstd::prelude::*;

use crate::amount::Fl;
use crate::ids::{ItemId, RecipeId};

verus! {

/// A node of a production graph.
///
/// `Recipe` nodes stand for a recipe run `amount` times in parallel, `Input`
/// nodes for items taken from the available resources, `Output` nodes for the
/// requested targets and `Excess` nodes for by-products that nothing consumes.
#[derive(Clone, Copy, Debug, PartialEq, Eq, Structural)]
pub enum Node {
    Recipe { rid: RecipeId, amount: Fl },
    Input { iid: ItemId, amount: Fl },
    Output { iid: ItemId, amount: Fl },
    Excess { iid: ItemId, amount: Fl },
}

/// A flow of `amount` items `iid` per minute from node `from` to node `to`
/// (both indices into the node list of the graph).
#[derive(Clone, Copy, Debug, PartialEq, Eq, Structural)]
pub struct Edge {
    pub from: usize,
    pub to: usize,
    pub iid: ItemId,
    pub amount: Fl,
}

/// Every edge of `edges` joins two nodes of `nodes`.
pub open spec fn edges_in_bounds(nodes: Seq<Node>, edges: Seq<Edge>) -> bool {
    forall|i: int|
        0 <= i < edges.len() ==> (#[trigger] edges[i]).from < nodes.len() && edges[i].to
            < nodes.len()
}

/// A production graph: nodes and the flows between them.
#[derive(Debug)]
pub struct Graph {
    nodes: Vec<Node>,
    edges: Vec<Edge>,
}

impl Graph {
    #[verifier::type_invariant]
    pub open spec fn well_formed(self) -> bool {
        edges_in_bounds(self.node_seq(), self.edge_seq())
    }

    /// The nodes of the graph.
    pub closed spec fn node_seq(&self) -> Seq<Node> {
        self.nodes@
    }

    /// The edges of the graph.
    pub closed spec fn edge_seq(&self) -> Seq<Edge> {
        self.edges@
    }

    /// Builds a graph from its nodes and edges; `None` when an edge names a
    /// node that does not exist.
    pub fn new(nodes: Vec<Node>, edges: Vec<Edge>) -> (res: Option<Graph>)
        ensures
            res is Some <==> edges_in_bounds(nodes@, edges@),
            res matches Some(g) ==> g.node_seq() == nodes@ && g.edge_seq() == edges@,
    {
        let n = nodes.len();
        let mut i: usize = 0;
        while i < edges.len()
            invariant
                0 <= i <= edges.len(),
                n == nodes.len(),
                forall|j: int|
                    0 <= j < i ==> (#[trigger] edges@[j]).from < n && edges@[j].to < n,
            decreases edges.len() - i,
        {
            if edges[i].from >= n || edges[i].to >= n {
                return None;
            }
            i += 1;
        }
        Some(Graph { nodes, edges })
    }

    /// Builds a graph from nodes and edges known to join them.
    pub(crate) fn from_parts(nodes: Vec<Node>, edges: Vec<Edge>) -> (res: Graph)
        requires
            edges_in_bounds(nodes@, edges@),
        ensures
            res.node_seq() == nodes@,
            res.edge_seq() == edges@,
    {
        Graph { nodes, edges }
    }

    /// The nodes of the graph, indexed by the edges.
    pub fn nodes(&self) -> (res: &[Node])
        ensures
            res@ == self.node_seq(),
    {
        self.nodes.as_slice()
    }

    /// The edges of the graph.
    pub fn edges(&self) -> (res: &[Edge])
        ensures
            res@ == self.edge_seq(),
    {
        self.edges.as_slice()
    }
}

} // verus!
