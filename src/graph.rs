use vstd::prelude::*;

verus! {

#[verifier::external_type_specification]
#[verifier::external_body]
pub struct ExDirected(petgraph::Directed);

#[verifier::external_type_specification]
#[verifier::external_body]
pub struct ExUndirected(petgraph::Undirected);

#[verifier::external_type_specification]
#[verifier::external_body]
#[verifier::reject_recursive_types(N)]
#[verifier::reject_recursive_types(E)]
#[verifier::reject_recursive_types(Ty)]
#[verifier::reject_recursive_types(Ix)]
pub struct ExGraph<N, E, Ty, Ix>(petgraph::Graph<N, E, Ty, Ix>);

/// The largest node count, and the largest edge count, that a petgraph
/// graph with its default `u32` indices can hold.
pub const GRAPH_LIMIT: u64 = 0xFFFF_FFFF;

/// The number of nodes of a directed petgraph graph.
pub uninterp spec fn digraph_node_count(g: petgraph::Graph<(), (), petgraph::Directed>) -> nat;

/// The edges of a directed petgraph graph, as (source, target), in insertion order.
pub uninterp spec fn digraph_edges(g: petgraph::Graph<(), (), petgraph::Directed>) -> Seq<(int, int)>;

/// The number of nodes of an undirected petgraph graph.
pub uninterp spec fn ungraph_node_count(g: petgraph::Graph<(), (), petgraph::Undirected>) -> nat;

/// The edges of an undirected petgraph graph, as inserted, in insertion order.
pub uninterp spec fn ungraph_edges(g: petgraph::Graph<(), (), petgraph::Undirected>) -> Seq<(int, int)>;

/// Relies on `petgraph::Graph::with_capacity`: a new graph has no nodes and no edges.
#[verifier::external_body]
fn new_digraph(nodes: usize, edges: usize) -> (g: petgraph::Graph<(), (), petgraph::Directed>)
    ensures
        digraph_node_count(g) == 0,
        digraph_edges(g) == Seq::<(int, int)>::empty(),
{
    petgraph::Graph::with_capacity(nodes, edges)
}

/// Relies on `petgraph::Graph::add_node`: one node more, the edges unchanged.
/// It panics when the node count already equals `u32::MAX`.
#[verifier::external_body]
fn digraph_add_node(g: &mut petgraph::Graph<(), (), petgraph::Directed>)
    requires
        digraph_node_count(*old(g)) < GRAPH_LIMIT,
    ensures
        digraph_node_count(*final(g)) == digraph_node_count(*old(g)) + 1,
        digraph_edges(*final(g)) == digraph_edges(*old(g)),
{
    g.add_node(());
}

/// Relies on `petgraph::Graph::add_edge`: the edge is appended, the nodes
/// unchanged. It panics on an endpoint out of range and when the edge count
/// already equals `u32::MAX`.
#[verifier::external_body]
fn digraph_add_edge(g: &mut petgraph::Graph<(), (), petgraph::Directed>, a: usize, b: usize)
    requires
        a < digraph_node_count(*old(g)),
        b < digraph_node_count(*old(g)),
        digraph_edges(*old(g)).len() < GRAPH_LIMIT,
    ensures
        digraph_node_count(*final(g)) == digraph_node_count(*old(g)),
        digraph_edges(*final(g)) == digraph_edges(*old(g)).push((a as int, b as int)),
{
    g.add_edge(petgraph::graph::NodeIndex::new(a), petgraph::graph::NodeIndex::new(b), ());
}

/// Relies on `petgraph::Graph::with_capacity`: a new graph has no nodes and no edges.
#[verifier::external_body]
fn new_ungraph(nodes: usize, edges: usize) -> (g: petgraph::Graph<(), (), petgraph::Undirected>)
    ensures
        ungraph_node_count(g) == 0,
        ungraph_edges(g) == Seq::<(int, int)>::empty(),
{
    petgraph::Graph::with_capacity(nodes, edges)
}

/// Relies on `petgraph::Graph::add_node`: one node more, the edges unchanged.
/// It panics when the node count already equals `u32::MAX`.
#[verifier::external_body]
fn ungraph_add_node(g: &mut petgraph::Graph<(), (), petgraph::Undirected>)
    requires
        ungraph_node_count(*old(g)) < GRAPH_LIMIT,
    ensures
        ungraph_node_count(*final(g)) == ungraph_node_count(*old(g)) + 1,
        ungraph_edges(*final(g)) == ungraph_edges(*old(g)),
{
    g.add_node(());
}

/// Relies on `petgraph::Graph::add_edge`: the edge is appended, the nodes
/// unchanged. It panics on an endpoint out of range and when the edge count
/// already equals `u32::MAX`.
#[verifier::external_body]
fn ungraph_add_edge(g: &mut petgraph::Graph<(), (), petgraph::Undirected>, a: usize, b: usize)
    requires
        a < ungraph_node_count(*old(g)),
        b < ungraph_node_count(*old(g)),
        ungraph_edges(*old(g)).len() < GRAPH_LIMIT,
    ensures
        ungraph_node_count(*final(g)) == ungraph_node_count(*old(g)),
        ungraph_edges(*final(g)) == ungraph_edges(*old(g)).push((a as int, b as int)),
{
    g.add_edge(petgraph::graph::NodeIndex::new(a), petgraph::graph::NodeIndex::new(b), ());
}

/// An edge of machine integers, read as a pair of integers.
pub open spec fn as_pair(e: (usize, usize)) -> (int, int) {
    (e.0 as int, e.1 as int)
}

/// Edges of machine integers, read as pairs of integers.
pub open spec fn pairs_of(v: Seq<(usize, usize)>) -> Seq<(int, int)> {
    v.map_values(|e: (usize, usize)| as_pair(e))
}

/// A graph instance as the models build it: a node count and the edges in
/// the order they were inserted. Edges are pairs of node indices.
pub struct EdgeList {
    pub node_count: usize,
    pub edges: Vec<(usize, usize)>,
}

impl EdgeList {
    pub open spec fn spec_edges(&self) -> Seq<(int, int)> {
        pairs_of(self.edges@)
    }

    /// Every endpoint names an existing node, and the counts fit a petgraph graph.
    pub open spec fn wf(&self) -> bool {
        &&& self.node_count <= GRAPH_LIMIT
        &&& self.edges@.len() <= GRAPH_LIMIT
        &&& forall|i: int|
            0 <= i < self.edges@.len() ==> #[trigger] self.edges@[i].0 < self.node_count
                && self.edges@[i].1 < self.node_count
    }

    /// Builds the directed petgraph graph with these nodes and edges.
    pub fn to_directed(&self) -> (g: petgraph::Graph<(), (), petgraph::Directed>)
        requires
            self.wf(),
        ensures
            digraph_node_count(g) == self.node_count,
            digraph_edges(g) == self.spec_edges(),
    {
        let mut g = new_digraph(self.node_count, self.edges.len());
        let mut i: usize = 0;
        while i < self.node_count
            invariant
                self.wf(),
                i <= self.node_count,
                digraph_node_count(g) == i,
                digraph_edges(g) == Seq::<(int, int)>::empty(),
            decreases self.node_count - i,
        {
            digraph_add_node(&mut g);
            i = i + 1;
        }
        let mut j: usize = 0;
        while j < self.edges.len()
            invariant
                self.wf(),
                j <= self.edges@.len(),
                digraph_node_count(g) == self.node_count,
                digraph_edges(g) == self.spec_edges().subrange(0, j as int),
            decreases self.edges@.len() - j,
        {
            let (a, b) = self.edges[j];
            digraph_add_edge(&mut g, a, b);
            assert(self.spec_edges().subrange(0, j + 1) =~= self.spec_edges().subrange(
                0,
                j as int,
            ).push((a as int, b as int)));
            j = j + 1;
        }
        assert(self.spec_edges().subrange(0, j as int) =~= self.spec_edges());
        g
    }

    /// Builds the undirected petgraph graph with these nodes and edges.
    pub fn to_undirected(&self) -> (g: petgraph::Graph<(), (), petgraph::Undirected>)
        requires
            self.wf(),
        ensures
            ungraph_node_count(g) == self.node_count,
            ungraph_edges(g) == self.spec_edges(),
    {
        let mut g = new_ungraph(self.node_count, self.edges.len());
        let mut i: usize = 0;
        while i < self.node_count
            invariant
                self.wf(),
                i <= self.node_count,
                ungraph_node_count(g) == i,
                ungraph_edges(g) == Seq::<(int, int)>::empty(),
            decreases self.node_count - i,
        {
            ungraph_add_node(&mut g);
            i = i + 1;
        }
        let mut j: usize = 0;
        while j < self.edges.len()
            invariant
                self.wf(),
                j <= self.edges@.len(),
                ungraph_node_count(g) == self.node_count,
                ungraph_edges(g) == self.spec_edges().subrange(0, j as int),
            decreases self.edges@.len() - j,
        {
            let (a, b) = self.edges[j];
            ungraph_add_edge(&mut g, a, b);
            assert(self.spec_edges().subrange(0, j + 1) =~= self.spec_edges().subrange(
                0,
                j as int,
            ).push((a as int, b as int)));
            j = j + 1;
        }
        assert(self.spec_edges().subrange(0, j as int) =~= self.spec_edges());
        g
    }
}

} // verus!
