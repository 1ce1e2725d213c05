//! The petgraph graph that stores a control-flow graph, as seen by the
//! verifier: its nodes and its edges, in the order they were added.
use crate::basicblock::{BasicBlock, BasicBlockEdge, EdgeType};
use petgraph::graph::{Graph, NodeIndex};
use vstd::prelude::*;

verus! {

#[verifier::external_type_specification]
#[verifier::external_body]
#[verifier::reject_recursive_types(N)]
#[verifier::reject_recursive_types(E)]
#[verifier::reject_recursive_types(Ty)]
#[verifier::reject_recursive_types(Ix)]
pub struct ExGraph<N, E, Ty, Ix>(Graph<N, E, Ty, Ix>);

#[verifier::external_type_specification]
#[verifier::external_body]
pub struct ExDirected(petgraph::Directed);

/// The type of graph that holds a control-flow graph.
pub type BlockGraph = Graph<BasicBlock, BasicBlockEdge>;

/// The node weights of a graph, by node index.
pub uninterp spec fn graph_blocks(g: BlockGraph) -> Seq<BasicBlock>;

/// The edges of a graph as (source, target, kind), by edge index.
pub uninterp spec fn graph_edges(g: BlockGraph) -> Seq<(usize, usize, EdgeType)>;

/// Relies on `Graph::new`: a graph with no nodes and no edges.
#[verifier::external_body]
pub(crate) fn graph_new() -> (g: BlockGraph)
    ensures
        graph_blocks(g) == Seq::<BasicBlock>::empty(),
        graph_edges(g) == Seq::<(usize, usize, EdgeType)>::empty(),
{
    Graph::new()
}

/// Relies on `Graph::add_node`: the weight is appended and its index
/// returned; it panics only when the `u32` index space is full.
#[verifier::external_body]
pub(crate) fn graph_add_node(g: &mut BlockGraph, weight: BasicBlock) -> (r: usize)
    requires
        graph_blocks(*old(g)).len() < u32::MAX,
    ensures
        r == graph_blocks(*old(g)).len(),
        graph_blocks(*final(g)) == graph_blocks(*old(g)).push(weight),
        graph_edges(*final(g)) == graph_edges(*old(g)),
{
    g.add_node(weight).index()
}

/// Relies on `Graph::add_edge`: the edge is appended; it panics only when
/// an endpoint is not a node or the `u32` index space is full.
#[verifier::external_body]
pub(crate) fn graph_add_edge(g: &mut BlockGraph, source: usize, target: usize, kind: EdgeType)
    requires
        source < graph_blocks(*old(g)).len(),
        target < graph_blocks(*old(g)).len(),
        graph_edges(*old(g)).len() < u32::MAX,
    ensures
        graph_blocks(*final(g)) == graph_blocks(*old(g)),
        graph_edges(*final(g)) == graph_edges(*old(g)).push((source, target, kind)),
{
    g.add_edge(NodeIndex::new(source), NodeIndex::new(target), BasicBlockEdge { edge_type: kind });
}

/// Relies on indexing a `Graph` by node (`IndexMut`): a mutable reference to
/// the weight of an existing node.
#[verifier::external_body]
pub(crate) fn graph_block_mut(g: &mut BlockGraph, node: usize) -> (r: &mut BasicBlock)
    requires
        node < graph_blocks(*old(g)).len(),
    ensures
        *r == graph_blocks(*old(g))[node as int],
        graph_blocks(*final(g)) == graph_blocks(*old(g)).update(node as int, *final(r)),
        graph_edges(*final(g)) == graph_edges(*old(g)),
{
    &mut g[NodeIndex::new(node)]
}

/// Relies on `Graph::node_count`: the number of nodes, at most `u32::MAX`
/// since `Graph::try_add_node` refuses to give a node the index `u32::MAX`.
#[verifier::external_body]
pub(crate) fn graph_node_count(g: &BlockGraph) -> (r: usize)
    ensures
        r == graph_blocks(*g).len(),
        r <= u32::MAX,
{
    g.node_count()
}

/// Relies on `Graph::edge_count`: the number of edges.
#[verifier::external_body]
pub(crate) fn graph_edge_count(g: &BlockGraph) -> (r: usize)
    ensures
        r == graph_edges(*g).len(),
{
    g.edge_count()
}

/// Relies on `Graph::raw_edges` with `Edge::source` and `Edge::target`:
/// the edge of index `k`, in the order in which edges were added.
#[verifier::external_body]
pub(crate) fn graph_edge(g: &BlockGraph, k: usize) -> (r: (usize, usize, EdgeType))
    requires
        k < graph_edges(*g).len(),
    ensures
        r == graph_edges(*g)[k as int],
{
    let e = &g.raw_edges()[k];
    (e.source().index(), e.target().index(), e.weight.edge_type)
}

} // verus!
