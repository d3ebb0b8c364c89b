//! What this library relies on from `petgraph`'s `Graph`.
//!
//! The graph type itself is opaque to the verifier. Its contents are named by
//! two specification functions, and each `petgraph` method the library calls
//! is wrapped in a function whose contract is stated over those names. The
//! contracts in this file are trusted, not proved.

use petgraph::graph::DiGraph;
use petgraph::graph::NodeIndex;
use vstd::prelude::*;

verus! {

/// `petgraph::graph::Graph`, carried through verified code as an opaque
/// value.
#[verifier::external_type_specification]
#[verifier::external_body]
#[verifier::reject_recursive_types(N)]
#[verifier::reject_recursive_types(E)]
#[verifier::reject_recursive_types(Ty)]
#[verifier::reject_recursive_types(Ix)]
pub struct ExGraph<N, E, Ty, Ix>(petgraph::graph::Graph<N, E, Ty, Ix>);

/// `petgraph::Directed`, the marker of graphs with directed edges.
#[verifier::external_type_specification]
#[verifier::external_body]
pub struct ExDirected(petgraph::Directed);

/// The weights of the nodes of `graph`, in index order: the weight of node
/// `i` is `graph_nodes(graph)[i]`.
pub uninterp spec fn graph_nodes(graph: DiGraph<u32, ()>) -> Seq<u32>;

/// The edges of `graph` as `(source, target)` pairs of node indices, in the
/// order in which they were added.
pub uninterp spec fn graph_edges(graph: DiGraph<u32, ()>) -> Seq<(int, int)>;

/// The test whether an edge leaves `source`.
pub open spec fn leaves(source: int) -> spec_fn((int, int)) -> bool {
    |e: (int, int)| e.0 == source
}

/// The edges that leave `source`, in edge order.
pub open spec fn out_edges(edges: Seq<(int, int)>, source: int) -> Seq<(int, int)> {
    edges.filter(leaves(source))
}

/// The targets of the edges that leave `source`, in edge order.
pub open spec fn out_targets(edges: Seq<(int, int)>, source: int) -> Seq<int> {
    Seq::new(out_edges(edges, source).len(), |k: int| out_edges(edges, source)[k].1)
}

/// `Graph::new`: a directed graph without nodes or edges.
#[verifier::external_body]
pub(crate) fn empty_graph() -> (graph: DiGraph<u32, ()>)
    ensures
        graph_nodes(graph) == Seq::<u32>::empty(),
        graph_edges(graph) == Seq::<(int, int)>::empty(),
{
    DiGraph::new()
}

/// `Graph::node_count`: the number of nodes. With 32-bit indices `petgraph`
/// never holds more than `u32::MAX` of them.
#[verifier::external_body]
pub(crate) fn node_count(graph: &DiGraph<u32, ()>) -> (count: usize)
    ensures
        count == graph_nodes(*graph).len(),
        count <= u32::MAX,
{
    graph.node_count()
}

/// `Graph::add_node`: appends a node with weight `id` and returns its index,
/// the former node count. Existing nodes and edges are untouched. `petgraph`
/// panics when the graph already holds `u32::MAX` nodes, so that is excluded.
#[verifier::external_body]
pub(crate) fn add_node(graph: &mut DiGraph<u32, ()>, id: u32) -> (index: usize)
    requires
        graph_nodes(*old(graph)).len() < u32::MAX,
    ensures
        index == graph_nodes(*old(graph)).len(),
        graph_nodes(*final(graph)) == graph_nodes(*old(graph)).push(id),
        graph_edges(*final(graph)) == graph_edges(*old(graph)),
{
    graph.add_node(id).index()
}

/// `Graph::add_edge`: appends an edge from node `from` to node `to`; parallel
/// edges are kept. `petgraph` panics when either node is missing or when the
/// graph already holds `u32::MAX` edges, so both are excluded.
#[verifier::external_body]
pub(crate) fn add_edge(graph: &mut DiGraph<u32, ()>, from: usize, to: usize)
    requires
        from < graph_nodes(*old(graph)).len(),
        to < graph_nodes(*old(graph)).len(),
        graph_edges(*old(graph)).len() < u32::MAX,
    ensures
        graph_nodes(*final(graph)) == graph_nodes(*old(graph)),
        graph_edges(*final(graph)) == graph_edges(*old(graph)).push((from as int, to as int)),
{
    graph.add_edge(NodeIndex::new(from), NodeIndex::new(to), ());
}

/// `Graph::neighbors`: on a directed graph, the targets of the edges that
/// leave `node`, most recently added edge first. Each is a node of the graph.
#[verifier::external_body]
pub(crate) fn neighbors(graph: &DiGraph<u32, ()>, node: usize) -> (targets: Vec<usize>)
    requires
        node < graph_nodes(*graph).len(),
    ensures
        targets.len() == out_targets(graph_edges(*graph), node as int).len(),
        forall|i: int|
            0 <= i < targets.len() ==> #[trigger] targets@[i] == out_targets(
                graph_edges(*graph),
                node as int,
            )[targets.len() - 1 - i],
        forall|i: int| 0 <= i < targets.len() ==> #[trigger] targets@[i] < graph_nodes(*graph).len(),
{
    graph.neighbors(NodeIndex::new(node)).map(|n| n.index()).collect()
}

/// `Graph::neighbors_directed` with `Direction::Outgoing`: the targets of the
/// edges that leave `node`, most recently added edge first.
#[verifier::external_body]
pub(crate) fn neighbors_outgoing(graph: &DiGraph<u32, ()>, node: usize) -> (targets: Vec<usize>)
    requires
        node < graph_nodes(*graph).len(),
    ensures
        targets.len() == out_targets(graph_edges(*graph), node as int).len(),
        forall|i: int|
            0 <= i < targets.len() ==> #[trigger] targets@[i] == out_targets(
                graph_edges(*graph),
                node as int,
            )[targets.len() - 1 - i],
{
    graph.neighbors_directed(NodeIndex::new(node), petgraph::Direction::Outgoing).map(
        |n| n.index(),
    ).collect()
}

/// `Graph::node_indices`: the indices `0, 1, ..` of all nodes, ascending.
#[verifier::external_body]
pub(crate) fn node_indices(graph: &DiGraph<u32, ()>) -> (indices: Vec<usize>)
    ensures
        indices.len() == graph_nodes(*graph).len(),
        forall|i: int| 0 <= i < indices.len() ==> #[trigger] indices@[i] == i,
{
    graph.node_indices().map(|n| n.index()).collect()
}

/// An edge from `source` to `target` exists exactly when `target` is listed
/// among the out-targets of `source`.
pub proof fn lemma_out_targets(edges: Seq<(int, int)>, source: int, target: int)
    ensures
        out_targets(edges, source).contains(target) <==> edges.contains((source, target)),
{
    let kept = out_edges(edges, source);
    let targets = out_targets(edges, source);
    if edges.contains((source, target)) {
        let i = choose|i: int| 0 <= i < edges.len() && edges[i] == (source, target);
        edges.lemma_filter_contains(leaves(source), i);
        let k = choose|k: int| 0 <= k < kept.len() && kept[k] == (source, target);
        assert(targets[k] == target);
    }
    if targets.contains(target) {
        let k = choose|k: int| 0 <= k < targets.len() && targets[k] == target;
        edges.lemma_filter_pred(leaves(source), k);
        assert(kept.contains(kept[k]));
        edges.lemma_filter_contains_rev(leaves(source), kept[k]);
        assert(kept[k] == (source, target));
    }
}

} // verus!
