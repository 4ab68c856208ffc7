//! The import graph: a directed `petgraph` graph whose nodes are modules.
use petgraph::graph::{DiGraph, EdgeIndex, NodeIndex};
use vstd::prelude::*;

verus! {

/// `petgraph::graph::Graph`, held as an opaque value.
#[verifier::external_type_specification]
#[verifier::external_body]
#[verifier::reject_recursive_types(N)]
#[verifier::reject_recursive_types(E)]
#[verifier::reject_recursive_types(Ty)]
#[verifier::reject_recursive_types(Ix)]
pub struct ExGraph<N, E, Ty, Ix>(petgraph::graph::Graph<N, E, Ty, Ix>);

/// `petgraph::Directed`, the marker of a graph whose edges have a direction.
#[verifier::external_type_specification]
#[verifier::external_body]
pub struct ExDirected(petgraph::Directed);

/// The weights of the nodes, by node index.
pub uninterp spec fn graph_nodes(graph: DiGraph<String, ()>) -> Seq<Seq<char>>;

/// The source and the target of each edge, by edge index.
pub uninterp spec fn graph_edges(graph: DiGraph<String, ()>) -> Seq<(u32, u32)>;

/// For each node index the targets of its outgoing edges, in the order in which the graph lists
/// them.
pub uninterp spec fn graph_successors(graph: DiGraph<String, ()>) -> Seq<Seq<u32>>;

/// The successors of a node; none where there is no such node.
pub open spec fn successors_of(lists: Seq<Seq<u32>>, node: u32) -> Seq<u32> {
    if node < lists.len() {
        lists[node as int]
    } else {
        Seq::empty()
    }
}

/// The targets of the edges that start at a node, in the order of the edges.
pub open spec fn targets_from(edges: Seq<(u32, u32)>, node: u32) -> Seq<u32>
    decreases edges.len(),
{
    if edges.len() == 0 {
        Seq::empty()
    } else if edges.last().0 == node {
        targets_from(edges.drop_last(), node).push(edges.last().1)
    } else {
        targets_from(edges.drop_last(), node)
    }
}

/// The sources of the edges that end at a node, in the order of the edges.
pub open spec fn sources_into(edges: Seq<(u32, u32)>, node: u32) -> Seq<u32>
    decreases edges.len(),
{
    if edges.len() == 0 {
        Seq::empty()
    } else if edges.last().1 == node {
        sources_into(edges.drop_last(), node).push(edges.last().0)
    } else {
        sources_into(edges.drop_last(), node)
    }
}

/// `petgraph::graph::Graph::new` for a directed graph: it has neither nodes nor edges.
#[verifier::external_body]
pub(crate) fn new_graph() -> (graph: DiGraph<String, ()>)
    ensures
        graph_nodes(graph) == Seq::<Seq<char>>::empty(),
        graph_edges(graph) == Seq::<(u32, u32)>::empty(),
        graph_successors(graph) == Seq::<Seq<u32>>::empty(),
{
    DiGraph::new()
}

/// `petgraph::graph::Graph::add_node`: the new node gets the next index, and no edge touches it.
/// The call panics where the graph already has as many nodes as its index type can number.
#[verifier::external_body]
pub(crate) fn add_node(graph: &mut DiGraph<String, ()>, weight: String) -> (node: u32)
    requires
        graph_nodes(*old(graph)).len() < u32::MAX,
    ensures
        node == graph_nodes(*old(graph)).len(),
        graph_nodes(*final(graph)) == graph_nodes(*old(graph)).push(weight@),
        graph_edges(*final(graph)) == graph_edges(*old(graph)),
        graph_successors(*final(graph)) == graph_successors(*old(graph)).push(Seq::empty()),
{
    graph.add_node(weight).index() as u32
}

/// `petgraph::graph::Graph::add_edge`: the new edge gets the next index and stands first among
/// the edges of its source. The call panics where one of the nodes does not exist, or where the
/// graph already has as many edges as its index type can number.
#[verifier::external_body]
pub(crate) fn add_edge(graph: &mut DiGraph<String, ()>, source: u32, target: u32)
    requires
        source < graph_nodes(*old(graph)).len(),
        target < graph_nodes(*old(graph)).len(),
        graph_edges(*old(graph)).len() < u32::MAX,
    ensures
        graph_nodes(*final(graph)) == graph_nodes(*old(graph)),
        graph_edges(*final(graph)) == graph_edges(*old(graph)).push((source, target)),
        graph_successors(*final(graph)) == graph_successors(*old(graph)).update(
            source as int,
            seq![target] + graph_successors(*old(graph))[source as int],
        ),
{
    graph.add_edge(NodeIndex::from(source), NodeIndex::from(target), ());
}

/// `petgraph::graph::Graph::neighbors`: the targets of the edges that start at the node, once for
/// each edge, in the order of the node's list; none where the node does not exist.
#[verifier::external_body]
pub(crate) fn neighbors(graph: &DiGraph<String, ()>, node: u32) -> (targets: Vec<u32>)
    ensures
        targets@ == successors_of(graph_successors(*graph), node),
        targets@.to_multiset() == targets_from(graph_edges(*graph), node).to_multiset(),
{
    graph.neighbors(NodeIndex::from(node)).map(|target| target.index() as u32).collect()
}

/// `petgraph::graph::Graph::neighbors_directed` against the direction of the edges: the sources of
/// the edges that end at the node, once for each edge: those whose lists hold the node. Their order
/// is left open.
#[verifier::external_body]
pub(crate) fn incoming_neighbors(graph: &DiGraph<String, ()>, node: u32) -> (sources: Vec<u32>)
    ensures
        sources@.to_multiset() == sources_into(graph_edges(*graph), node).to_multiset(),
        forall|source: u32| #[trigger]
            sources@.contains(source) <==> successors_of(
                graph_successors(*graph),
                source,
            ).contains(node),
{
    graph.neighbors_directed(NodeIndex::from(node), petgraph::Direction::Incoming).map(
        |source| source.index() as u32,
    ).collect()
}

/// `petgraph::graph::Graph::node_indices`: the indices of the nodes, in ascending order, as many as
/// there are weights and lists.
#[verifier::external_body]
pub(crate) fn node_indices(graph: &DiGraph<String, ()>) -> (nodes: Vec<u32>)
    ensures
        nodes@.len() == graph_nodes(*graph).len(),
        nodes@.len() == graph_successors(*graph).len(),
        forall|i: int| 0 <= i < nodes@.len() ==> #[trigger] nodes@[i] == i,
{
    graph.node_indices().map(|node| node.index() as u32).collect()
}

/// `petgraph::graph::Graph::edge_indices`: the indices of the edges, in ascending order.
#[verifier::external_body]
pub(crate) fn edge_indices(graph: &DiGraph<String, ()>) -> (edges: Vec<u32>)
    ensures
        edges@.len() == graph_edges(*graph).len(),
        forall|i: int| 0 <= i < edges@.len() ==> #[trigger] edges@[i] == i,
{
    graph.edge_indices().map(|edge| edge.index() as u32).collect()
}

/// `petgraph::graph::Graph::edge_endpoints`: the source and the target of an edge; nothing where
/// there is no such edge.
#[verifier::external_body]
pub(crate) fn edge_endpoints(graph: &DiGraph<String, ()>, edge: u32) -> (ends: Option<(u32, u32)>)
    ensures
        ends == (if edge < graph_edges(*graph).len() {
            Some(graph_edges(*graph)[edge as int])
        } else {
            None
        }),
{
    graph.edge_endpoints(EdgeIndex::from(edge)).map(
        |ends| (ends.0.index() as u32, ends.1.index() as u32),
    )
}

/// The targets from a node and the sources into it are the other ends of the edges that touch it,
/// one for each edge, in the order of the edges.
pub proof fn law_ends_of_edges(edges: Seq<(u32, u32)>, node: u32)
    ensures
        targets_from(edges, node) == edges.filter(|edge: (u32, u32)| edge.0 == node).map_values(
            |edge: (u32, u32)| edge.1,
        ),
        sources_into(edges, node) == edges.filter(|edge: (u32, u32)| edge.1 == node).map_values(
            |edge: (u32, u32)| edge.0,
        ),
    decreases edges.len(),
{
    reveal(Seq::filter);
    if edges.len() > 0 {
        law_ends_of_edges(edges.drop_last(), node);
        assert(targets_from(edges, node) =~= edges.filter(
            |edge: (u32, u32)| edge.0 == node,
        ).map_values(|edge: (u32, u32)| edge.1));
        assert(sources_into(edges, node) =~= edges.filter(
            |edge: (u32, u32)| edge.1 == node,
        ).map_values(|edge: (u32, u32)| edge.0));
    } else {
        assert(targets_from(edges, node) =~= edges.filter(
            |edge: (u32, u32)| edge.0 == node,
        ).map_values(|edge: (u32, u32)| edge.1));
        assert(sources_into(edges, node) =~= edges.filter(
            |edge: (u32, u32)| edge.1 == node,
        ).map_values(|edge: (u32, u32)| edge.0));
    }
}

} // verus!
