//! The graph of the borders that have been joined.

use petgraph::algo::{kosaraju_scc, min_spanning_tree};
use petgraph::data::FromElements;
use petgraph::graphmap::GraphMap;
use petgraph::Undirected;
use std::collections::hash_map::RandomState;
use std::hash::BuildHasher;
use vstd::prelude::*;

verus! {

#[verifier::external_type_specification]
#[verifier::external_body]
#[verifier::reject_recursive_types(N)]
#[verifier::reject_recursive_types(E)]
#[verifier::reject_recursive_types(Ty)]
#[verifier::reject_recursive_types(S)]
pub struct ExGraphMap<N, E, Ty, S: BuildHasher>(GraphMap<N, E, Ty, S>);

#[verifier::external_type_specification]
#[verifier::external_body]
pub struct ExUndirected(Undirected);

/// The nodes of a graph.
pub uninterp spec fn graph_nodes(graph: GraphMap<usize, (), Undirected, RandomState>) -> Set<usize>;

/// The edges of a graph, each as the pair of its ends with the smaller end
/// first.
pub uninterp spec fn graph_edges(graph: GraphMap<usize, (), Undirected, RandomState>) -> Set<
    (usize, usize),
>;

/// The pair that stands for an edge between `a` and `b`: the smaller end
/// comes first.
pub open spec fn edge_key(a: usize, b: usize) -> (usize, usize) {
    if a <= b {
        (a, b)
    } else {
        (b, a)
    }
}

/// Whether `chain` is a run of nodes each of which shares an edge with the
/// next.
pub open spec fn is_chain(edges: Set<(usize, usize)>, chain: Seq<usize>) -> bool {
    chain.len() > 0 && forall|i: int|
        0 <= i < chain.len() - 1 ==> edges.contains(edge_key(#[trigger] chain[i], chain[i + 1]))
}

/// Whether a run of edges leads from `a` to `b`.
pub open spec fn connected(edges: Set<(usize, usize)>, a: usize, b: usize) -> bool {
    exists|chain: Seq<usize>| #[trigger]
        is_chain(edges, chain) && chain[0] == a && chain.last() == b
}

/// Whether `n` is the smallest of the nodes that a run of edges connects
/// it to.
pub open spec fn is_smallest_of_component(
    nodes: Set<usize>,
    edges: Set<(usize, usize)>,
    n: usize,
) -> bool {
    forall|m: usize| nodes.contains(m) && #[trigger] connected(edges, m, n) ==> n <= m
}

/// How many connected components the graph of the given nodes and edges
/// has: as many as there are nodes that are the smallest of their
/// component.
pub open spec fn component_count(nodes: Set<usize>, edges: Set<(usize, usize)>) -> nat {
    nodes.filter(|n: usize| is_smallest_of_component(nodes, edges, n)).len()
}

/// A graph without nodes.
///
/// Calls `petgraph::graphmap::GraphMap::new`, which builds the graph from
/// two empty maps.
#[verifier::external_body]
pub(crate) fn graph_new() -> (graph: GraphMap<usize, (), Undirected, RandomState>)
    ensures
        graph_nodes(graph) == Set::<usize>::empty(),
        graph_edges(graph) == Set::<(usize, usize)>::empty(),
{
    GraphMap::new()
}

/// Adds the node `n` to the graph.
///
/// Calls `petgraph::graphmap::GraphMap::add_node`, which enters the node
/// into the map of nodes where it is missing and touches no edge.
#[verifier::external_body]
pub(crate) fn graph_add_node(graph: &mut GraphMap<usize, (), Undirected, RandomState>, n: usize)
    ensures
        graph_nodes(*final(graph)) == graph_nodes(*old(graph)).insert(n),
        graph_edges(*final(graph)) == graph_edges(*old(graph)),
{
    graph.add_node(n);
}

/// Adds an edge between `a` and `b` to the graph, and with it the two
/// nodes.
///
/// Calls `petgraph::graphmap::GraphMap::add_edge`, which enters the edge
/// under the ordered pair of its ends and inserts the ends where they are
/// missing.
#[verifier::external_body]
pub(crate) fn graph_add_edge(
    graph: &mut GraphMap<usize, (), Undirected, RandomState>,
    a: usize,
    b: usize,
)
    ensures
        graph_nodes(*final(graph)) == graph_nodes(*old(graph)).insert(a).insert(b),
        graph_edges(*final(graph)) == graph_edges(*old(graph)).insert(edge_key(a, b)),
{
    graph.add_edge(a, b, ());
}

/// The nodes that share an edge with `a`, each of them once.
///
/// Calls `petgraph::graphmap::GraphMap::neighbors`, which for a graph
/// without directions walks the list of the edges at `a` and hands out the
/// other end of each. The graph holds no edge twice.
#[verifier::external_body]
pub(crate) fn graph_neighbors(graph: &GraphMap<usize, (), Undirected, RandomState>, a: usize) -> (r:
    Vec<usize>)
    ensures
        forall|b: usize| #[trigger] r@.contains(b) <==> graph_edges(*graph).contains(edge_key(a, b)),
        r@.no_duplicates(),
{
    graph.neighbors(a).collect()
}

/// Whether the graph holds an edge between `a` and `b`.
///
/// Calls `petgraph::graphmap::GraphMap::contains_edge`, which looks the
/// ordered pair of the two ends up among the edges.
#[verifier::external_body]
pub(crate) fn graph_contains_edge(
    graph: &GraphMap<usize, (), Undirected, RandomState>,
    a: usize,
    b: usize,
) -> (r: bool)
    ensures
        r == graph_edges(*graph).contains(edge_key(a, b)),
{
    graph.contains_edge(a, b)
}

/// How many connected components the graph has.
///
/// Calls `petgraph::algo::kosaraju_scc` and counts what it returns. The
/// crate documents that the strongly connected components of a graph
/// without directions are its connected components.
#[verifier::external_body]
pub(crate) fn graph_component_count(graph: &GraphMap<usize, (), Undirected, RandomState>) -> (r:
    usize)
    ensures
        r == component_count(graph_nodes(*graph), graph_edges(*graph)),
{
    kosaraju_scc(graph).len()
}

/// A spanning forest of the graph.
///
/// Calls `petgraph::algo::min_spanning_tree` on the graph, converted with
/// `GraphMap::into_graph`, and collects what it yields with
/// `FromElements::from_elements`. The crate documents that the result is a
/// spanning tree of each connected component, with all the nodes of the
/// graph; its source takes an edge only where the edge joins two trees
/// that were apart. So this claims that the nodes are the same, that every
/// edge is an edge of the graph, that the forest connects what the graph
/// connects, and that no edge of the forest can be left out: its two ends
/// are not connected by the other edges. The crate also documents the
/// number of the edges, that of the nodes less that of the connected
/// components of the graph; this claims that too. All edges weigh the same
/// here, so which of the spanning forests comes back is left open.
#[verifier::external_body]
pub(crate) fn graph_spanning_forest(graph: &GraphMap<usize, (), Undirected, RandomState>) -> (r:
    GraphMap<usize, (), Undirected, RandomState>)
    ensures
        graph_nodes(r) == graph_nodes(*graph),
        graph_edges(r).subset_of(graph_edges(*graph)),
        forall|a: usize, b: usize| #[trigger]
            connected(graph_edges(r), a, b) <==> connected(graph_edges(*graph), a, b),
        forall|e: (usize, usize)| #[trigger]
            graph_edges(r).contains(e) ==> !connected(graph_edges(r).remove(e), e.0, e.1),
        graph_nodes(r).finite(),
        graph_edges(r).finite(),
        graph_edges(r).len() + component_count(graph_nodes(*graph), graph_edges(*graph))
            == graph_nodes(r).len(),
{
    GraphMap::from_elements(min_spanning_tree(&graph.clone().into_graph::<usize>()))
}

} // verus!
