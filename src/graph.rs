//! The graph representation and what the layout relies on from petgraph.
use vstd::prelude::*;
use petgraph::graphmap::{DiGraphMap, GraphMap};

verus! {

/// petgraph's `GraphMap`, the graph the layout reads: opaque here, known
/// only through [`graph_nodes`], [`graph_edges`] and the functions below.
#[verifier::external_type_specification]
#[verifier::external_body]
#[verifier::reject_recursive_types(N)]
#[verifier::reject_recursive_types(E)]
#[verifier::reject_recursive_types(Ty)]
#[verifier::reject_recursive_types(S)]
pub struct ExGraphMap<N, E, Ty, S: std::hash::BuildHasher>(GraphMap<N, E, Ty, S>);

/// petgraph's marker for directed graphs, part of `DiGraphMap`'s type.
#[verifier::external_type_specification]
#[verifier::external_body]
pub struct ExDirected(petgraph::Directed);

/// The node set of a graph.
pub uninterp spec fn graph_nodes(g: DiGraphMap<u64, ()>) -> Set<u64>;

/// The directed edge set of a graph, as (source, target) pairs.
pub uninterp spec fn graph_edges(g: DiGraphMap<u64, ()>) -> Set<(u64, u64)>;

/// Which end of an edge a neighbor query looks from.
#[derive(Debug, Clone, Copy, PartialEq, Eq, Structural)]
pub enum EdgeDirection {
    Outgoing,
    Incoming,
}

/// Whether `p` is a walk of at least one edge in `es`.
pub open spec fn is_walk(es: Set<(u64, u64)>, p: Seq<u64>) -> bool {
    &&& p.len() >= 2
    &&& forall|i: int| 0 <= i < p.len() - 1 ==> #[trigger] es.contains((p[i], p[i + 1]))
}

/// Whether node `n` lies on a directed cycle of `es`.
pub open spec fn on_cycle(es: Set<(u64, u64)>, n: u64) -> bool {
    exists|p: Seq<u64>| #[trigger] is_walk(es, p) && p[0] == n && p.last() == n
}

/// Whether `es` has a directed cycle.
pub open spec fn has_cycle(es: Set<(u64, u64)>) -> bool {
    exists|n: u64| #[trigger] on_cycle(es, n)
}

/// Relies on `GraphMap::clone` (derived): the copy has the same nodes and edges.
#[verifier::external_body]
pub(crate) fn clone_graph(g: &DiGraphMap<u64, ()>) -> (r: DiGraphMap<u64, ()>)
    ensures
        graph_nodes(r) == graph_nodes(*g),
        graph_edges(r) == graph_edges(*g),
{
    g.clone()
}

/// Relies on `GraphMap::nodes`: every node of the graph, each once.
#[verifier::external_body]
pub(crate) fn node_list(g: &DiGraphMap<u64, ()>) -> (r: Vec<u64>)
    ensures
        r@.no_duplicates(),
        r@.to_set() == graph_nodes(*g),
{
    g.nodes().collect()
}

/// Relies on `GraphMap::neighbors_directed`: the other ends of the edges that
/// leave (`Outgoing`) or enter (`Incoming`) node `n`, each once.
#[verifier::external_body]
pub(crate) fn neighbors(g: &DiGraphMap<u64, ()>, n: u64, dir: EdgeDirection) -> (r: Vec<u64>)
    ensures
        r@.no_duplicates(),
        forall|v: u64|
            r@.contains(v) <==> match dir {
                EdgeDirection::Outgoing => graph_edges(*g).contains((n, v)),
                EdgeDirection::Incoming => graph_edges(*g).contains((v, n)),
            },
{
    let d = match dir {
        EdgeDirection::Outgoing => petgraph::Direction::Outgoing,
        EdgeDirection::Incoming => petgraph::Direction::Incoming,
    };
    g.neighbors_directed(n, d).collect()
}

/// Relies on `GraphMap::contains_edge`: whether the edge `a -> b` exists.
#[verifier::external_body]
pub(crate) fn contains_edge(g: &DiGraphMap<u64, ()>, a: u64, b: u64) -> (r: bool)
    ensures
        r == graph_edges(*g).contains((a, b)),
{
    g.contains_edge(a, b)
}

/// Relies on `petgraph::algo::toposort`: on success every node once, each
/// before its successors; on failure `Cycle::node_id`, a node of a cycle.
#[verifier::external_body]
pub(crate) fn topological_order(g: &DiGraphMap<u64, ()>) -> (r: Result<Vec<u64>, u64>)
    ensures
        match r {
            Ok(order) => {
                &&& order@.no_duplicates()
                &&& order@.to_set() == graph_nodes(*g)
                &&& forall|a: u64, b: u64|
                    #[trigger] graph_edges(*g).contains((a, b)) ==> order@.contains(a)
                        && order@.contains(b)
                &&& forall|i: int, j: int|
                    0 <= i < order.len() && 0 <= j < order.len() && #[trigger] graph_edges(
                        *g,
                    ).contains((order@[i], order@[j])) ==> i < j
            },
            Err(n) => graph_nodes(*g).contains(n) && on_cycle(graph_edges(*g), n),
        },
{
    petgraph::algo::toposort(g, None).map_err(|c| c.node_id())
}

} // verus!
