//! The layered layout engine: configuration, cached layers and the two phases.
use vstd::prelude::*;
use petgraph::graphmap::DiGraphMap;
use std::collections::HashMap;
use crate::crossings::{
    minimize_crossings, minimized, rows, same_membership, total_crossings, within_bounds, MAX_NODES,
};
use crate::geometry::{Point, Vec2};
use crate::graph::{clone_graph, graph_edges, graph_nodes, has_cycle, node_list, on_cycle};
use crate::layers::{
    assign_layers, edges_point_forward, edges_within, entries_distinct, in_layers,
    is_depth, is_partition_of, lemma_layer_len_bound, lemma_layering_excludes_cycles, sinks_at_depth,
    successor_in_next_layer,
};
use crate::positions::{
    assign_coordinates, is_positioning, layers_separated, placed, stack_top,
    MAX_POSITION_ITERATIONS,
};
use crate::sizes::NodeSizes;

verus! {

/// Reordering within layers keeps every node without a successor at its
/// depth.
proof fn lemma_reorder_keeps_sinks(
    a: Seq<Vec<u64>>,
    b: Seq<Vec<u64>>,
    es: Set<(u64, u64)>,
    depth: Map<u64, usize>,
)
    requires
        same_membership(b, a),
        sinks_at_depth(a, es, depth),
    ensures
        sinks_at_depth(b, es, depth),
{
    assert forall|k: int, i: int|
        in_layers(b, k, i) && !(exists|s: u64| es.contains((#[trigger] b[k]@[i], s))) implies k == depth[b[k]@[i]] by {
        let v = b[k]@[i];
        assert(b[k]@.contains(v));
        assert(a[k]@.contains(v));
        let i2 = choose|i2: int| 0 <= i2 < a[k]@.len() && a[k]@[i2] == v;
        assert(in_layers(a, k, i2));
        if exists|s: u64| es.contains((a[k]@[i2], s)) {
            let s = choose|s: u64| es.contains((a[k]@[i2], s));
            assert(es.contains((v, s)));
        }
    }
}

/// Why a layout could not be computed.
#[derive(Debug, Clone, Copy, PartialEq, Eq, Structural)]
pub enum LayeredLayoutError {
    /// The graph has a directed cycle through the given node.
    GraphHasCycle(u64),
}

/// Configuration of the layered (Sugiyama-style) layout.
#[derive(Debug, Clone, Copy, PartialEq, Eq, Structural)]
pub struct LayeredLayout {
    /// Horizontal (between columns) and vertical (between nodes) margins.
    pub margin: Vec2,
    /// Upper bound on the passes of crossing reduction.
    pub max_crossing_iterations: usize,
    /// Upper bound on the passes of vertical refinement.
    pub max_position_iterations: usize,
}

impl Default for LayeredLayout {
    fn default() -> (r: Self)
        ensures
            r.margin == (Vec2 { x: 20, y: 20 }),
            r.max_crossing_iterations == 10,
            r.max_position_iterations == 50,
    {
        LayeredLayout {
            margin: Vec2::new(20, 20),
            max_crossing_iterations: 10,
            max_position_iterations: 50,
        }
    }
}

/// The structural result of a layout, to be cached while the graph's
/// structure stays the same.
#[derive(Debug)]
pub struct Layers {
    /// A snapshot of the graph's edges, for the positioning phase.
    pub graph: DiGraphMap<u64, ()>,
    /// The nodes, layer by layer, each layer in its final order.
    pub nodes: Vec<Vec<u64>>,
    /// Number of edge crossings between adjacent layers.
    pub crossings: u128,
}

impl Layers {
    /// The edges of the graph the layers were computed from.
    pub open spec fn edges(&self) -> Set<(u64, u64)> {
        graph_edges(self.graph)
    }

    /// The nodes of the graph the layers were computed from.
    pub open spec fn node_set(&self) -> Set<u64> {
        graph_nodes(self.graph)
    }

    /// The layers split the node set, every edge points to a later layer,
    /// every node with a successor has one in the next layer, and
    /// `crossings` is the exact crossing count.
    pub open spec fn wf(&self) -> bool {
        &&& is_partition_of(self.nodes@, self.node_set())
        &&& edges_point_forward(self.nodes@, self.edges())
        &&& successor_in_next_layer(self.nodes@, self.edges())
        &&& edges_within(self.edges(), self.node_set())
        &&& within_bounds(self.nodes@)
        &&& self.crossings == total_crossings(self.edges(), rows(self.nodes@))
    }
}

impl LayeredLayout {
    /// A layout with the given margin and the default iteration bounds.
    pub fn new(margin: Vec2) -> (r: Self)
        ensures
            r.margin == margin,
            r.max_crossing_iterations == 10,
            r.max_position_iterations == 50,
    {
        LayeredLayout { margin, ..Default::default() }
    }

    /// What [`LayeredLayout::compute_layers`] returns for `graph`: an error
    /// exactly for a graph with a cycle, naming a node of it; otherwise valid
    /// layers of the graph, ordered by crossing reduction from a layering
    /// that places every node at its depth or just before its nearest
    /// successor.
    pub open spec fn layers_result(&self, graph: DiGraphMap<u64, ()>, r: Result<Layers, LayeredLayoutError>) -> bool {
        &&& (r is Ok <==> !has_cycle(graph_edges(graph)))
        &&& match r {
            Ok(l) => {
                &&& l.wf()
                &&& l.node_set() == graph_nodes(graph)
                &&& l.edges() == graph_edges(graph)
                &&& exists|depth: Map<u64, usize>|
                    #[trigger] is_depth(depth, graph_edges(graph), graph_nodes(graph))
                        && sinks_at_depth(l.nodes@, graph_edges(graph), depth)
                &&& exists|start: Seq<Vec<u64>>|
                    {
                        &&& #[trigger] is_partition_of(start, graph_nodes(graph))
                        &&& edges_point_forward(start, graph_edges(graph))
                        &&& successor_in_next_layer(start, graph_edges(graph))
                        &&& rows(l.nodes@) == minimized(
                            graph_edges(graph),
                            rows(start),
                            self.max_crossing_iterations as int,
                        )
                        &&& l.crossings <= total_crossings(graph_edges(graph), rows(start))
                    }
            },
            Err(LayeredLayoutError::GraphHasCycle(n)) => graph_nodes(graph).contains(n)
                && on_cycle(graph_edges(graph), n),
        }
    }

    /// The structural phase: assigns layers and reduces crossings. It
    /// depends on the graph's structure only, never on node sizes.
    ///
    /// Fails exactly when the graph has a directed cycle, naming a node of
    /// that cycle.
    pub fn compute_layers(&self, graph: &DiGraphMap<u64, ()>) -> (r: Result<Layers, LayeredLayoutError>)
        requires
            graph_nodes(*graph).len() <= MAX_NODES,
        ensures
            self.layers_result(*graph, r),
    {
        let ghost nodes = graph_nodes(*graph);
        let ghost es = graph_edges(*graph);
        let layers = match assign_layers(graph) {
            Ok(ls) => ls,
            Err(e) => {
                return Err(e);
            },
        };
        proof {
            assert forall|k: int| 0 <= k < layers@.len() implies (#[trigger] layers@[k])@.len() <= MAX_NODES by {
                lemma_layer_len_bound(layers@, nodes, k);
            }
        }
        let ghost start = layers@;
        let (ordered, crossings) = minimize_crossings(graph, layers, self.max_crossing_iterations);
        let snapshot = clone_graph(graph);
        let r = Layers { graph: snapshot, nodes: ordered, crossings };
        proof {
            assert(is_partition_of(r.nodes@, nodes));
            assert(edges_point_forward(r.nodes@, es));
            lemma_layering_excludes_cycles(r.nodes@, nodes, es);
            assert(is_partition_of(start, nodes));
            let depth = choose|depth: Map<u64, usize>|
                #[trigger] is_depth(depth, es, nodes) && sinks_at_depth(start, es, depth);
            lemma_reorder_keeps_sinks(start, r.nodes@, es, depth);
        }
        Ok(r)
    }

    /// [`LayeredLayout::compute_layers`] for a graph of any size: `None`
    /// when the graph has more than `MAX_NODES` nodes.
    pub fn try_compute_layers(&self, graph: &DiGraphMap<u64, ()>) -> (r: Option<Result<Layers, LayeredLayoutError>>)
        ensures
            r is None <==> graph_nodes(*graph).len() > MAX_NODES,
            match r {
                Some(res) => self.layers_result(*graph, res),
                None => true,
            },
    {
        let nodes = node_list(graph);
        proof {
            nodes@.unique_seq_to_set();
        }
        if nodes.len() > MAX_NODES {
            None
        } else {
            Some(self.compute_layers(graph))
        }
    }

    /// The geometric phase: positions for every node of `layers` under the
    /// current sizes. Each layer is a column; columns run left to right,
    /// each as wide as its widest node plus the horizontal margin, with every
    /// node centred in its column. Vertically, each layer is stacked from the
    /// top, then refined (see `vertical_layout`); within a column no two
    /// nodes come closer than the vertical margin, and the topmost node
    /// starts at y = 0. A node that `sizes` does not know counts as
    /// zero-sized.
    pub fn compute_positions<S: NodeSizes>(&self, layers: &Layers, sizes: &S) -> (r: HashMap<u64, Point>)
        requires
            within_bounds(layers.nodes@),
            entries_distinct(layers.nodes@),
            self.max_position_iterations <= MAX_POSITION_ITERATIONS,
        ensures
            is_positioning(
                r@,
                layers.nodes@,
                layers.edges(),
                sizes,
                self.margin,
                self.max_position_iterations as int,
            ),
            layers_separated(r@, layers.nodes@, sizes, self.margin.y as int),
            self.max_position_iterations == 0 ==> forall|k: int, i: int|
                in_layers(layers.nodes@, k, i) ==> (#[trigger] r@[layers.nodes@[k]@[i]]).y == stack_top(
                    sizes,
                    layers.nodes@[k]@,
                    self.margin.y as int,
                    i,
                ),
    {
        assign_coordinates(
            &layers.graph,
            &layers.nodes,
            sizes,
            self.margin,
            self.max_position_iterations,
        )
    }

    /// Both phases in sequence: fails exactly when the graph has a cycle;
    /// otherwise every node of the graph gets a position, laid out over some
    /// valid layering as [`LayeredLayout::compute_positions`] describes.
    pub fn layout<S: NodeSizes>(&self, graph: &DiGraphMap<u64, ()>, sizes: &S) -> (r: Result<
        HashMap<u64, Point>,
        LayeredLayoutError,
    >)
        requires
            graph_nodes(*graph).len() <= MAX_NODES,
            self.max_position_iterations <= MAX_POSITION_ITERATIONS,
        ensures
            r is Ok <==> !has_cycle(graph_edges(*graph)),
            match r {
                Ok(pos) => {
                    &&& forall|n: u64| #[trigger] pos@.contains_key(n) <==> graph_nodes(*graph).contains(n)
                    &&& exists|ls: Seq<Vec<u64>>|
                        {
                            &&& #[trigger] is_partition_of(ls, graph_nodes(*graph))
                            &&& edges_point_forward(ls, graph_edges(*graph))
                            &&& successor_in_next_layer(ls, graph_edges(*graph))
                            &&& layers_separated(pos@, ls, sizes, self.margin.y as int)
                            &&& is_positioning(
                                pos@,
                                ls,
                                graph_edges(*graph),
                                sizes,
                                self.margin,
                                self.max_position_iterations as int,
                            )
                        }
                },
                Err(LayeredLayoutError::GraphHasCycle(n)) => graph_nodes(*graph).contains(n)
                    && on_cycle(graph_edges(*graph), n),
            },
    {
        let layers = match self.compute_layers(graph) {
            Ok(l) => l,
            Err(e) => {
                return Err(e);
            },
        };
        let pos = self.compute_positions(&layers, sizes);
        proof {
            let ls = layers.nodes@;
            assert forall|n: u64| #[trigger] pos@.contains_key(n) <==> graph_nodes(*graph).contains(n) by {
                if graph_nodes(*graph).contains(n) {
                    let (k, i) = choose|k: int, i: int| in_layers(ls, k, i) && #[trigger] ls[k]@[i] == n;
                    assert(placed(ls, n));
                }
            }
            assert(is_partition_of(ls, graph_nodes(*graph)));
        }
        Ok(pos)
    }
}

} // verus!
