//! Layer assignment: every edge points from a lower to a higher layer.
use vstd::prelude::*;
use petgraph::graphmap::DiGraphMap;
use std::collections::HashMap;
use crate::graph::{
    graph_edges, graph_nodes, has_cycle, is_walk, neighbors, on_cycle, topological_order,
    EdgeDirection,
};
use crate::layered::LayeredLayoutError;

verus! {

broadcast use vstd::std_specs::hash::group_hash_axioms;

/// Whether `(k, i)` indexes an entry of the layers `ls`.
pub open spec fn in_layers(ls: Seq<Vec<u64>>, k: int, i: int) -> bool {
    0 <= k < ls.len() && 0 <= i < ls[k]@.len()
}

/// The layers hold every node of `nodes` exactly once, and nothing else.
pub open spec fn is_partition_of(ls: Seq<Vec<u64>>, nodes: Set<u64>) -> bool {
    &&& forall|k: int, i: int| in_layers(ls, k, i) ==> nodes.contains(#[trigger] ls[k]@[i])
    &&& forall|n: u64|
        #[trigger] nodes.contains(n) ==> exists|k: int, i: int|
            in_layers(ls, k, i) && #[trigger] ls[k]@[i] == n
    &&& entries_distinct(ls)
}

/// No node occurs twice in the layers.
pub open spec fn entries_distinct(ls: Seq<Vec<u64>>) -> bool {
    forall|k1: int, i1: int, k2: int, i2: int|
        in_layers(ls, k1, i1) && in_layers(ls, k2, i2) && #[trigger] ls[k1]@[i1]
            == #[trigger] ls[k2]@[i2] ==> k1 == k2 && i1 == i2
}

/// Every edge between two entries of the layers goes to a strictly later layer.
pub open spec fn edges_point_forward(ls: Seq<Vec<u64>>, es: Set<(u64, u64)>) -> bool {
    forall|k1: int, i1: int, k2: int, i2: int|
        in_layers(ls, k1, i1) && in_layers(ls, k2, i2) && #[trigger] es.contains(
            (ls[k1]@[i1], ls[k2]@[i2]),
        ) ==> k1 < k2
}

/// Every node with an outgoing edge has a successor in the very next layer:
/// its nearest successor lies directly after it.
pub open spec fn successor_in_next_layer(ls: Seq<Vec<u64>>, es: Set<(u64, u64)>) -> bool {
    forall|k: int, i: int, n: u64|
        in_layers(ls, k, i) && #[trigger] es.contains((ls[k]@[i], n)) ==> exists|i2: int|
            in_layers(ls, k + 1, i2) && #[trigger] es.contains((ls[k]@[i], ls[k + 1]@[i2]))
}

/// `depth` gives every node the length of the longest edge path that ends
/// at it: 0 without predecessors, else one more than its deepest
/// predecessor.
pub open spec fn is_depth(depth: Map<u64, usize>, es: Set<(u64, u64)>, nodes: Set<u64>) -> bool {
    &&& forall|v: u64| #[trigger] nodes.contains(v) ==> depth.contains_key(v)
    &&& forall|p: u64, v: u64| #[trigger] es.contains((p, v)) ==> depth[p] + 1 <= depth[v]
    &&& forall|v: u64|
        #[trigger] nodes.contains(v) && depth[v] > 0 ==> exists|p: u64|
            #[trigger] es.contains((p, v)) && depth[p] + 1 == depth[v]
}

/// Every node without a successor lies in the layer given by its depth.
pub open spec fn sinks_at_depth(ls: Seq<Vec<u64>>, es: Set<(u64, u64)>, depth: Map<u64, usize>) -> bool {
    forall|k: int, i: int|
        in_layers(ls, k, i) && !(exists|s: u64| es.contains((#[trigger] ls[k]@[i], s))) ==> k
            == depth[ls[k]@[i]]
}

/// A node with a successor sits one layer before one of its successors.
spec fn tight_at(es: Set<(u64, u64)>, m: Map<u64, usize>, v: u64) -> bool {
    (exists|s: u64| #[trigger] es.contains((v, s))) ==> exists|s: u64|
        #[trigger] es.contains((v, s)) && m[s] == m[v] + 1
}

/// Both ends of every edge are nodes.
pub open spec fn edges_within(es: Set<(u64, u64)>, nodes: Set<u64>) -> bool {
    forall|a: u64, b: u64| #[trigger] es.contains((a, b)) ==> nodes.contains(a) && nodes.contains(b)
}

/// Whether layer `k` of `ls` holds `n`.
pub open spec fn layer_holds(ls: Seq<Vec<u64>>, k: int, n: u64) -> bool {
    exists|i: int| in_layers(ls, k, i) && #[trigger] ls[k]@[i] == n
}

/// The index of the layer that holds `n`.
pub open spec fn layer_of(ls: Seq<Vec<u64>>, n: u64) -> int {
    choose|k: int| #[trigger] layer_holds(ls, k, n)
}

proof fn lemma_layer_of(ls: Seq<Vec<u64>>, nodes: Set<u64>, n: u64, k: int, i: int)
    requires
        is_partition_of(ls, nodes),
        in_layers(ls, k, i),
        ls[k]@[i] == n,
    ensures
        layer_of(ls, n) == k,
{
    assert(layer_holds(ls, k, n));
    let k2 = layer_of(ls, n);
    let i2 = choose|i2: int| in_layers(ls, k2, i2) && #[trigger] ls[k2]@[i2] == n;
    assert(ls[k]@[i] == ls[k2]@[i2]);
}

proof fn lemma_edge_rises(ls: Seq<Vec<u64>>, nodes: Set<u64>, es: Set<(u64, u64)>, a: u64, b: u64)
    requires
        is_partition_of(ls, nodes),
        edges_point_forward(ls, es),
        edges_within(es, nodes),
        es.contains((a, b)),
    ensures
        layer_of(ls, a) < layer_of(ls, b),
{
    assert(nodes.contains(a) && nodes.contains(b));
    let (k1, i1) = choose|k: int, i: int| in_layers(ls, k, i) && #[trigger] ls[k]@[i] == a;
    let (k2, i2) = choose|k: int, i: int| in_layers(ls, k, i) && #[trigger] ls[k]@[i] == b;
    lemma_layer_of(ls, nodes, a, k1, i1);
    lemma_layer_of(ls, nodes, b, k2, i2);
    assert(es.contains((ls[k1]@[i1], ls[k2]@[i2])));
}

proof fn lemma_walk_rises(
    ls: Seq<Vec<u64>>,
    nodes: Set<u64>,
    es: Set<(u64, u64)>,
    p: Seq<u64>,
    j: int,
)
    requires
        is_partition_of(ls, nodes),
        edges_point_forward(ls, es),
        edges_within(es, nodes),
        is_walk(es, p),
        1 <= j < p.len(),
    ensures
        layer_of(ls, p[0]) < layer_of(ls, p[j]),
    decreases j,
{
    assert(es.contains((p[j - 1], p[j - 1 + 1])));
    lemma_edge_rises(ls, nodes, es, p[j - 1], p[j]);
    if j > 1 {
        lemma_walk_rises(ls, nodes, es, p, j - 1);
    }
}

/// A graph whose nodes can be split into layers with every edge pointing to
/// a later layer has no directed cycle.
pub proof fn lemma_layering_excludes_cycles(
    ls: Seq<Vec<u64>>,
    nodes: Set<u64>,
    es: Set<(u64, u64)>,
)
    requires
        is_partition_of(ls, nodes),
        edges_point_forward(ls, es),
        edges_within(es, nodes),
    ensures
        !has_cycle(es),
{
    if has_cycle(es) {
        let n = choose|n: u64| #[trigger] on_cycle(es, n);
        let p = choose|p: Seq<u64>| #[trigger] is_walk(es, p) && p[0] == n && p.last() == n;
        lemma_walk_rises(ls, nodes, es, p, p.len() - 1);
    }
}

/// `order` lists every node once, each before its successors.
pub open spec fn is_topological(order: Seq<u64>, es: Set<(u64, u64)>, nodes: Set<u64>) -> bool {
    &&& order.no_duplicates()
    &&& order.to_set() == nodes
    &&& forall|a: u64, b: u64| #[trigger] es.contains((a, b)) ==> order.contains(a) && order.contains(b)
    &&& forall|x: int, y: int|
        0 <= x < order.len() && 0 <= y < order.len() && #[trigger] es.contains((order[x], order[y])) ==> x < y
}

/// Forward pass: in topological order, each node goes one layer after its
/// latest predecessor, or to layer 0 without predecessors.
fn forward_layers(g: &DiGraphMap<u64, ()>, order: &Vec<u64>) -> (layer_map: HashMap<u64, usize>)
    requires
        is_topological(order@, graph_edges(*g), graph_nodes(*g)),
    ensures
        forall|v: u64| #[trigger] layer_map@.contains_key(v) <==> exists|j: int| 0 <= j < order.len() && order@[j] == v,
        forall|j: int| 0 <= j < order.len() ==> #[trigger] layer_map@.contains_key(order@[j]) && layer_map@[order@[j]] <= j,
        forall|a: u64, b: u64| #[trigger] graph_edges(*g).contains((a, b)) ==> layer_map@[a] < layer_map@[b],
        is_depth(layer_map@, graph_edges(*g), graph_nodes(*g)),
{
    let ghost es = graph_edges(*g);
    let n = order.len();
    let mut layer_map: HashMap<u64, usize> = HashMap::new();

    // Forward pass: one layer after the latest predecessor.
    let mut i: usize = 0;
    while i < n
        invariant
            0 <= i <= n,
            n == order.len(),
            es == graph_edges(*g),
            order@.no_duplicates(),
            forall|a: u64, b: u64| #[trigger] es.contains((a, b)) ==> order@.contains(a) && order@.contains(b),
            forall|x: int, y: int|
                0 <= x < n && 0 <= y < n && #[trigger] es.contains((order@[x], order@[y])) ==> x < y,
            forall|v: u64| #[trigger] layer_map@.contains_key(v) <==> exists|j: int| 0 <= j < i && order@[j] == v,
            forall|j: int| 0 <= j < i ==> #[trigger] layer_map@.contains_key(order@[j]) && layer_map@[order@[j]] <= j,
            forall|a: u64, b: u64|
                #[trigger] es.contains((a, b)) && layer_map@.contains_key(a) && layer_map@.contains_key(b)
                    ==> layer_map@[a] < layer_map@[b],
            forall|w: u64|
                #[trigger] layer_map@.contains_key(w) && layer_map@[w] > 0 ==> exists|p: u64|
                    #[trigger] es.contains((p, w)) && layer_map@.contains_key(p) && layer_map@[p] + 1 == layer_map@[w],
        decreases n - i,
    {
        let v = order[i];
        let preds = neighbors(g, v, EdgeDirection::Incoming);
        let mut m: usize = 0;
        let mut t: usize = 0;
        while t < preds.len()
            invariant
                0 <= t <= preds.len(),
                0 <= i < n,
                n == order.len(),
                v == order@[i as int],
                es == graph_edges(*g),
                forall|a: u64, b: u64| #[trigger] es.contains((a, b)) ==> order@.contains(a) && order@.contains(b),
                forall|x: int, y: int|
                    0 <= x < n && 0 <= y < n && #[trigger] es.contains((order@[x], order@[y])) ==> x < y,
                forall|u: u64| #[trigger] preds@.contains(u) <==> es.contains((u, v)),
                forall|w: u64| #[trigger] layer_map@.contains_key(w) <==> exists|j: int| 0 <= j < i && order@[j] == w,
                forall|j: int| 0 <= j < i ==> #[trigger] layer_map@.contains_key(order@[j]) && layer_map@[order@[j]] <= j,
                m <= i,
                forall|s: int| 0 <= s < t ==> layer_map@[#[trigger] preds@[s]] < m,
                m > 0 ==> exists|s: int| 0 <= s < t && layer_map@[preds@[s]] + 1 == m,
            decreases preds.len() - t,
        {
            let p = preds[t];
            assert(preds@.contains(p));
            assert(es.contains((p, v)));
            assert(order@.contains(p));
            let ghost jp = choose|jp: int| 0 <= jp < n && order@[jp] == p;
            assert(es.contains((order@[jp], order@[i as int])));
            assert(layer_map@.contains_key(order@[jp]));
            let lp = match layer_map.get(&p) {
                Some(x) => *x,
                None => 0,
            };
            if lp + 1 > m {
                m = lp + 1;
            }
            t += 1;
        }
        proof {
            assert forall|w: u64| layer_map@.contains_key(w) implies w != v by {
                let j = choose|j: int| 0 <= j < i && order@[j] == w;
                assert(order@[j] != order@[i as int]);
            }
            assert forall|a: u64| #[trigger] es.contains((a, v)) && layer_map@.contains_key(a) implies layer_map@[a] < m by {
                assert(preds@.contains(a));
                let s = choose|s: int| 0 <= s < preds.len() && preds@[s] == a;
            }
            assert forall|b: u64| #[trigger] es.contains((v, b)) implies !layer_map@.contains_key(b) by {
                if layer_map@.contains_key(b) {
                    let j = choose|j: int| 0 <= j < i && order@[j] == b;
                    assert(es.contains((order@[i as int], order@[j])));
                }
            }
            assert(!es.contains((v, v))) by {
                assert(!es.contains((order@[i as int], order@[i as int])));
            }
            if m > 0 {
                let s = choose|s: int| 0 <= s < preds.len() && layer_map@[preds@[s]] + 1 == m;
                assert(preds@.contains(preds@[s]));
                assert(es.contains((preds@[s], v)));
            }
        }
        let ghost before_insert = layer_map@;
        layer_map.insert(v, m);
        proof {
            assert forall|w: u64|
                #[trigger] layer_map@.contains_key(w) && layer_map@[w] > 0 implies exists|p: u64|
                    #[trigger] es.contains((p, w)) && layer_map@.contains_key(p) && layer_map@[p] + 1 == layer_map@[w] by {
                if w == v {
                    let s = choose|s: int| 0 <= s < preds.len() && before_insert[preds@[s]] + 1 == m;
                    let p = preds@[s];
                    assert(preds@.contains(p));
                    assert(es.contains((p, v)));
                    let jp = choose|jp: int| 0 <= jp < n && order@[jp] == p;
                    assert(es.contains((order@[jp], order@[i as int])));
                    assert(before_insert.contains_key(p));
                    assert(p != v);
                } else {
                    let p = choose|p: u64| #[trigger] es.contains((p, w)) && before_insert.contains_key(p) && before_insert[p] + 1 == before_insert[w];
                    assert(p != v);
                }
            }
        }
        i += 1;
    }

    proof {
        assert forall|v: u64| #[trigger] graph_nodes(*g).contains(v) implies layer_map@.contains_key(v) by {
            assert(order@.to_set().contains(v));
            let x = choose|x: int| 0 <= x < n && order@[x] == v;
        }
        assert forall|a: u64, b: u64| #[trigger] es.contains((a, b)) implies layer_map@[a] < layer_map@[b] by {
            let x = choose|x: int| 0 <= x < n && order@[x] == a;
            let y = choose|y: int| 0 <= y < n && order@[y] == b;
        }
    }
    layer_map
}

/// Backward pass: in reverse topological order, each node with successors
/// moves up to the layer just before its earliest successor.
fn pull_towards_successors(g: &DiGraphMap<u64, ()>, order: &Vec<u64>, layer_map: &mut HashMap<u64, usize>)
    requires
        is_topological(order@, graph_edges(*g), graph_nodes(*g)),
        forall|v: u64| #[trigger] old(layer_map)@.contains_key(v) <==> exists|j: int| 0 <= j < order.len() && order@[j] == v,
        forall|v: u64| #[trigger] old(layer_map)@.contains_key(v) ==> old(layer_map)@[v] < order.len(),
        forall|a: u64, b: u64| #[trigger] graph_edges(*g).contains((a, b)) ==> old(layer_map)@[a] < old(layer_map)@[b],
    ensures
        forall|v: u64| #[trigger] final(layer_map)@.contains_key(v) <==> exists|j: int| 0 <= j < order.len() && order@[j] == v,
        forall|v: u64| #[trigger] final(layer_map)@.contains_key(v) ==> final(layer_map)@[v] < order.len(),
        forall|a: u64, b: u64| #[trigger] graph_edges(*g).contains((a, b)) ==> final(layer_map)@[a] < final(layer_map)@[b],
        forall|j: int| 0 <= j < order.len() ==> #[trigger] tight_at(graph_edges(*g), final(layer_map)@, order@[j]),
        forall|w: u64|
            #[trigger] final(layer_map)@.contains_key(w) && !(exists|s: u64| graph_edges(*g).contains((w, s)))
                ==> final(layer_map)@[w] == old(layer_map)@[w],
{
    let ghost es = graph_edges(*g);
    let ghost start = layer_map@;
    let n = order.len();
    // Backward pass: pull each node up to just before its earliest successor.
    let mut idx: usize = n;
    while idx > 0
        invariant
            0 <= idx <= n,
            n == order.len(),
            es == graph_edges(*g),
            forall|a: u64, b: u64| #[trigger] es.contains((a, b)) ==> order@.contains(a) && order@.contains(b),
            forall|v: u64| #[trigger] layer_map@.contains_key(v) <==> exists|j: int| 0 <= j < n && order@[j] == v,
            forall|v: u64| #[trigger] layer_map@.contains_key(v) ==> layer_map@[v] < n,
            forall|a: u64, b: u64|
                #[trigger] es.contains((a, b)) ==> layer_map@[a] < layer_map@[b],
            order@.no_duplicates(),
            forall|x: int, y: int|
                0 <= x < n && 0 <= y < n && #[trigger] es.contains((order@[x], order@[y])) ==> x < y,
            forall|j: int| idx <= j < n ==> #[trigger] tight_at(es, layer_map@, order@[j]),
            forall|w: u64|
                #[trigger] layer_map@.contains_key(w) && !(exists|s: u64| es.contains((w, s))) ==> layer_map@[w]
                    == start[w],
        decreases idx,
    {
        idx -= 1;
        let v = order[idx];
        assert(layer_map@.contains_key(v));
        let layer = match layer_map.get(&v) {
            Some(x) => *x,
            None => 0,
        };
        let succs = neighbors(g, v, EdgeDirection::Outgoing);
        let ghost old_map = layer_map@;
        proof {
            assert forall|j: int| idx < j < n implies #[trigger] tight_at(es, old_map, order@[j]) by {
                assert(tight_at(es, layer_map@, order@[j]));
            }
        }
        let mut found = false;
        let mut min_succ: usize = 0;
        let mut t: usize = 0;
        while t < succs.len()
            invariant
                0 <= t <= succs.len(),
                n == order.len(),
                es == graph_edges(*g),
                forall|a: u64, b: u64| #[trigger] es.contains((a, b)) ==> order@.contains(a) && order@.contains(b),
                forall|w: u64| #[trigger] layer_map@.contains_key(w) <==> exists|j: int| 0 <= j < n && order@[j] == w,
                forall|w: u64| #[trigger] layer_map@.contains_key(w) ==> layer_map@[w] < n,
                forall|u: u64| #[trigger] succs@.contains(u) <==> es.contains((v, u)),
                found <==> t > 0,
                found ==> min_succ < n,
                found ==> exists|s: int| 0 <= s < t && layer_map@[succs@[s]] == min_succ,
                forall|s: int| 0 <= s < t ==> min_succ <= layer_map@[#[trigger] succs@[s]],
            decreases succs.len() - t,
        {
            let s = succs[t];
            assert(succs@.contains(s));
            assert(order@.contains(s));
            let ghost js = choose|js: int| 0 <= js < n && order@[js] == s;
            assert(layer_map@.contains_key(s));
            let ls = match layer_map.get(&s) {
                Some(x) => *x,
                None => 0,
            };
            if !found || ls < min_succ {
                min_succ = ls;
            }
            found = true;
            t += 1;
        }
        if found && min_succ > layer + 1 {
            proof {
                let s0 = succs@[0];
                assert(succs@.contains(s0));
                assert(es.contains((v, s0)));
                assert forall|b: u64| #[trigger] es.contains((v, b)) implies min_succ <= layer_map@[b] by {
                    assert(succs@.contains(b));
                    let s = choose|s: int| 0 <= s < succs.len() && succs@[s] == b;
                }
            }
            layer_map.insert(v, min_succ - 1);
        }
        proof {
            assert(tight_at(es, layer_map@, v)) by {
                if exists|s: u64| #[trigger] es.contains((v, s)) {
                    let s0 = choose|s: u64| #[trigger] es.contains((v, s));
                    assert(succs@.contains(s0));
                    assert(found);
                    let w = choose|w: int| 0 <= w < t && layer_map@[succs@[w]] == min_succ;
                    let sw = succs@[w];
                    assert(succs@.contains(sw));
                    assert(es.contains((v, sw)));
                }
            }
            assert forall|j: int| idx <= j < n implies #[trigger] tight_at(es, layer_map@, order@[j]) by {
                if j > idx {
                    let vj = order@[j];
                    assert(vj != v);
                    if exists|s: u64| #[trigger] es.contains((vj, s)) {
                        assert(tight_at(es, old_map, order@[j]));
                        let sj = choose|s: u64| #[trigger] es.contains((vj, s)) && old_map[s] == old_map[vj] + 1;
                        assert(order@.contains(sj));
                        let y = choose|y: int| 0 <= y < n && order@[y] == sj;
                        assert(es.contains((order@[j], order@[y])));
                        assert(sj != v);
                        assert(es.contains((vj, sj)) && layer_map@[sj] == layer_map@[vj] + 1);
                    }
                }
            }
        }
    }

}

/// Assigns every node to a layer so that each edge points to a later layer.
///
/// Nodes are first placed one layer after their latest predecessor (in
/// topological order), then, in reverse topological order, moved up to just
/// before their earliest successor. Within a layer, nodes keep topological
/// order. A graph with a cycle is refused with a node of that cycle.
pub fn assign_layers(g: &DiGraphMap<u64, ()>) -> (r: Result<Vec<Vec<u64>>, LayeredLayoutError>)
    ensures
        match r {
            Ok(ls) => {
                &&& ls.len() >= 1
                &&& graph_nodes(*g).finite()
                &&& (ls.len() <= graph_nodes(*g).len() || ls.len() == 1)
                &&& is_partition_of(ls@, graph_nodes(*g))
                &&& edges_point_forward(ls@, graph_edges(*g))
                &&& successor_in_next_layer(ls@, graph_edges(*g))
                &&& exists|depth: Map<u64, usize>|
                    #[trigger] is_depth(depth, graph_edges(*g), graph_nodes(*g)) && sinks_at_depth(
                        ls@,
                        graph_edges(*g),
                        depth,
                    )
                &&& edges_within(graph_edges(*g), graph_nodes(*g))
            },
            Err(LayeredLayoutError::GraphHasCycle(n)) => graph_nodes(*g).contains(n) && on_cycle(
                graph_edges(*g),
                n,
            ),
        },
{
    let order = match topological_order(g) {
        Ok(o) => o,
        Err(n) => {
            return Err(LayeredLayoutError::GraphHasCycle(n));
        },
    };
    let ghost es = graph_edges(*g);
    let n = order.len();
    proof {
        assert(order@.to_set() == graph_nodes(*g));
    }
    let mut layer_map = forward_layers(g, &order);
    let ghost depth = layer_map@;
    pull_towards_successors(g, &order, &mut layer_map);

    // Group the nodes by layer, in topological order.
    let mut max_layer: usize = 0;
    let mut j: usize = 0;
    while j < n
        invariant
            0 <= j <= n,
            n == order.len(),
            forall|v: u64| #[trigger] layer_map@.contains_key(v) <==> exists|x: int| 0 <= x < n && order@[x] == v,
            forall|v: u64| #[trigger] layer_map@.contains_key(v) ==> layer_map@[v] < n,
            (n == 0 && max_layer == 0) || max_layer < n,
            forall|x: int| 0 <= x < j ==> layer_map@[#[trigger] order@[x]] <= max_layer,
            forall|x: int| 0 <= x < n ==> #[trigger] tight_at(es, layer_map@, order@[x]),
            forall|w: u64|
                #[trigger] layer_map@.contains_key(w) && !(exists|s: u64| es.contains((w, s))) ==> layer_map@[w]
                    == depth[w],
        decreases n - j,
    {
        let v = order[j];
        assert(layer_map@.contains_key(v));
        let l = match layer_map.get(&v) {
            Some(x) => *x,
            None => 0,
        };
        if l > max_layer {
            max_layer = l;
        }
        j += 1;
    }
    proof {
        assert forall|v: u64| #[trigger] layer_map@.contains_key(v) implies layer_map@[v] <= max_layer by {
            let x = choose|x: int| 0 <= x < n && order@[x] == v;
        }
    }
    let ghost top = max_layer;
    let mut layers: Vec<Vec<u64>> = Vec::new();
    while layers.len() <= max_layer
        invariant
            layers.len() <= max_layer + 1,
            forall|k: int| 0 <= k < layers.len() ==> (#[trigger] layers@[k])@.len() == 0,
        decreases max_layer + 1 - layers.len(),
    {
        layers.push(Vec::new());
    }
    let mut j: usize = 0;
    while j < n
        invariant
            0 <= j <= n,
            n == order.len(),
            order@.no_duplicates(),
            layers.len() == max_layer + 1,
            max_layer == top,
            (n == 0 && max_layer == 0) || max_layer < n,
            forall|x: int| 0 <= x < n ==> #[trigger] tight_at(es, layer_map@, order@[x]),
            forall|w: u64|
                #[trigger] layer_map@.contains_key(w) && !(exists|s: u64| es.contains((w, s))) ==> layer_map@[w]
                    == depth[w],
            forall|v: u64| #[trigger] layer_map@.contains_key(v) <==> exists|x: int| 0 <= x < n && order@[x] == v,
            forall|v: u64| #[trigger] layer_map@.contains_key(v) ==> layer_map@[v] <= max_layer,
            forall|k: int, i: int|
                #![trigger layers@[k]@[i]]
                in_layers(layers@, k, i) ==> layer_map@.contains_key(layers@[k]@[i])
                    && layer_map@[layers@[k]@[i]] == k
                    && exists|x: int| 0 <= x < j && order@[x] == layers@[k]@[i],
            forall|x: int|
                #![trigger order@[x]]
                0 <= x < j ==> exists|k: int, i: int|
                    in_layers(layers@, k, i) && #[trigger] layers@[k]@[i] == order@[x],
            forall|k1: int, i1: int, k2: int, i2: int|
                in_layers(layers@, k1, i1) && in_layers(layers@, k2, i2) && #[trigger] layers@[k1]@[i1]
                    == #[trigger] layers@[k2]@[i2] ==> k1 == k2 && i1 == i2,
        decreases n - j,
    {
        let v = order[j];
        assert(layer_map@.contains_key(v));
        let l = match layer_map.get(&v) {
            Some(x) => *x,
            None => 0,
        };
        proof {
            assert forall|k: int, i: int| in_layers(layers@, k, i) implies #[trigger] layers@[k]@[i] != v by {
                let x = choose|x: int| 0 <= x < j && order@[x] == layers@[k]@[i];
                assert(order@[x] != order@[j as int]);
            }
        }
        let ghost old_layers = layers@;
        layers[l].push(v);
        proof {
            assert forall|k: int, i: int| #![trigger layers@[k]@[i]] in_layers(layers@, k, i) && !(k == l && i == old_layers[k]@.len()) implies in_layers(old_layers, k, i) && layers@[k]@[i] == old_layers[k]@[i] by {
            }
            assert forall|x: int| #![trigger order@[x]] 0 <= x < j + 1 implies exists|k: int, i: int|
                    in_layers(layers@, k, i) && #[trigger] layers@[k]@[i] == order@[x] by {
                if x < j {
                    let (k, i) = choose|k: int, i: int| in_layers(old_layers, k, i) && #[trigger] old_layers[k]@[i] == order@[x];
                    assert(layers@[k]@[i] == order@[x]);
                } else {
                    assert(layers@[l as int]@[old_layers[l as int]@.len() as int] == order@[x]);
                }
            }
        }
        j += 1;
    }
    proof {
        let ls = layers@;
        let nodes = graph_nodes(*g);
        assert forall|k: int, i: int| in_layers(ls, k, i) implies nodes.contains(#[trigger] ls[k]@[i]) by {
            let x = choose|x: int| 0 <= x < j && order@[x] == ls[k]@[i];
            assert(order@.contains(ls[k]@[i]));
        }
        assert forall|v: u64| #[trigger] nodes.contains(v) implies exists|k: int, i: int|
            in_layers(ls, k, i) && #[trigger] ls[k]@[i] == v by {
            assert(order@.to_set().contains(v));
            let x = choose|x: int| 0 <= x < n && order@[x] == v;
        }
        assert forall|k1: int, i1: int, k2: int, i2: int|
            in_layers(ls, k1, i1) && in_layers(ls, k2, i2) && #[trigger] es.contains((ls[k1]@[i1], ls[k2]@[i2])) implies k1 < k2 by {
        }
        assert forall|a: u64, b: u64| #[trigger] es.contains((a, b)) implies nodes.contains(a) && nodes.contains(b) by {
            assert(order@.to_set().contains(a));
            assert(order@.to_set().contains(b));
        }
        order@.unique_seq_to_set();
        assert forall|k: int, i: int|
            in_layers(ls, k, i) && !(exists|s: u64| es.contains((#[trigger] ls[k]@[i], s))) implies k
                == depth[ls[k]@[i]] by {
        }
        assert(sinks_at_depth(ls, es, depth));
        assert forall|k: int, i: int, m: u64|
            in_layers(ls, k, i) && #[trigger] es.contains((ls[k]@[i], m)) implies exists|i2: int|
                in_layers(ls, k + 1, i2) && #[trigger] es.contains((ls[k]@[i], ls[k + 1]@[i2])) by {
            let v = ls[k]@[i];
            let x = choose|x: int| 0 <= x < j && order@[x] == v;
            assert(tight_at(es, layer_map@, order@[x]));
            let s = choose|s: u64| #[trigger] es.contains((v, s)) && layer_map@[s] == layer_map@[v] + 1;
            assert(order@.contains(s));
            let y = choose|y: int| 0 <= y < n && order@[y] == s;
            let (k2, i2) = choose|k2: int, i2: int| in_layers(layers@, k2, i2) && #[trigger] layers@[k2]@[i2] == order@[y];
            assert(layer_map@[layers@[k2]@[i2]] == k2);
            assert(k2 == k + 1);
            assert(es.contains((ls[k]@[i], ls[k + 1]@[i2])));
        }
    }
    Ok(layers)
}

/// A layer holds no more entries than there are nodes.
pub proof fn lemma_layer_len_bound(ls: Seq<Vec<u64>>, nodes: Set<u64>, k: int)
    requires
        is_partition_of(ls, nodes),
        nodes.finite(),
        0 <= k < ls.len(),
    ensures
        ls[k]@.len() <= nodes.len(),
{
    let row = ls[k]@;
    assert forall|a: int, b: int| 0 <= a < row.len() && 0 <= b < row.len() && a != b implies row[a] != row[b] by {
        assert(in_layers(ls, k, a) && in_layers(ls, k, b));
        assert(ls[k]@[a] != ls[k]@[b]);
    }
    assert(row.no_duplicates());
    row.unique_seq_to_set();
    assert forall|n: u64| row.to_set().contains(n) implies nodes.contains(n) by {
        let i = choose|i: int| 0 <= i < row.len() && row[i] == n;
        assert(in_layers(ls, k, i));
    }
    vstd::set_lib::lemma_len_subset(row.to_set(), nodes);
}

} // verus!
