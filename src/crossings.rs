//! Edge crossings between adjacent layers, and their reduction by swapping
//! neighbouring nodes within a layer.
use vstd::prelude::*;
use petgraph::graphmap::DiGraphMap;
use crate::graph::{contains_edge, graph_edges};
use crate::layers::{edges_point_forward, in_layers, is_partition_of, successor_in_next_layer};

verus! {

/// The largest number of nodes the layout accepts; it keeps every crossing
/// count within 128 bits.
pub const MAX_NODES: usize = 65536;

/// Number of the first `p` entries of `lower` that `b` has an edge to.
pub open spec fn targets_before(es: Set<(u64, u64)>, b: u64, lower: Seq<u64>, p: int) -> int
    decreases p,
{
    if p <= 0 {
        0
    } else {
        targets_before(es, b, lower, p - 1) + if es.contains((b, lower[p - 1])) {
            1int
        } else {
            0int
        }
    }
}

/// Crossings between the edges of `a` and the edges of `b` (with `a` placed
/// before `b`) into the first `p` entries of `lower`: pairs of targets where
/// `a`'s lies strictly after `b`'s.
pub open spec fn pair_crossings(es: Set<(u64, u64)>, a: u64, b: u64, lower: Seq<u64>, p: int) -> int
    decreases p,
{
    if p <= 0 {
        0
    } else {
        pair_crossings(es, a, b, lower, p - 1) + if es.contains((a, lower[p - 1])) {
            targets_before(es, b, lower, p - 1)
        } else {
            0int
        }
    }
}

/// Crossings between `upper[j]` and the first `i` nodes of `upper`.
pub open spec fn crossings_with_earlier(
    es: Set<(u64, u64)>,
    upper: Seq<u64>,
    lower: Seq<u64>,
    j: int,
    i: int,
) -> int
    decreases i,
{
    if i <= 0 {
        0
    } else {
        crossings_with_earlier(es, upper, lower, j, i - 1) + pair_crossings(
            es,
            upper[i - 1],
            upper[j],
            lower,
            lower.len() as int,
        )
    }
}

/// Crossings among the edges that leave the first `m` nodes of `upper` into `lower`.
pub open spec fn layer_pair_crossings(
    es: Set<(u64, u64)>,
    upper: Seq<u64>,
    lower: Seq<u64>,
    m: int,
) -> int
    decreases m,
{
    if m <= 0 {
        0
    } else {
        layer_pair_crossings(es, upper, lower, m - 1) + crossings_with_earlier(
            es,
            upper,
            lower,
            m - 1,
            m - 1,
        )
    }
}

/// The element sequences of a sequence of vectors: for layers, their node
/// sequences.
pub open spec fn rows<T>(ls: Seq<Vec<T>>) -> Seq<Seq<T>> {
    ls.map_values(|v: Vec<T>| v@)
}

/// Crossings between layers `s` and `s + 1`, summed over `s < t`.
pub open spec fn crossings_upto(es: Set<(u64, u64)>, rs: Seq<Seq<u64>>, t: int) -> int
    decreases t,
{
    if t <= 0 {
        0
    } else {
        crossings_upto(es, rs, t - 1) + layer_pair_crossings(
            es,
            rs[t - 1],
            rs[t],
            rs[t - 1].len() as int,
        )
    }
}

/// Total number of edge crossings between every pair of adjacent layers: the
/// number of pairs of edges `u1 -> v1`, `u2 -> v2` from one layer into the
/// next with `u1` placed before `u2` and `v1` placed after `v2`.
pub open spec fn total_crossings(es: Set<(u64, u64)>, rs: Seq<Seq<u64>>) -> int {
    if rs.len() == 0 {
        0
    } else {
        crossings_upto(es, rs, rs.len() - 1)
    }
}

/// `rs` with entries `i` and `i + 1` of layer `k` exchanged.
pub open spec fn swap_at(rs: Seq<Seq<u64>>, k: int, i: int) -> Seq<Seq<u64>> {
    rs.update(k, rs[k].update(i, rs[k][i + 1]).update(i + 1, rs[k][i]))
}

/// Whether crossing reduction keeps the exchange of entries `i` and `i + 1`
/// of layer `k`: it lowers the crossing count, or leaves it equal without
/// putting the larger node first.
pub open spec fn keeps_swap(es: Set<(u64, u64)>, rs: Seq<Seq<u64>>, k: int, i: int) -> bool {
    let sw = swap_at(rs, k, i);
    total_crossings(es, sw) < total_crossings(es, rs) || (total_crossings(es, sw)
        == total_crossings(es, rs) && sw[k][i] <= sw[k][i + 1])
}

/// The exchanges tried at slots `0 .. i` of layer `k`, in order: the
/// resulting layers, and whether any exchange was kept.
pub open spec fn pass_over_layer(es: Set<(u64, u64)>, rs: Seq<Seq<u64>>, k: int, i: int) -> (
    Seq<Seq<u64>>,
    bool,
)
    decreases i,
{
    if i <= 0 {
        (rs, false)
    } else {
        let prev = pass_over_layer(es, rs, k, i - 1);
        if keeps_swap(es, prev.0, k, i - 1) {
            (swap_at(prev.0, k, i - 1), true)
        } else {
            prev
        }
    }
}

/// One pass over layers `0 .. k`.
pub open spec fn pass_upto(es: Set<(u64, u64)>, rs: Seq<Seq<u64>>, k: int) -> (Seq<Seq<u64>>, bool)
    decreases k,
{
    if k <= 0 {
        (rs, false)
    } else {
        let prev = pass_upto(es, rs, k - 1);
        let this = pass_over_layer(es, prev.0, k - 1, prev.0[k - 1].len() - 1);
        (this.0, prev.1 || this.1)
    }
}

/// One full pass of crossing reduction over every layer.
pub open spec fn crossing_pass_result(es: Set<(u64, u64)>, rs: Seq<Seq<u64>>) -> (Seq<Seq<u64>>, bool) {
    pass_upto(es, rs, rs.len() as int)
}

/// Up to `n` passes, stopping after one that keeps no exchange.
pub open spec fn minimized(es: Set<(u64, u64)>, rs: Seq<Seq<u64>>, n: int) -> Seq<Seq<u64>>
    decreases n,
{
    if n <= 0 {
        rs
    } else {
        let p = crossing_pass_result(es, rs);
        if p.1 {
            minimized(es, p.0, n - 1)
        } else {
            p.0
        }
    }
}

proof fn lemma_pass_over_layer_never_increases(es: Set<(u64, u64)>, rs: Seq<Seq<u64>>, k: int, i: int)
    ensures
        total_crossings(es, pass_over_layer(es, rs, k, i).0) <= total_crossings(es, rs),
    decreases i,
{
    if i > 0 {
        lemma_pass_over_layer_never_increases(es, rs, k, i - 1);
    }
}

proof fn lemma_pass_upto_never_increases(es: Set<(u64, u64)>, rs: Seq<Seq<u64>>, k: int)
    ensures
        total_crossings(es, pass_upto(es, rs, k).0) <= total_crossings(es, rs),
    decreases k,
{
    if k > 0 {
        lemma_pass_upto_never_increases(es, rs, k - 1);
        let prev = pass_upto(es, rs, k - 1);
        lemma_pass_over_layer_never_increases(es, prev.0, k - 1, prev.0[k - 1].len() - 1);
    }
}

/// A pass of crossing reduction never increases the crossing count.
pub proof fn lemma_pass_never_increases(es: Set<(u64, u64)>, rs: Seq<Seq<u64>>)
    ensures
        total_crossings(es, crossing_pass_result(es, rs).0) <= total_crossings(es, rs),
{
    lemma_pass_upto_never_increases(es, rs, rs.len() as int);
}

/// Across repeated passes the crossing count never increases: after `n + 1`
/// passes it is at most what it was after `n`, and never above the start.
pub proof fn lemma_minimized_never_increases(es: Set<(u64, u64)>, rs: Seq<Seq<u64>>, n: int)
    requires
        0 <= n,
    ensures
        total_crossings(es, minimized(es, rs, n + 1)) <= total_crossings(es, minimized(es, rs, n)),
        total_crossings(es, minimized(es, rs, n)) <= total_crossings(es, rs),
    decreases n,
{
    let p = crossing_pass_result(es, rs);
    lemma_pass_never_increases(es, rs);
    if n > 0 {
        if p.1 {
            lemma_minimized_never_increases(es, p.0, n - 1);
        }
    } else {
        if p.1 {
            assert(minimized(es, p.0, 0) == p.0);
        }
    }
}

/// No layer and no number of layers exceeds `MAX_NODES`.
pub open spec fn within_bounds(ls: Seq<Vec<u64>>) -> bool {
    &&& ls.len() <= MAX_NODES
    &&& forall|k: int| 0 <= k < ls.len() ==> (#[trigger] ls[k])@.len() <= MAX_NODES
}

proof fn lemma_targets_before_bound(es: Set<(u64, u64)>, b: u64, lower: Seq<u64>, p: int)
    requires
        0 <= p,
    ensures
        0 <= targets_before(es, b, lower, p) <= p,
    decreases p,
{
    if p > 0 {
        lemma_targets_before_bound(es, b, lower, p - 1);
    }
}

proof fn lemma_pair_crossings_bound(es: Set<(u64, u64)>, a: u64, b: u64, lower: Seq<u64>, p: int)
    requires
        0 <= p <= MAX_NODES,
    ensures
        0 <= pair_crossings(es, a, b, lower, p) <= p * MAX_NODES,
    decreases p,
{
    if p > 0 {
        lemma_pair_crossings_bound(es, a, b, lower, p - 1);
        lemma_targets_before_bound(es, b, lower, p - 1);
    }
}

proof fn lemma_crossings_with_earlier_bound(
    es: Set<(u64, u64)>,
    upper: Seq<u64>,
    lower: Seq<u64>,
    j: int,
    i: int,
)
    requires
        0 <= i,
        lower.len() <= MAX_NODES,
    ensures
        0 <= crossings_with_earlier(es, upper, lower, j, i) <= i * (MAX_NODES * MAX_NODES),
    decreases i,
{
    if i > 0 {
        lemma_crossings_with_earlier_bound(es, upper, lower, j, i - 1);
        lemma_pair_crossings_bound(es, upper[i - 1], upper[j], lower, lower.len() as int);
        assert(lower.len() * MAX_NODES <= MAX_NODES * MAX_NODES) by (nonlinear_arith)
            requires
                lower.len() <= MAX_NODES,
        ;
    }
}

proof fn lemma_layer_pair_crossings_bound(
    es: Set<(u64, u64)>,
    upper: Seq<u64>,
    lower: Seq<u64>,
    m: int,
)
    requires
        0 <= m <= MAX_NODES,
        lower.len() <= MAX_NODES,
    ensures
        0 <= layer_pair_crossings(es, upper, lower, m) <= m * (MAX_NODES * MAX_NODES * MAX_NODES),
    decreases m,
{
    if m > 0 {
        lemma_layer_pair_crossings_bound(es, upper, lower, m - 1);
        lemma_crossings_with_earlier_bound(es, upper, lower, m - 1, m - 1);
        assert(m * (MAX_NODES * MAX_NODES * MAX_NODES) == (m - 1) * (MAX_NODES * MAX_NODES
            * MAX_NODES) + MAX_NODES * MAX_NODES * MAX_NODES) by (nonlinear_arith);
        assert((m - 1) * (MAX_NODES * MAX_NODES) <= MAX_NODES * MAX_NODES * MAX_NODES)
            by (nonlinear_arith)
            requires
                m <= MAX_NODES,
        ;
    }
}

proof fn lemma_crossings_upto_bound(es: Set<(u64, u64)>, ls: Seq<Vec<u64>>, t: int)
    requires
        0 <= t < ls.len(),
        within_bounds(ls),
    ensures
        0 <= crossings_upto(es, rows(ls), t) <= t * (MAX_NODES * MAX_NODES * MAX_NODES * MAX_NODES),
    decreases t,
{
    if t > 0 {
        lemma_crossings_upto_bound(es, ls, t - 1);
        assert(rows(ls)[t - 1] == ls[t - 1]@);
        assert(rows(ls)[t] == ls[t]@);
        let m = ls[t - 1]@.len() as int;
        assert(ls[t]@.len() <= MAX_NODES);
        assert(m <= MAX_NODES);
        lemma_layer_pair_crossings_bound(es, ls[t - 1]@, ls[t]@, m);
        assert(t * (MAX_NODES * MAX_NODES * MAX_NODES * MAX_NODES) == (t - 1) * (MAX_NODES
            * MAX_NODES * MAX_NODES * MAX_NODES) + MAX_NODES * MAX_NODES * MAX_NODES * MAX_NODES)
            by (nonlinear_arith);
        assert(m * (MAX_NODES * MAX_NODES * MAX_NODES) <= MAX_NODES * MAX_NODES * MAX_NODES
            * MAX_NODES) by (nonlinear_arith)
            requires
                m <= MAX_NODES,
        ;
    }
}

/// Counts the crossings between the edges of `a` and of `b` into `lower`,
/// where `a` is placed before `b`.
fn count_pair_crossings(g: &DiGraphMap<u64, ()>, a: u64, b: u64, lower: &Vec<u64>) -> (r: u128)
    requires
        lower.len() <= MAX_NODES,
    ensures
        r == pair_crossings(graph_edges(*g), a, b, lower@, lower.len() as int),
{
    let ghost es = graph_edges(*g);
    let mut total: u128 = 0;
    let mut before_b: u128 = 0;
    let mut p: usize = 0;
    while p < lower.len()
        invariant
            0 <= p <= lower.len() <= MAX_NODES,
            es == graph_edges(*g),
            before_b == targets_before(es, b, lower@, p as int),
            total == pair_crossings(es, a, b, lower@, p as int),
        decreases lower.len() - p,
    {
        proof {
            lemma_targets_before_bound(es, b, lower@, p as int);
            lemma_pair_crossings_bound(es, a, b, lower@, p as int);
            lemma_pair_crossings_bound(es, a, b, lower@, p as int + 1);
            lemma_targets_before_bound(es, b, lower@, p as int + 1);
        }
        let t = lower[p];
        if contains_edge(g, a, t) {
            total = total + before_b;
        }
        if contains_edge(g, b, t) {
            before_b = before_b + 1;
        }
        p += 1;
    }
    total
}

/// Counts the crossings between the edges from `upper` into `lower`.
fn count_layer_pair_crossings(g: &DiGraphMap<u64, ()>, upper: &Vec<u64>, lower: &Vec<u64>) -> (r:
    u128)
    requires
        upper.len() <= MAX_NODES,
        lower.len() <= MAX_NODES,
    ensures
        r == layer_pair_crossings(graph_edges(*g), upper@, lower@, upper.len() as int),
{
    let ghost es = graph_edges(*g);
    let mut total: u128 = 0;
    let mut j: usize = 0;
    while j < upper.len()
        invariant
            0 <= j <= upper.len() <= MAX_NODES,
            lower.len() <= MAX_NODES,
            es == graph_edges(*g),
            total == layer_pair_crossings(es, upper@, lower@, j as int),
        decreases upper.len() - j,
    {
        let mut with_j: u128 = 0;
        let mut i: usize = 0;
        while i < j
            invariant
                0 <= i <= j < upper.len() <= MAX_NODES,
                lower.len() <= MAX_NODES,
                es == graph_edges(*g),
                with_j == crossings_with_earlier(es, upper@, lower@, j as int, i as int),
            decreases j - i,
        {
            proof {
                lemma_crossings_with_earlier_bound(es, upper@, lower@, j as int, i as int + 1);
                assert((i + 1) * (MAX_NODES * MAX_NODES) <= MAX_NODES * MAX_NODES * MAX_NODES)
                    by (nonlinear_arith)
                    requires
                        i + 1 <= MAX_NODES,
                ;
            }
            let c = count_pair_crossings(g, upper[i], upper[j], lower);
            with_j = with_j + c;
            i += 1;
        }
        proof {
            lemma_layer_pair_crossings_bound(es, upper@, lower@, j as int + 1);
            assert((j + 1) * (MAX_NODES * MAX_NODES * MAX_NODES) <= MAX_NODES * MAX_NODES
                * MAX_NODES * MAX_NODES) by (nonlinear_arith)
                requires
                    j + 1 <= MAX_NODES,
            ;
        }
        total = total + with_j;
        j += 1;
    }
    total
}

/// Counts the edge crossings between every pair of adjacent layers.
pub fn count_crossings(g: &DiGraphMap<u64, ()>, layers: &Vec<Vec<u64>>) -> (r: u128)
    requires
        within_bounds(layers@),
    ensures
        r == total_crossings(graph_edges(*g), rows(layers@)),
{
    let ghost es = graph_edges(*g);
    if layers.len() == 0 {
        return 0;
    }
    let mut total: u128 = 0;
    let mut t: usize = 0;
    while t + 1 < layers.len()
        invariant
            0 <= t < layers.len(),
            within_bounds(layers@),
            es == graph_edges(*g),
            total == crossings_upto(es, rows(layers@), t as int),
        decreases layers.len() - t,
    {
        proof {
            lemma_crossings_upto_bound(es, layers@, t as int + 1);
            assert((t + 1) * (MAX_NODES * MAX_NODES * MAX_NODES * MAX_NODES) <= MAX_NODES
                * MAX_NODES * MAX_NODES * MAX_NODES * MAX_NODES) by (nonlinear_arith)
                requires
                    t + 1 <= MAX_NODES,
            ;
            assert(layers@[t as int]@.len() <= MAX_NODES);
            assert(layers@[t + 1]@.len() <= MAX_NODES);
        }
        let c = count_layer_pair_crossings(g, &layers[t], &layers[t + 1]);
        assert(rows(layers@)[t as int] == layers@[t as int]@);
        assert(rows(layers@)[t + 1] == layers@[t + 1]@);
        total = total + c;
        t += 1;
    }
    total
}

/// Both layerings have the same number of layers, and each layer holds
/// the same nodes in both, with the same length.
pub open spec fn same_membership(a: Seq<Vec<u64>>, b: Seq<Vec<u64>>) -> bool {
    &&& a.len() == b.len()
    &&& forall|k: int| 0 <= k < a.len() ==> (#[trigger] a[k])@.len() == b[k]@.len()
    &&& forall|k: int, n: u64| 0 <= k < a.len() ==> (#[trigger] a[k]@.contains(n) <==> b[k]@.contains(n))
}

/// Both layerings hold the same sequences of nodes.
pub open spec fn same_rows(a: Seq<Vec<u64>>, b: Seq<Vec<u64>>) -> bool {
    &&& a.len() == b.len()
    &&& forall|k: int| 0 <= k < a.len() ==> (#[trigger] a[k])@ == b[k]@
}

/// `b` is `a` with entries `i` and `i + 1` of layer `k` exchanged.
pub open spec fn swapped(a: Seq<Vec<u64>>, b: Seq<Vec<u64>>, k: int, i: int) -> bool {
    &&& a.len() == b.len()
    &&& 0 <= k < a.len()
    &&& 0 <= i && i + 1 < a[k]@.len()
    &&& forall|j: int| 0 <= j < a.len() && j != k ==> (#[trigger] b[j])@ == a[j]@
    &&& b[k]@ == a[k]@.update(i, a[k]@[i + 1]).update(i + 1, a[k]@[i])
}

/// The crossing count depends on the node sequences of the layers alone.
proof fn lemma_total_follows_rows(es: Set<(u64, u64)>, a: Seq<Vec<u64>>, b: Seq<Vec<u64>>)
    requires
        same_rows(a, b),
    ensures
        total_crossings(es, rows(a)) == total_crossings(es, rows(b)),
{
    assert(rows(a) =~= rows(b));
}

/// The entry of `a` that lands at index `x` of layer `k2` after the swap.
spec fn swap_source(k: int, i: int, k2: int, x: int) -> int {
    if k2 == k && x == i {
        i + 1
    } else if k2 == k && x == i + 1 {
        i
    } else {
        x
    }
}

proof fn lemma_swap_keeps_layering(a: Seq<Vec<u64>>, b: Seq<Vec<u64>>, k: int, i: int)
    requires
        swapped(a, b, k, i),
    ensures
        within_bounds(a) ==> within_bounds(b),
        same_membership(a, b),
        forall|s: Set<u64>| is_partition_of(a, s) ==> #[trigger] is_partition_of(b, s),
        forall|es: Set<(u64, u64)>| edges_point_forward(a, es) ==> #[trigger] edges_point_forward(b, es),
        forall|es: Set<(u64, u64)>|
            successor_in_next_layer(a, es) ==> #[trigger] successor_in_next_layer(b, es),
{
    assert forall|k2: int, x: int| #![trigger b[k2]@[x]] in_layers(b, k2, x) implies in_layers(
        a,
        k2,
        swap_source(k, i, k2, x),
    ) && b[k2]@[x] == a[k2]@[swap_source(k, i, k2, x)] by {
        if k2 != k {
            assert(b[k2]@ == a[k2]@);
        }
    }
    assert forall|k2: int, x: int| #![trigger a[k2]@[x]] in_layers(a, k2, x) implies in_layers(
        b,
        k2,
        swap_source(k, i, k2, x),
    ) && a[k2]@[x] == b[k2]@[swap_source(k, i, k2, x)] by {
        if k2 != k {
            assert(b[k2]@ == a[k2]@);
        }
    }
    if within_bounds(a) {
        assert forall|j: int| 0 <= j < b.len() implies (#[trigger] b[j])@.len() <= MAX_NODES by {
            assert(a[j]@.len() <= MAX_NODES);
        }
    }
    assert forall|j: int| 0 <= j < b.len() implies (#[trigger] b[j])@.len() == a[j]@.len() by {}
    assert forall|j: int, n: u64| 0 <= j < b.len() implies (#[trigger] b[j]@.contains(n) <==> a[j]@.contains(n)) by {
        if b[j]@.contains(n) {
            let x = choose|x: int| 0 <= x < b[j]@.len() && b[j]@[x] == n;
            assert(a[j]@[swap_source(k, i, j, x)] == n);
        }
        if a[j]@.contains(n) {
            let x = choose|x: int| 0 <= x < a[j]@.len() && a[j]@[x] == n;
            assert(b[j]@[swap_source(k, i, j, x)] == n);
        }
    }
    assert forall|s: Set<u64>| is_partition_of(a, s) implies #[trigger] is_partition_of(b, s) by {
        assert forall|n: u64| #[trigger] s.contains(n) implies exists|k2: int, x: int|
            in_layers(b, k2, x) && #[trigger] b[k2]@[x] == n by {
            let (k2, x) = choose|k2: int, x: int| in_layers(a, k2, x) && #[trigger] a[k2]@[x] == n;
            assert(b[k2]@[swap_source(k, i, k2, x)] == n);
        }
        assert forall|k1: int, i1: int, k2: int, i2: int|
            in_layers(b, k1, i1) && in_layers(b, k2, i2) && #[trigger] b[k1]@[i1]
                == #[trigger] b[k2]@[i2] implies k1 == k2 && i1 == i2 by {
            assert(a[k1]@[swap_source(k, i, k1, i1)] == a[k2]@[swap_source(k, i, k2, i2)]);
        }
    }
    assert forall|es: Set<(u64, u64)>| edges_point_forward(a, es) implies #[trigger] edges_point_forward(b, es) by {
        assert forall|k1: int, i1: int, k2: int, i2: int|
            in_layers(b, k1, i1) && in_layers(b, k2, i2) && #[trigger] es.contains(
                (b[k1]@[i1], b[k2]@[i2]),
            ) implies k1 < k2 by {
            assert(es.contains((a[k1]@[swap_source(k, i, k1, i1)], a[k2]@[swap_source(k, i, k2, i2)])));
        }
    }
    assert forall|es: Set<(u64, u64)>| successor_in_next_layer(a, es) implies #[trigger] successor_in_next_layer(b, es) by {
        assert forall|k2: int, x: int, n: u64|
            in_layers(b, k2, x) && #[trigger] es.contains((b[k2]@[x], n)) implies exists|i2: int|
                in_layers(b, k2 + 1, i2) && #[trigger] es.contains((b[k2]@[x], b[k2 + 1]@[i2])) by {
            let x0 = swap_source(k, i, k2, x);
            assert(a[k2]@[x0] == b[k2]@[x]);
            assert(es.contains((a[k2]@[x0], n)));
            let i2 = choose|i2: int| in_layers(a, k2 + 1, i2) && #[trigger] es.contains((a[k2]@[x0], a[k2 + 1]@[i2]));
            assert(a[k2 + 1]@[i2] == b[k2 + 1]@[swap_source(k, i, k2 + 1, i2)]);
            assert(in_layers(b, k2 + 1, swap_source(k, i, k2 + 1, i2)));
        }
    }
}

/// Exchanges entries `i` and `i + 1` of layer `k`.
fn swap_adjacent(layers: &mut Vec<Vec<u64>>, k: usize, i: usize)
    requires
        k < old(layers).len(),
        i + 1 < old(layers)@[k as int]@.len(),
        i < MAX_NODES,
    ensures
        swapped(old(layers)@, final(layers)@, k as int, i as int),
{
    let a = layers[k][i];
    let b = layers[k][i + 1];
    layers[k][i] = b;
    layers[k][i + 1] = a;
}

/// One pass of crossing reduction: for every layer and every pair of
/// neighbouring slots, the two nodes are exchanged when that strictly lowers
/// the crossing count, or keeps it and puts the smaller node first. Returns
/// whether any exchange was kept.
///
/// Layer membership never changes, and the crossing count never grows.
pub fn crossing_pass(g: &DiGraphMap<u64, ()>, layers: &mut Vec<Vec<u64>>) -> (improved: bool)
    requires
        within_bounds(old(layers)@),
    ensures
        within_bounds(final(layers)@),
        same_membership(final(layers)@, old(layers)@),
        forall|s: Set<u64>| is_partition_of(old(layers)@, s) ==> #[trigger] is_partition_of(final(layers)@, s),
        forall|es: Set<(u64, u64)>|
            edges_point_forward(old(layers)@, es) ==> #[trigger] edges_point_forward(final(layers)@, es),
        forall|es: Set<(u64, u64)>|
            successor_in_next_layer(old(layers)@, es) ==> #[trigger] successor_in_next_layer(final(layers)@, es),
        total_crossings(graph_edges(*g), rows(final(layers)@)) <= total_crossings(graph_edges(*g), rows(old(layers)@)),
        !improved ==> same_rows(final(layers)@, old(layers)@),
        (rows(final(layers)@), improved) == crossing_pass_result(graph_edges(*g), rows(old(layers)@)),
{
    let ghost es = graph_edges(*g);
    let ghost start = layers@;
    let mut improved = false;
    let mut k: usize = 0;
    while k < layers.len()
        invariant
            es == graph_edges(*g),
            within_bounds(layers@),
            same_membership(layers@, start),
            forall|s: Set<u64>| is_partition_of(start, s) ==> #[trigger] is_partition_of(layers@, s),
            forall|e: Set<(u64, u64)>| edges_point_forward(start, e) ==> #[trigger] edges_point_forward(layers@, e),
            forall|e: Set<(u64, u64)>| successor_in_next_layer(start, e) ==> #[trigger] successor_in_next_layer(layers@, e),
            total_crossings(es, rows(layers@)) <= total_crossings(es, rows(start)),
            !improved ==> same_rows(layers@, start),
            k <= layers.len(),
            (rows(layers@), improved) == pass_upto(es, rows(start), k as int),
        decreases layers.len() - k,
    {
        let ghost layer_start = rows(layers@);
        let ghost improved_before = improved;
        let len = layers[k].len();
        assert(layers@[k as int]@.len() <= MAX_NODES);
        let mut i: usize = 0;
        while i + 1 < len
            invariant
                i <= len <= MAX_NODES,
                i == 0 || i < len,
                es == graph_edges(*g),
                k < layers.len(),
                len == layers@[k as int]@.len(),
                within_bounds(layers@),
                same_membership(layers@, start),
                forall|s: Set<u64>| is_partition_of(start, s) ==> #[trigger] is_partition_of(layers@, s),
                forall|e: Set<(u64, u64)>| edges_point_forward(start, e) ==> #[trigger] edges_point_forward(layers@, e),
                forall|e: Set<(u64, u64)>| successor_in_next_layer(start, e) ==> #[trigger] successor_in_next_layer(layers@, e),
                total_crossings(es, rows(layers@)) <= total_crossings(es, rows(start)),
                !improved ==> same_rows(layers@, start),
                layer_start.len() == layers@.len(),
                pass_upto(es, rows(start), k as int) == (layer_start, improved_before),
                rows(layers@) == pass_over_layer(es, layer_start, k as int, i as int).0,
                improved == (improved_before || pass_over_layer(es, layer_start, k as int, i as int).1),
            decreases len - i,
        {
            let ghost prev = layers@;
            let before = count_crossings(g, layers);
            swap_adjacent(layers, k, i);
            proof {
                lemma_swap_keeps_layering(prev, layers@, k as int, i as int);
                assert(rows(layers@) =~= swap_at(rows(prev), k as int, i as int));
            }
            let after = count_crossings(g, layers);
            if after > before || (after == before && layers[k][i] > layers[k][i + 1]) {
                let ghost mid = layers@;
                swap_adjacent(layers, k, i);
                proof {
                    lemma_swap_keeps_layering(mid, layers@, k as int, i as int);
                    assert(same_rows(layers@, prev)) by {
                        assert(layers@[k as int]@ =~= prev[k as int]@);
                    }
                    lemma_total_follows_rows(es, layers@, prev);
                    assert(rows(layers@) =~= rows(prev));
                }
            } else {
                improved = true;
            }
            proof {
                assert(rows(layers@) == pass_over_layer(es, layer_start, k as int, i as int + 1).0);
                assert forall|k2: int, n: u64| 0 <= k2 < layers@.len() implies (#[trigger] layers@[k2]@.contains(n) <==> start[k2]@.contains(n)) by {
                    assert(layers@[k2]@.contains(n) <==> prev[k2]@.contains(n));
                }
                assert forall|k2: int| 0 <= k2 < layers@.len() implies (#[trigger] layers@[k2])@.len() == start[k2]@.len() by {
                    assert(layers@[k2]@.len() == prev[k2]@.len());
                }
            }
            i += 1;
        }
        proof {
            assert(layer_start[k as int].len() == len);
            assert(len == 0 || i == len - 1);
            if len == 0 {
                assert(pass_over_layer(es, layer_start, k as int, len - 1) == pass_over_layer(es, layer_start, k as int, 0));
            }
        }
        k += 1;
    }
    improved
}

/// Reduces edge crossings by repeated passes of [`crossing_pass`], at most
/// `max_iterations` of them, stopping after a pass that keeps no exchange.
/// Returns the reordered layers and their exact crossing count.
pub fn minimize_crossings(g: &DiGraphMap<u64, ()>, layers: Vec<Vec<u64>>, max_iterations: usize) -> (r: (
    Vec<Vec<u64>>,
    u128,
))
    requires
        within_bounds(layers@),
    ensures
        within_bounds(r.0@),
        same_membership(r.0@, layers@),
        forall|s: Set<u64>| is_partition_of(layers@, s) ==> #[trigger] is_partition_of(r.0@, s),
        forall|es: Set<(u64, u64)>| edges_point_forward(layers@, es) ==> #[trigger] edges_point_forward(r.0@, es),
        forall|es: Set<(u64, u64)>|
            successor_in_next_layer(layers@, es) ==> #[trigger] successor_in_next_layer(r.0@, es),
        r.1 == total_crossings(graph_edges(*g), rows(r.0@)),
        r.1 <= total_crossings(graph_edges(*g), rows(layers@)),
        rows(r.0@) == minimized(graph_edges(*g), rows(layers@), max_iterations as int),
{
    let ghost es = graph_edges(*g);
    let ghost start = layers@;
    let mut layers = layers;
    let mut iteration: usize = 0;
    let mut settled = false;
    while iteration < max_iterations && !settled
        invariant
            es == graph_edges(*g),
            within_bounds(layers@),
            same_membership(layers@, start),
            forall|s: Set<u64>| is_partition_of(start, s) ==> #[trigger] is_partition_of(layers@, s),
            forall|e: Set<(u64, u64)>| edges_point_forward(start, e) ==> #[trigger] edges_point_forward(layers@, e),
            forall|e: Set<(u64, u64)>| successor_in_next_layer(start, e) ==> #[trigger] successor_in_next_layer(layers@, e),
            total_crossings(es, rows(layers@)) <= total_crossings(es, rows(start)),
            iteration <= max_iterations,
            !settled ==> minimized(es, rows(start), max_iterations as int) == minimized(es, rows(layers@), max_iterations - iteration),
            settled ==> minimized(es, rows(start), max_iterations as int) == rows(layers@),
        decreases max_iterations - iteration,
    {
        let ghost prev = layers@;
        let improved = crossing_pass(g, &mut layers);
        proof {
            assert forall|k: int, n: u64| 0 <= k < layers@.len() implies (#[trigger] layers@[k]@.contains(n) <==> start[k]@.contains(n)) by {
                assert(layers@[k]@.contains(n) <==> prev[k]@.contains(n));
            }
            assert forall|k: int| 0 <= k < layers@.len() implies (#[trigger] layers@[k])@.len() == start[k]@.len() by {
                assert(layers@[k]@.len() == prev[k]@.len());
            }
        }
        if !improved {
            settled = true;
        }
        iteration += 1;
    }
    let crossings = count_crossings(g, &layers);
    (layers, crossings)
}

} // verus!
