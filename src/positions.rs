//! Coordinate assignment: columns left to right, nodes stacked within a
//! column and pulled towards the nodes they point to.
use vstd::prelude::*;
use vstd::pervasive::VecAdditionalExecFns;
use petgraph::graphmap::DiGraphMap;
use std::collections::HashMap;
use crate::crossings::{rows, within_bounds, MAX_NODES};
use crate::geometry::{Point, Vec2};
use crate::graph::{contains_edge, graph_edges};
use crate::layers::{entries_distinct, in_layers};
use crate::sizes::NodeSizes;
use vstd::arithmetic::div_mod::{lemma_fundamental_div_mod, lemma_fundamental_div_mod_converse};

verus! {

broadcast use vstd::std_specs::hash::group_hash_axioms;

/// The largest number of vertical refinement passes the layout accepts; it
/// keeps every coordinate within 128 bits.
pub const MAX_POSITION_ITERATIONS: usize = 4294967295;

/// Width of the widest of the first `n` nodes of `row`.
pub open spec fn column_width<S: NodeSizes>(sizes: &S, row: Seq<u64>, n: int) -> int
    decreases n,
{
    if n <= 0 {
        0
    } else {
        let w = sizes.size_of(row[n - 1]).x as int;
        let rest = column_width(sizes, row, n - 1);
        if w > rest {
            w
        } else {
            rest
        }
    }
}

/// The x coordinate at which layer `k` starts: the widths of the earlier
/// columns, each followed by the horizontal margin `mx`.
pub open spec fn column_offset<S: NodeSizes>(sizes: &S, ls: Seq<Vec<u64>>, mx: int, k: int) -> int
    decreases k,
{
    if k <= 0 {
        0
    } else {
        column_offset(sizes, ls, mx, k - 1) + column_width(sizes, ls[k - 1]@, ls[k - 1]@.len() as int)
            + mx
    }
}

/// The x coordinate of entry `i` of layer `k`: centred in its column,
/// rounded down.
pub open spec fn node_x<S: NodeSizes>(sizes: &S, ls: Seq<Vec<u64>>, mx: int, k: int, i: int) -> int {
    column_offset(sizes, ls, mx, k) + (column_width(sizes, ls[k]@, ls[k]@.len() as int)
        - sizes.size_of(ls[k]@[i]).x) / 2
}

proof fn lemma_column_width_bounds<S: NodeSizes>(sizes: &S, row: Seq<u64>, n: int)
    requires
        0 <= n <= row.len(),
    ensures
        0 <= column_width(sizes, row, n) < 0x1_0000_0000,
        forall|i: int| 0 <= i < n ==> sizes.size_of(#[trigger] row[i]).x <= column_width(sizes, row, n),
    decreases n,
{
    if n > 0 {
        lemma_column_width_bounds(sizes, row, n - 1);
    }
}

proof fn lemma_column_offset_bounds<S: NodeSizes>(sizes: &S, ls: Seq<Vec<u64>>, mx: int, k: int)
    requires
        0 <= k <= ls.len(),
        0 <= mx < 0x1_0000_0000,
    ensures
        0 <= column_offset(sizes, ls, mx, k) <= k * 0x2_0000_0000,
    decreases k,
{
    if k > 0 {
        lemma_column_offset_bounds(sizes, ls, mx, k - 1);
        lemma_column_width_bounds(sizes, ls[k - 1]@, ls[k - 1]@.len() as int);
    }
}

/// Looks up the size of every entry of the layers, once each.
fn lookup_sizes<S: NodeSizes>(layers: &Vec<Vec<u64>>, sizes: &S) -> (r: Vec<Vec<Vec2>>)
    ensures
        r.len() == layers.len(),
        forall|k: int| 0 <= k < r.len() ==> (#[trigger] r@[k])@.len() == layers@[k]@.len(),
        forall|k: int, i: int|
            in_layers(layers@, k, i) ==> #[trigger] r@[k]@[i] == sizes.size_of(layers@[k]@[i]),
{
    let mut r: Vec<Vec<Vec2>> = Vec::new();
    let mut k: usize = 0;
    while k < layers.len()
        invariant
            k <= layers.len(),
            r.len() == k,
            forall|k2: int| 0 <= k2 < k ==> (#[trigger] r@[k2])@.len() == layers@[k2]@.len(),
            forall|k2: int, i: int|
                0 <= k2 < k && in_layers(layers@, k2, i) ==> #[trigger] r@[k2]@[i] == sizes.size_of(
                    layers@[k2]@[i],
                ),
        decreases layers.len() - k,
    {
        let row = &layers[k];
        let mut out: Vec<Vec2> = Vec::new();
        let mut i: usize = 0;
        while i < row.len()
            invariant
                i <= row.len(),
                row@ == layers@[k as int]@,
                out.len() == i,
                forall|j: int| 0 <= j < i ==> #[trigger] out@[j] == sizes.size_of(row@[j]),
            decreases row.len() - i,
        {
            out.push(sizes.size(row[i]));
            i += 1;
        }
        r.push(out);
        k += 1;
    }
    r
}

/// The x coordinate of every entry of the layers.
fn horizontal_positions<S: NodeSizes>(
    layers: &Vec<Vec<u64>>,
    sz: &Vec<Vec<Vec2>>,
    sizes: &S,
    mx: u32,
) -> (r: Vec<Vec<i128>>)
    requires
        within_bounds(layers@),
        sz.len() == layers.len(),
        forall|k: int| 0 <= k < sz.len() ==> (#[trigger] sz@[k])@.len() == layers@[k]@.len(),
        forall|k: int, i: int|
            in_layers(layers@, k, i) ==> #[trigger] sz@[k]@[i] == sizes.size_of(layers@[k]@[i]),
    ensures
        r.len() == layers.len(),
        forall|k: int| 0 <= k < r.len() ==> (#[trigger] r@[k])@.len() == layers@[k]@.len(),
        forall|k: int, i: int|
            in_layers(layers@, k, i) ==> #[trigger] r@[k]@[i] == node_x(sizes, layers@, mx as int, k, i),
{
    let mut r: Vec<Vec<i128>> = Vec::new();
    let mut offset: i128 = 0;
    let mut k: usize = 0;
    while k < layers.len()
        invariant
            k <= layers.len() <= MAX_NODES,
            within_bounds(layers@),
            sz.len() == layers.len(),
            forall|k2: int| 0 <= k2 < sz.len() ==> (#[trigger] sz@[k2])@.len() == layers@[k2]@.len(),
            forall|k2: int, i: int|
                in_layers(layers@, k2, i) ==> #[trigger] sz@[k2]@[i] == sizes.size_of(layers@[k2]@[i]),
            r.len() == k,
            offset == column_offset(sizes, layers@, mx as int, k as int),
            forall|k2: int| 0 <= k2 < k ==> (#[trigger] r@[k2])@.len() == layers@[k2]@.len(),
            forall|k2: int, i: int|
                0 <= k2 < k && in_layers(layers@, k2, i) ==> #[trigger] r@[k2]@[i] == node_x(
                    sizes,
                    layers@,
                    mx as int,
                    k2,
                    i,
                ),
        decreases layers.len() - k,
    {
        let row = &sz[k];
        let ghost nodes = layers@[k as int]@;
        proof {
            lemma_column_offset_bounds(sizes, layers@, mx as int, k as int);
            lemma_column_width_bounds(sizes, nodes, nodes.len() as int);
        }
        let mut width: u32 = 0;
        let mut i: usize = 0;
        while i < row.len()
            invariant
                i <= row.len(),
                row@.len() == nodes.len(),
                nodes == layers@[k as int]@,
                k < layers.len(),
                forall|j: int| 0 <= j < row@.len() ==> #[trigger] row@[j] == sizes.size_of(nodes[j]),
                width == column_width(sizes, nodes, i as int),
            decreases row.len() - i,
        {
            if row[i].x > width {
                width = row[i].x;
            }
            i += 1;
        }
        let mut out: Vec<i128> = Vec::new();
        let mut i: usize = 0;
        while i < row.len()
            invariant
                i <= row.len(),
                row@.len() == nodes.len(),
                nodes == layers@[k as int]@,
                k < layers.len() <= MAX_NODES,
                forall|j: int| 0 <= j < row@.len() ==> #[trigger] row@[j] == sizes.size_of(nodes[j]),
                width == column_width(sizes, nodes, nodes.len() as int),
                offset == column_offset(sizes, layers@, mx as int, k as int),
                0 <= offset <= k * 0x2_0000_0000,
                out.len() == i,
                forall|j: int| 0 <= j < i ==> #[trigger] out@[j] == node_x(sizes, layers@, mx as int, k as int, j),
            decreases row.len() - i,
        {
            proof {
                lemma_column_width_bounds(sizes, nodes, nodes.len() as int);
                assert(sizes.size_of(nodes[i as int]).x <= width);
            }
            let x = offset + ((width - row[i].x) / 2) as i128;
            out.push(x);
            i += 1;
        }
        proof {
            lemma_column_width_bounds(sizes, nodes, nodes.len() as int);
        }
        offset = offset + width as i128 + mx as i128;
        r.push(out);
        k += 1;
    }
    r
}

/// The top of entry `i` of a layer stacked from y = 0: the heights of the
/// entries above it, each followed by the margin `my`.
pub open spec fn stack_top<S: NodeSizes>(sizes: &S, row: Seq<u64>, my: int, i: int) -> int
    decreases i,
{
    if i <= 0 {
        0
    } else {
        stack_top(sizes, row, my, i - 1) + sizes.size_of(row[i - 1]).y + my
    }
}

/// [`stack_top`] over sizes already looked up.
pub open spec fn stacked_y(s: Seq<Vec2>, my: int, i: int) -> int
    decreases i,
{
    if i <= 0 {
        0
    } else {
        stacked_y(s, my, i - 1) + s[i - 1].y + my
    }
}

proof fn lemma_stacked_y_nonneg(s: Seq<Vec2>, my: int, i: int)
    requires
        my >= 0,
    ensures
        stacked_y(s, my, i) >= 0,
    decreases i,
{
    if i > 0 {
        lemma_stacked_y_nonneg(s, my, i - 1);
    }
}

proof fn lemma_stacked_y_matches<S: NodeSizes>(sizes: &S, row: Seq<u64>, s: Seq<Vec2>, my: int, i: int)
    requires
        0 <= i <= row.len(),
        s.len() == row.len(),
        forall|j: int| 0 <= j < row.len() ==> #[trigger] s[j] == sizes.size_of(row[j]),
    ensures
        stacked_y(s, my, i) == stack_top(sizes, row, my, i),
    decreases i,
{
    if i > 0 {
        lemma_stacked_y_matches(sizes, row, s, my, i - 1);
    }
}

/// Within one layer, any two distinct entries are apart by at least the
/// height of the upper one plus the margin `m`.
pub open spec fn row_separated(y: Seq<i128>, s: Seq<Vec2>, m: int) -> bool {
    forall|i: int, j: int|
        #![trigger y[i], y[j]]
        0 <= i < y.len() && 0 <= j < y.len() && i != j ==> y[i] + s[i].y + m <= y[j] || y[j] + s[j].y
            + m <= y[i]
}

/// Every coordinate lies within `[-b, b]`.
spec fn ys_within(ys: Seq<Vec<i128>>, b: int) -> bool {
    forall|k: int, i: int| 0 <= k < ys.len() && 0 <= i < ys[k]@.len() ==> -b <= #[trigger] ys[k]@[i] <= b
}

/// The coordinate bound after `w` moves: each move shifts a node by less
/// than `2^33`.
spec fn coord_bound(w: int) -> int {
    0x2_0000_0000 * (65536 + w)
}

/// `order` lists each index of a sequence of length `n` exactly once.
#[verifier::opaque]
spec fn is_index_order(order: Seq<usize>, n: int) -> bool {
    &&& order.len() == n
    &&& order.no_duplicates()
    &&& forall|t: int| 0 <= t < n ==> (#[trigger] order[t]) < n
    &&& forall|i: int| 0 <= i < n ==> order.contains(#[trigger] (i as usize))
}

/// Along `order`, up to position `t`, each entry starts at least the height
/// of the previous one plus `m` below it.
spec fn chained(y: Seq<i128>, s: Seq<Vec2>, m: int, order: Seq<usize>, t: int) -> bool {
    forall|u: int|
        1 <= u < t ==> y[#[trigger] order[u] as int] >= y[order[u - 1] as int] + s[order[u
            - 1] as int].y + m
}

/// Sum of the centres of the targets of `node` among the first `j` entries
/// of the next layer, and their number.
pub open spec fn pull_sums(
    es: Set<(u64, u64)>,
    node: u64,
    next: Seq<u64>,
    ny: Seq<i128>,
    ns: Seq<Vec2>,
    j: int,
) -> (int, int)
    decreases j,
{
    if j <= 0 {
        (0, 0)
    } else {
        let prev = pull_sums(es, node, next, ny, ns, j - 1);
        if es.contains((node, next[j - 1])) {
            (prev.0 + ny[j - 1] + ns[j - 1].y / 2, prev.1 + 1)
        } else {
            prev
        }
    }
}

/// Where a node of height `h` is pulled: the mean centre of its targets in
/// the next layer, rounded down, less half its height; `None` without
/// targets there.
pub open spec fn pull_target(
    es: Set<(u64, u64)>,
    node: u64,
    h: u32,
    next: Seq<u64>,
    ny: Seq<i128>,
    ns: Seq<Vec2>,
) -> Option<int> {
    let sums = pull_sums(es, node, next, ny, ns, next.len() as int);
    if sums.1 == 0 {
        None
    } else {
        Some(sums.0 / sums.1 - h / 2)
    }
}

/// The first position from `p` on whose entry of `order` has a y greater
/// than `v`.
pub open spec fn first_greater(order: Seq<usize>, y: Seq<i128>, v: i128, p: int) -> int
    decreases order.len() - p,
{
    if p >= order.len() || p < 0 || y[order[p] as int] > v {
        p
    } else {
        first_greater(order, y, v, p + 1)
    }
}

/// The first `i` indices of `y` in order of increasing value, equal values
/// in index order (insertion sort).
pub open spec fn sorted_indices(y: Seq<i128>, i: int) -> Seq<usize>
    decreases i,
{
    if i <= 0 {
        Seq::empty()
    } else {
        let o = sorted_indices(y, i - 1);
        o.insert(first_greater(o, y, y[i - 1], 0), (i - 1) as usize)
    }
}

/// Pushing down along `order`, steps `1 .. t`: each entry starts no higher
/// than the previous one's bottom plus `m`. Also whether anything moved.
pub open spec fn pushed(y: Seq<i128>, s: Seq<Vec2>, m: int, order: Seq<usize>, t: int) -> (
    Seq<i128>,
    bool,
)
    decreases t,
{
    if t <= 1 {
        (y, false)
    } else {
        let prev = pushed(y, s, m, order, t - 1);
        let above = order[t - 2] as int;
        let cur = order[t - 1] as int;
        let need = prev.0[above] + s[above].y + m;
        if prev.0[cur] < need {
            (prev.0.update(cur, need as i128), true)
        } else {
            prev
        }
    }
}

/// A layer's row after pushing apart (see [`pushed`]) in sorted order.
pub open spec fn pushed_apart(y: Seq<i128>, s: Seq<Vec2>, m: int) -> (Seq<i128>, bool) {
    pushed(y, s, m, sorted_indices(y, y.len() as int), y.len() as int)
}

/// The sizes of the entries of the layers `ls`.
pub open spec fn size_rows<S: NodeSizes>(sizes: &S, ls: Seq<Seq<u64>>) -> Seq<Seq<Vec2>> {
    ls.map_values(|row: Seq<u64>| row.map_values(|n: u64| sizes.size_of(n)))
}

/// Every layer stacked from y = 0, a margin `m` apart.
pub open spec fn stacked_rows(sz: Seq<Seq<Vec2>>, m: int) -> Seq<Seq<i128>> {
    sz.map_values(|row: Seq<Vec2>| Seq::new(row.len(), |i: int| stacked_y(row, m, i) as i128))
}

/// Layer `kk` of `ys` after its first `i` nodes moved to their pull
/// targets in layer `kk + 1` (where those differ); also whether any moved.
pub open spec fn pulled_row(
    es: Set<(u64, u64)>,
    ls: Seq<Seq<u64>>,
    sz: Seq<Seq<Vec2>>,
    ys: Seq<Seq<i128>>,
    kk: int,
    i: int,
) -> (Seq<i128>, bool)
    decreases i,
{
    if i <= 0 {
        (ys[kk], false)
    } else {
        let prev = pulled_row(es, ls, sz, ys, kk, i - 1);
        match pull_target(es, ls[kk][i - 1], sz[kk][i - 1].y, ls[kk + 1], ys[kk + 1], sz[kk + 1]) {
            Some(v) => if (v as i128) != prev.0[i - 1] {
                (prev.0.update(i - 1, v as i128), true)
            } else {
                prev
            },
            None => prev,
        }
    }
}

/// Refinement of layer `kk`: pull, then push apart.
pub open spec fn refined_layer(
    es: Set<(u64, u64)>,
    ls: Seq<Seq<u64>>,
    sz: Seq<Seq<Vec2>>,
    ys: Seq<Seq<i128>>,
    m: int,
    kk: int,
) -> (Seq<Seq<i128>>, bool) {
    let pulled = pulled_row(es, ls, sz, ys, kk, ls[kk].len() as int);
    let apart = pushed_apart(pulled.0, sz[kk], m);
    (ys.update(kk, apart.0), pulled.1 || apart.1)
}

/// The first `step` layer refinements of a pass, from the second-to-last
/// layer upwards.
pub open spec fn refine_steps(
    es: Set<(u64, u64)>,
    ls: Seq<Seq<u64>>,
    sz: Seq<Seq<Vec2>>,
    ys: Seq<Seq<i128>>,
    m: int,
    step: int,
) -> (Seq<Seq<i128>>, bool)
    decreases step,
{
    if step <= 0 {
        (ys, false)
    } else {
        let prev = refine_steps(es, ls, sz, ys, m, step - 1);
        let r = refined_layer(es, ls, sz, prev.0, m, ls.len() - 1 - step);
        (r.0, prev.1 || r.1)
    }
}

/// Up to `n` refinement passes, stopping after one that moves nothing.
pub open spec fn refined(
    es: Set<(u64, u64)>,
    ls: Seq<Seq<u64>>,
    sz: Seq<Seq<Vec2>>,
    ys: Seq<Seq<i128>>,
    m: int,
    n: int,
) -> Seq<Seq<i128>>
    decreases n,
{
    if n <= 0 {
        ys
    } else {
        let p = refine_steps(es, ls, sz, ys, m, if ls.len() >= 1 { ls.len() - 1 } else { 0 });
        if p.1 {
            refined(es, ls, sz, p.0, m, n - 1)
        } else {
            p.0
        }
    }
}

/// The y coordinates before normalization: initial stacking, then up to
/// `n` refinement passes.
pub open spec fn vertical_layout(
    es: Set<(u64, u64)>,
    ls: Seq<Seq<u64>>,
    sz: Seq<Seq<Vec2>>,
    m: int,
    n: int,
) -> Seq<Seq<i128>> {
    refined(es, ls, sz, stacked_rows(sz, m), m, n)
}

/// Divides, rounding down.
fn floor_div(a: i128, b: i128) -> (r: i128)
    requires
        b > 0,
    ensures
        r == a / b,
{
    if a >= 0 {
        ((a as u128) / (b as u128)) as i128
    } else {
        let n = (-(a + 1)) as u128;
        let q = n / (b as u128);
        proof {
            lemma_fundamental_div_mod(n as int, b as int);
            let rem = (n as int) % (b as int);
            assert(0 <= rem < b) by {
                vstd::arithmetic::div_mod::lemma_mod_bound(n as int, b as int);
            }
            assert(a == (-(q as int) - 1) * b + (b - 1 - rem)) by (nonlinear_arith)
                requires
                    n == b * (q as int) + rem,
                    n == -(a + 1),
            ;
            lemma_fundamental_div_mod_converse(a as int, b as int, -(q as int) - 1, b - 1 - rem);
        }
        -(q as i128) - 1
    }
}

proof fn lemma_mean_bounds(s: int, c: int, lo: int, hi: int)
    requires
        c > 0,
        lo * c <= s <= hi * c,
    ensures
        lo <= s / c <= hi,
{
    lemma_fundamental_div_mod(s, c);
    vstd::arithmetic::div_mod::lemma_mod_bound(s, c);
    let q = s / c;
    let r = s % c;
    assert(lo <= q <= hi) by (nonlinear_arith)
        requires
            s == c * q + r,
            0 <= r < c,
            lo * c <= s <= hi * c,
            c > 0,
    ;
}

/// Where `node`, of height `h`, is pulled by its targets in the next layer
/// (see [`pull_target`]); `None` when it has no target there.
fn barycenter(
    g: &DiGraphMap<u64, ()>,
    node: u64,
    h: u32,
    next: &Vec<u64>,
    next_y: &Vec<i128>,
    next_sz: &Vec<Vec2>,
    Ghost(b): Ghost<int>,
) -> (r: Option<i128>)
    requires
        next.len() == next_y.len(),
        next.len() == next_sz.len(),
        next.len() <= MAX_NODES,
        0 <= b <= 0x10_0000_0000_0000_0000_0000_0000,
        forall|j: int| 0 <= j < next_y.len() ==> -b <= #[trigger] next_y@[j] <= b,
    ensures
        match r {
            Some(v) => -b - 0x8000_0000 <= v <= b + 0x8000_0000,
            None => true,
        },
        match pull_target(graph_edges(*g), node, h, next@, next_y@, next_sz@) {
            Some(v) => r == Some(v as i128),
            None => r is None,
        },
{
    let mut sum: i128 = 0;
    let mut count: i128 = 0;
    let mut j: usize = 0;
    while j < next.len()
        invariant
            j <= next.len() <= MAX_NODES,
            next.len() == next_y.len(),
            next.len() == next_sz.len(),
            0 <= b <= 0x10_0000_0000_0000_0000_0000_0000,
            forall|j2: int| 0 <= j2 < next_y.len() ==> -b <= #[trigger] next_y@[j2] <= b,
            0 <= count <= j,
            -b * count <= sum <= (b + 0x8000_0000) * count,
            (sum as int, count as int) == pull_sums(graph_edges(*g), node, next@, next_y@, next_sz@, j as int),
        decreases next.len() - j,
    {
        if contains_edge(g, node, next[j]) {
            let c = next_y[j] + (next_sz[j].y / 2) as i128;
            proof {
                assert((b + 0x8000_0000) * count <= (b + 0x8000_0000) * 65536) by (nonlinear_arith)
                    requires
                        0 <= count <= 65536,
                        b >= 0,
                ;
                assert(-b * count >= -b * 65536) by (nonlinear_arith)
                    requires
                        0 <= count <= 65536,
                        b >= 0,
                ;
                assert((b + 0x8000_0000) * (count + 1) == (b + 0x8000_0000) * count + b
                    + 0x8000_0000) by (nonlinear_arith);
                assert(-b * (count + 1) == -b * count - b) by (nonlinear_arith);
            }
            sum = sum + c;
            count = count + 1;
        }
        j += 1;
    }
    if count == 0 {
        None
    } else {
        let mean = floor_div(sum, count);
        proof {
            lemma_mean_bounds(sum as int, count as int, -b, b + 0x8000_0000);
        }
        Some(mean - (h / 2) as i128)
    }
}

/// The indices of `y`, ordered by increasing value; equal values keep their
/// order.
fn order_by_y(y: &Vec<i128>) -> (order: Vec<usize>)
    ensures
        is_index_order(order@, y.len() as int),
        forall|t: int| 0 < t < order.len() ==> y@[order@[t - 1] as int] <= y@[#[trigger] order@[t] as int],
        order@ == sorted_indices(y@, y.len() as int),
{
    let mut order: Vec<usize> = Vec::new();
    let mut i: usize = 0;
    while i < y.len()
        invariant
            i <= y.len(),
            order.len() == i,
            order@.no_duplicates(),
            forall|t: int| 0 <= t < i ==> (#[trigger] order@[t]) < i,
            forall|x: int| 0 <= x < i ==> order@.contains(#[trigger] (x as usize)),
            forall|t: int| 0 < t < order.len() ==> y@[order@[t - 1] as int] <= y@[#[trigger] order@[t] as int],
            order@ == sorted_indices(y@, i as int),
        decreases y.len() - i,
    {
        let mut p: usize = 0;
        while p < order.len() && y[order[p]] <= y[i]
            invariant
                p <= order.len(),
                i < y.len(),
                forall|t: int| 0 <= t < order.len() ==> (#[trigger] order@[t]) < i,
                forall|t: int| 0 <= t < p ==> y@[(#[trigger] order@[t]) as int] <= y@[i as int],
                first_greater(order@, y@, y@[i as int], 0) == first_greater(order@, y@, y@[i as int], p as int),
            decreases order.len() - p,
        {
            p += 1;
        }
        let ghost old_order = order@;
        order.insert(p, i);
        proof {
            old_order.insert_ensures(p as int, i);
            assert forall|t: int| 0 <= t < i + 1 implies (#[trigger] order@[t]) < i + 1 by {
                if t > p {
                    assert(order@[t] == old_order[t - 1]);
                }
            }
            assert forall|x: int| 0 <= x < i + 1 implies order@.contains(#[trigger] (x as usize)) by {
                if x < i {
                    assert(old_order.contains(x as usize));
                    let t = choose|t: int| 0 <= t < old_order.len() && old_order[t] == x as usize;
                    if t < p {
                        assert(order@[t] == x as usize);
                    } else {
                        assert(order@[t + 1] == x as usize);
                    }
                } else {
                    assert(order@[p as int] == x as usize);
                }
            }
            assert forall|a: int, c: int| 0 <= a < order.len() && 0 <= c < order.len() && a != c implies order@[a] != order@[c] by {
                let sa = if a < p { a } else if a == p { -1 } else { a - 1 };
                let sc = if c < p { c } else if c == p { -1 } else { c - 1 };
                if sa >= 0 && sc >= 0 {
                    assert(order@[a] == old_order[sa]);
                    assert(order@[c] == old_order[sc]);
                } else if sa >= 0 {
                    assert(order@[a] == old_order[sa]);
                } else if sc >= 0 {
                    assert(order@[c] == old_order[sc]);
                }
            }
            assert forall|t: int| 0 < t < order.len() implies y@[order@[t - 1] as int] <= y@[#[trigger] order@[t] as int] by {
                if t < p {
                    assert(order@[t] == old_order[t]);
                    assert(order@[t - 1] == old_order[t - 1]);
                } else if t == p {
                    assert(order@[t - 1] == old_order[t - 1]);
                } else if t == p + 1 {
                    assert(order@[t] == old_order[t - 1]);
                } else {
                    assert(order@[t] == old_order[t - 1]);
                    assert(order@[t - 1] == old_order[t - 2]);
                }
            }
        }
        i += 1;
    }
    proof {
        reveal(is_index_order);
    }
    order
}

proof fn lemma_chain_rises(y: Seq<i128>, s: Seq<Vec2>, m: int, order: Seq<usize>, u: int, v: int)
    requires
        is_index_order(order, y.len() as int),
        s.len() == y.len(),
        chained(y, s, m, order, order.len() as int),
        m >= 0,
        0 <= u < v < order.len(),
    ensures
        y[order[v] as int] >= y[order[u] as int] + s[order[u] as int].y + m,
    decreases v - u,
{
    reveal(is_index_order);
    assert(y[order[v] as int] >= y[order[v - 1] as int] + s[order[v - 1] as int].y + m);
    if v - 1 > u {
        lemma_chain_rises(y, s, m, order, u, v - 1);
    }
}

proof fn lemma_chain_separates(y: Seq<i128>, s: Seq<Vec2>, m: int, order: Seq<usize>)
    requires
        is_index_order(order, y.len() as int),
        s.len() == y.len(),
        chained(y, s, m, order, order.len() as int),
        m >= 0,
        y.len() <= MAX_NODES,
    ensures
        row_separated(y, s, m),
{
    reveal(is_index_order);
    assert forall|i: int, j: int|
        0 <= i < y.len() && 0 <= j < y.len() && i != j implies #[trigger] y[i] + s[i].y + m <= #[trigger] y[j]
            || y[j] + s[j].y + m <= y[i] by {
        assert(order.contains(i as usize));
        assert(order.contains(j as usize));
        let ti = choose|t: int| 0 <= t < order.len() && order[t] == i as usize;
        let tj = choose|t: int| 0 <= t < order.len() && order[t] == j as usize;
        assert(ti != tj);
        if ti < tj {
            lemma_chain_rises(y, s, m, order, ti, tj);
        } else {
            lemma_chain_rises(y, s, m, order, tj, ti);
        }
    }
}

/// `ys` has one row per layer, each as long as its layer.
spec fn shaped_like<T>(ys: Seq<Vec<T>>, layers: Seq<Vec<u64>>) -> bool {
    &&& ys.len() == layers.len()
    &&& forall|k: int| 0 <= k < ys.len() ==> (#[trigger] ys[k])@.len() == layers[k]@.len()
}

/// Stacks the nodes of every layer top to bottom, a margin `my` apart.
fn initial_stacking(sz: &Vec<Vec<Vec2>>, my: u32) -> (ys: Vec<Vec<i128>>)
    requires
        rows_bounded(sz@),
    ensures
        ys.len() == sz.len(),
        forall|k: int| 0 <= k < ys.len() ==> (#[trigger] ys@[k])@.len() == sz@[k]@.len(),
        forall|k: int| 0 <= k < ys.len() ==> row_separated(#[trigger] ys@[k]@, sz@[k]@, my as int),
        ys_within(ys@, coord_bound(0)),
        forall|k: int, i: int|
            0 <= k < ys.len() && 0 <= i < ys@[k]@.len() ==> #[trigger] ys@[k]@[i] == stacked_y(sz@[k]@, my as int, i),
{
    let mut ys: Vec<Vec<i128>> = Vec::new();
    let mut k: usize = 0;
    while k < sz.len()
        invariant
            k <= sz.len(),
            rows_bounded(sz@),
            ys.len() == k,
            forall|k2: int| 0 <= k2 < k ==> (#[trigger] ys@[k2])@.len() == sz@[k2]@.len(),
            forall|k2: int| 0 <= k2 < k ==> row_separated(#[trigger] ys@[k2]@, sz@[k2]@, my as int),
            ys_within(ys@, coord_bound(0)),
            forall|k2: int, i: int|
                0 <= k2 < k && 0 <= i < ys@[k2]@.len() ==> #[trigger] ys@[k2]@[i] == stacked_y(sz@[k2]@, my as int, i),
        decreases sz.len() - k,
    {
        let row = &sz[k];
        assert(sz@[k as int]@.len() <= MAX_NODES);
        let mut out: Vec<i128> = Vec::new();
        let mut y: i128 = 0;
        let mut i: usize = 0;
        while i < row.len()
            invariant
                i <= row.len() <= MAX_NODES,
                out.len() == i,
                0 <= y <= i * 0x2_0000_0000,
                forall|j: int| 0 <= j < i ==> 0 <= #[trigger] out@[j] && out@[j] + row@[j].y + my <= y,
                forall|j1: int, j2: int|
                    0 <= j1 < j2 < i ==> #[trigger] out@[j1] + row@[j1].y + my <= #[trigger] out@[j2],
                y == stacked_y(row@, my as int, i as int),
                forall|j: int| 0 <= j < i ==> #[trigger] out@[j] == stacked_y(row@, my as int, j),
            decreases row.len() - i,
        {
            out.push(y);
            y = y + my as i128 + row[i].y as i128;
            i += 1;
        }
        proof {
            assert forall|i1: int, j1: int|
                0 <= i1 < out@.len() && 0 <= j1 < out@.len() && i1 != j1 implies #[trigger] out@[i1]
                    + row@[i1].y + my <= #[trigger] out@[j1] || out@[j1] + row@[j1].y + my <= out@[i1] by {
                if i1 < j1 {
                } else {
                }
            }
        }
        let ghost old_ys = ys@;
        ys.push(out);
        proof {
            assert(ys@[k as int]@ == out@);
            assert forall|k2: int, i2: int| 0 <= k2 < ys@.len() && 0 <= i2 < ys@[k2]@.len() implies -coord_bound(0) <= #[trigger] ys@[k2]@[i2] <= coord_bound(0) by {
                if k2 < k {
                    assert(ys@[k2] == old_ys[k2]);
                } else {
                    assert(out@[i2] + row@[i2].y + my <= y);
                }
            }
            assert forall|k2: int, i2: int|
                0 <= k2 < k + 1 && 0 <= i2 < ys@[k2]@.len() implies #[trigger] ys@[k2]@[i2] == stacked_y(sz@[k2]@, my as int, i2) by {
                if k2 < k {
                    assert(ys@[k2] == old_ys[k2]);
                }
            }
        }
        k += 1;
    }
    ys
}

/// No more than `MAX_NODES` rows, none longer than `MAX_NODES`.
spec fn rows_bounded<T>(r: Seq<Vec<T>>) -> bool {
    &&& r.len() <= MAX_NODES
    &&& forall|k: int| 0 <= k < r.len() ==> (#[trigger] r[k])@.len() <= MAX_NODES
}

/// Vertical coordinates: initial stacking, then up to `max_iterations`
/// refinement passes over the layers from last to first. In a pass each
/// node with targets in the next layer moves to its barycenter; then the
/// layer, taken in order of y, pushes every node down that starts closer
/// than the previous node's bottom plus `my`. Passes stop early once one
/// moves nothing.
fn vertical_positions(
    g: &DiGraphMap<u64, ()>,
    layers: &Vec<Vec<u64>>,
    sz: &Vec<Vec<Vec2>>,
    my: u32,
    max_iterations: usize,
) -> (ys: Vec<Vec<i128>>)
    requires
        within_bounds(layers@),
        shaped_like(sz@, layers@),
        max_iterations <= MAX_POSITION_ITERATIONS,
    ensures
        shaped_like(ys@, layers@),
        forall|k: int| 0 <= k < ys.len() ==> row_separated(#[trigger] ys@[k]@, sz@[k]@, my as int),
        ys_within(ys@, 0x10_0000_0000_0000_0000_0000_0000),
        max_iterations == 0 ==> forall|k: int, i: int|
            0 <= k < ys.len() && 0 <= i < ys@[k]@.len() ==> #[trigger] ys@[k]@[i] == stacked_y(sz@[k]@, my as int, i),
        rows(ys@) == vertical_layout(graph_edges(*g), rows(layers@), rows(sz@), my as int, max_iterations as int),
{
    proof {
        assert forall|k: int| 0 <= k < sz@.len() implies (#[trigger] sz@[k])@.len() <= MAX_NODES by {
            assert(layers@[k]@.len() <= MAX_NODES);
        }
    }
    let mut ys = initial_stacking(sz, my);
    let ghost stacked = ys@;
    let ghost es = graph_edges(*g);
    let ghost lr = rows(layers@);
    let ghost sr = rows(sz@);
    let ghost m = my as int;
    proof {
        assert forall|k: int| 0 <= k < ys@.len() implies #[trigger] rows(ys@)[k] =~= stacked_rows(sr, m)[k] by {
            assert(sr[k] == sz@[k]@);
        }
        assert(rows(ys@) =~= stacked_rows(sr, m));
    }
    let nl = layers.len();
    let ghost mut w: int = 0;
    let mut it: usize = 0;
    let mut settled = false;
    while it < max_iterations && !settled
        invariant
            es == graph_edges(*g),
            lr == rows(layers@),
            sr == rows(sz@),
            m == my as int,
            !settled ==> vertical_layout(es, lr, sr, m, max_iterations as int) == refined(es, lr, sr, rows(ys@), m, max_iterations - it),
            settled ==> vertical_layout(es, lr, sr, m, max_iterations as int) == rows(ys@),
            nl == layers.len() <= MAX_NODES,
            within_bounds(layers@),
            shaped_like(sz@, layers@),
            shaped_like(ys@, layers@),
            forall|k: int| 0 <= k < ys.len() ==> row_separated(#[trigger] ys@[k]@, sz@[k]@, my as int),
            0 <= w <= it * 0x2_0000_0000,
            it <= max_iterations <= MAX_POSITION_ITERATIONS,
            ys_within(ys@, coord_bound(w)),
            max_iterations == 0 ==> ys@ == stacked,
        decreases max_iterations - it,
    {
        let mut changed = false;
        let ghost pass_start = rows(ys@);
        let mut step: usize = 0;
        while step + 1 < nl
            invariant
                es == graph_edges(*g),
                lr == rows(layers@),
                sr == rows(sz@),
                m == my as int,
                (rows(ys@), changed) == refine_steps(es, lr, sr, pass_start, m, step as int),
                vertical_layout(es, lr, sr, m, max_iterations as int) == refined(es, lr, sr, pass_start, m, max_iterations - it),
                lr.len() == nl,
                nl == layers.len() <= MAX_NODES,
                within_bounds(layers@),
                shaped_like(sz@, layers@),
                shaped_like(ys@, layers@),
                forall|k: int| 0 <= k < ys.len() ==> row_separated(#[trigger] ys@[k]@, sz@[k]@, my as int),
                0 <= w <= it * 0x2_0000_0000 + step * 0x2_0000,
                step <= nl,
                step == 0 || step < nl,
                it < max_iterations <= MAX_POSITION_ITERATIONS,
                ys_within(ys@, coord_bound(w)),
            decreases nl - step,
        {
            let kk = nl - 2 - step;
            let len = layers[kk].len();
            let ghost base = w;
            let ghost layer_start = rows(ys@);
            let ghost changed_before = changed;
            proof {
                assert(layers@[kk as int]@.len() <= MAX_NODES);
                assert(layers@[kk + 1]@.len() <= MAX_NODES);
            }
            let mut i: usize = 0;
            while i < len
                invariant
                    nl == layers.len() <= MAX_NODES,
                    kk + 1 < nl,
                    len == layers@[kk as int]@.len() <= MAX_NODES,
                    layers@[kk + 1]@.len() <= MAX_NODES,
                    shaped_like(sz@, layers@),
                    shaped_like(ys@, layers@),
                    forall|k: int| 0 <= k < ys.len() && k != kk ==> row_separated(#[trigger] ys@[k]@, sz@[k]@, my as int),
                    0 <= base <= it * 0x2_0000_0000 + step * 0x2_0000,
                    step + 1 < nl,
                    it < MAX_POSITION_ITERATIONS,
                    i <= len,
                    w == base + i,
                    ys_within(ys@, coord_bound(w)),
                    es == graph_edges(*g),
                    lr == rows(layers@),
                    sr == rows(sz@),
                    layer_start.len() == nl,
                    rows(ys@) == layer_start.update(kk as int, pulled_row(es, lr, sr, layer_start, kk as int, i as int).0),
                    changed == (changed_before || pulled_row(es, lr, sr, layer_start, kk as int, i as int).1),
                decreases len - i,
            {
                let ghost b = coord_bound(w);
                proof {
                    assert forall|j: int| 0 <= j < ys@[kk + 1]@.len() implies -b <= #[trigger] ys@[kk + 1]@[j] <= b by {}
                }
                let pulled = barycenter(
                    g,
                    layers[kk][i],
                    sz[kk][i].y,
                    &layers[kk + 1],
                    &ys[kk + 1],
                    &sz[kk + 1],
                    Ghost(b),
                );
                let ghost before = ys@;
                match pulled {
                    Some(new_y) => {
                        if new_y != ys[kk][i] {
                            ys[kk][i] = new_y;
                            changed = true;
                        }
                    },
                    None => {},
                }
                proof {
                    assert(rows(before)[kk + 1] == layer_start[kk + 1]);
                    assert(lr[kk as int][i as int] == layers@[kk as int]@[i as int]);
                    assert(sr[kk as int][i as int] == sz@[kk as int]@[i as int]);
                    assert(lr[kk + 1] == layers@[kk + 1]@);
                    assert(sr[kk + 1] == sz@[kk + 1]@);
                    let ghost prev_row = pulled_row(es, lr, sr, layer_start, kk as int, i as int);
                    assert(rows(before) == layer_start.update(kk as int, prev_row.0));
                    assert(rows(before)[kk as int] == before[kk as int]@);
                    assert(before[kk as int]@ == prev_row.0);
                    assert(ys@[kk as int]@ =~= pulled_row(es, lr, sr, layer_start, kk as int, i as int + 1).0);
                    assert forall|k: int| 0 <= k < ys@.len() && k != kk implies (#[trigger] ys@[k])@ == before[k]@ by {}
                    let ghost target = layer_start.update(kk as int, pulled_row(es, lr, sr, layer_start, kk as int, i as int + 1).0);
                    assert forall|k: int| 0 <= k < ys@.len() implies #[trigger] rows(ys@)[k] == target[k] by {
                        if k != kk {
                            assert(rows(before)[k] == before[k]@);
                        }
                    }
                    assert(rows(ys@) =~= target);
                    assert forall|k: int, i2: int| 0 <= k < ys@.len() && 0 <= i2 < ys@[k]@.len() implies -coord_bound(w + 1) <= #[trigger] ys@[k]@[i2] <= coord_bound(w + 1) by {
                        if k != kk || i2 != i {
                            assert(ys@[k]@[i2] == before[k]@[i2]);
                        }
                    }
                    w = w + 1;
                }
                i += 1;
            }
            let ghost before = ys@;
            let ghost b = coord_bound(w);
            proof {
                assert forall|j: int| 0 <= j < ys@[kk as int]@.len() implies -b <= #[trigger] ys@[kk as int]@[j] <= b by {}
            }
            if push_apart(&mut ys[kk], &sz[kk], my, Ghost(b)) {
                changed = true;
            }
            proof {
                assert(lr[kk as int].len() == len);
                assert(sr[kk as int] == sz@[kk as int]@);
                assert(rows(before) == layer_start.update(kk as int, pulled_row(es, lr, sr, layer_start, kk as int, i as int).0));
                assert(i == len);
                assert(rows(before)[kk as int] == before[kk as int]@);
                assert(before[kk as int]@ == pulled_row(es, lr, sr, layer_start, kk as int, len as int).0);
                assert forall|k: int| 0 <= k < ys@.len() && k != kk implies (#[trigger] ys@[k])@ == before[k]@ by {}
                let ghost target = refined_layer(es, lr, sr, layer_start, m, kk as int).0;
                assert forall|k: int| 0 <= k < ys@.len() implies #[trigger] rows(ys@)[k] == target[k] by {
                    if k != kk {
                        assert(rows(before)[k] == before[k]@);
                    }
                }
                assert(rows(ys@) =~= target);
                assert forall|k: int, i2: int| 0 <= k < ys@.len() && 0 <= i2 < ys@[k]@.len() implies -coord_bound(w + len) <= #[trigger] ys@[k]@[i2] <= coord_bound(w + len) by {
                    if k != kk {
                        assert(ys@[k]@[i2] == before[k]@[i2]);
                    }
                }
                w = w + len;
            }
            step += 1;
        }
        proof {
            assert(step as int == if lr.len() >= 1 { lr.len() - 1 } else { 0 });
        }
        it += 1;
        if !changed {
            settled = true;
        }
    }
    proof {
        assert(coord_bound(w) <= 0x10_0000_0000_0000_0000_0000_0000);
        assert forall|k: int, i: int| 0 <= k < ys@.len() && 0 <= i < ys@[k]@.len() implies -0x10_0000_0000_0000_0000_0000_0000int <= #[trigger] ys@[k]@[i] <= 0x10_0000_0000_0000_0000_0000_0000int by {}
    }
    ys
}

/// Takes the entries of a layer in order of y and pushes down every one
/// that starts closer than the previous one's bottom plus `my`; nothing
/// moves up. Returns whether anything moved.
fn push_apart(y: &mut Vec<i128>, s: &Vec<Vec2>, my: u32, Ghost(b): Ghost<int>) -> (moved: bool)
    requires
        old(y).len() == s.len() <= MAX_NODES,
        0 <= b <= 0x10_0000_0000_0000_0000_0000_0000,
        forall|i: int| 0 <= i < old(y).len() ==> -b <= #[trigger] old(y)@[i] <= b,
    ensures
        final(y).len() == old(y).len(),
        row_separated(final(y)@, s@, my as int),
        forall|i: int| 0 <= i < final(y).len() ==> -b <= #[trigger] final(y)@[i] <= b + s.len() * 0x2_0000_0000,
        (final(y)@, moved) == pushed_apart(old(y)@, s@, my as int),
{
    let ghost y0 = y@;
    let len = y.len();
    let order = order_by_y(y);
    proof {
        reveal(is_index_order);
    }
    let mut moved = false;
    if len == 0 {
        return false;
    }
    let mut t: usize = 1;
    while t < len
        invariant
            len == y.len() == s.len() <= MAX_NODES,
            1 <= t <= len,
            0 <= b <= 0x10_0000_0000_0000_0000_0000_0000,
            is_index_order(order@, len as int),
            order@.len() == len,
            order@.no_duplicates(),
            forall|t2: int| 0 <= t2 < len ==> (#[trigger] order@[t2]) < len,
            chained(y@, s@, my as int, order@, t as int),
            forall|i: int| 0 <= i < len ==> -b <= #[trigger] y@[i] <= b + t * 0x2_0000_0000,
            order@ == sorted_indices(y0, len as int),
            y0.len() == len,
            (y@, moved) == pushed(y0, s@, my as int, order@, t as int),
        decreases len - t,
    {
        let prev = order[t - 1];
        let cur = order[t];
        assert(-b <= y@[prev as int] <= b + t * 0x2_0000_0000);
        let need = y[prev] + s[prev].y as i128 + my as i128;
        let ghost before = y@;
        if y[cur] < need {
            y.set(cur, need);
            moved = true;
        }
        proof {
            assert forall|i: int| 0 <= i < len implies -b <= #[trigger] y@[i] <= b + (t + 1) * 0x2_0000_0000 by {
                if i != cur {
                    assert(y@[i] == before[i]);
                }
            }

        }
        t += 1;
    }
    proof {
        lemma_chain_separates(y@, s@, my as int, order@);
    }
    moved
}

/// Same-layer nodes never overlap: of any two distinct entries of one
/// layer, one starts at least the other's height plus `my` below the other.
pub open spec fn layers_separated<S: NodeSizes>(
    pos: Map<u64, Point>,
    ls: Seq<Vec<u64>>,
    sizes: &S,
    my: int,
) -> bool {
    forall|k: int, i: int, j: int|
        #![trigger ls[k]@[i], ls[k]@[j]]
        in_layers(ls, k, i) && in_layers(ls, k, j) && i != j ==> pos[ls[k]@[i]].y + sizes.size_of(
            ls[k]@[i],
        ).y + my <= pos[ls[k]@[j]].y || pos[ls[k]@[j]].y + sizes.size_of(ls[k]@[j]).y + my
            <= pos[ls[k]@[i]].y
}

/// Whether `n` is an entry of the layers.
pub open spec fn placed(ls: Seq<Vec<u64>>, n: u64) -> bool {
    exists|k: int, i: int| in_layers(ls, k, i) && #[trigger] ls[k]@[i] == n
}

/// The y coordinates that refinement gives the layers `ls` before they are
/// shifted to start at 0.
pub open spec fn refined_ys<S: NodeSizes>(
    es: Set<(u64, u64)>,
    ls: Seq<Vec<u64>>,
    sizes: &S,
    my: int,
    n: int,
) -> Seq<Seq<i128>> {
    vertical_layout(es, rows(ls), size_rows(sizes, rows(ls)), my, n)
}

/// `pos` is the layout of the layers `ls`: exactly their entries are
/// placed; each x is its column position; the y coordinates are those of
/// [`refined_ys`] shifted so that the topmost is 0.
pub open spec fn is_positioning<S: NodeSizes>(
    pos: Map<u64, Point>,
    ls: Seq<Vec<u64>>,
    es: Set<(u64, u64)>,
    sizes: &S,
    margin: Vec2,
    n: int,
) -> bool {
    &&& forall|v: u64| #[trigger] pos.contains_key(v) <==> placed(ls, v)
    &&& forall|k: int, i: int|
        in_layers(ls, k, i) ==> (#[trigger] pos[ls[k]@[i]]).x == node_x(sizes, ls, margin.x as int, k, i)
            && pos[ls[k]@[i]].y >= 0
    &&& (exists|k: int, i: int| in_layers(ls, k, i)) ==> exists|k: int, i: int|
        in_layers(ls, k, i) && (#[trigger] pos[ls[k]@[i]]).y == 0
    &&& forall|k1: int, i1: int, k2: int, i2: int|
        in_layers(ls, k1, i1) && in_layers(ls, k2, i2) ==> (#[trigger] pos[ls[k1]@[i1]]).y
            - (#[trigger] pos[ls[k2]@[i2]]).y == refined_ys(es, ls, sizes, margin.y as int, n)[k1][i1]
            - refined_ys(es, ls, sizes, margin.y as int, n)[k2][i2]
}

/// The positions of a layout are determined by the layers, the edges, the
/// sizes and the configuration: two position maps that both are their
/// layout are equal.
pub proof fn lemma_positioning_is_unique<S: NodeSizes>(
    p1: Map<u64, Point>,
    p2: Map<u64, Point>,
    ls: Seq<Vec<u64>>,
    es: Set<(u64, u64)>,
    sizes: &S,
    margin: Vec2,
    n: int,
)
    requires
        is_positioning(p1, ls, es, sizes, margin, n),
        is_positioning(p2, ls, es, sizes, margin, n),
    ensures
        p1 == p2,
{
    assert forall|v: u64| p1.contains_key(v) implies p1[v] == p2[v] by {
        let (k, i) = choose|k: int, i: int| in_layers(ls, k, i) && #[trigger] ls[k]@[i] == v;
        let (ka, ia) = choose|ka: int, ia: int| in_layers(ls, ka, ia) && (#[trigger] p1[ls[ka]@[ia]]).y == 0;
        let (kb, ib) = choose|kb: int, ib: int| in_layers(ls, kb, ib) && (#[trigger] p2[ls[kb]@[ib]]).y == 0;
        let a = ls[ka]@[ia];
        let b = ls[kb]@[ib];
        assert(p1[v].y - p1[a].y == p2[v].y - p2[a].y);
        assert(p1[b].y - p1[a].y == p2[b].y - p2[a].y);
        assert(p1[b].y >= 0 && p2[a].y >= 0);
    }
    assert(p1 =~= p2);
}

/// Entry `(k2, i2)` comes before `(k, i)` in row-major order.
spec fn earlier(k2: int, i2: int, k: int, i: int) -> bool {
    k2 < k || (k2 == k && i2 < i)
}

/// Assigns a position to every entry of the layers (see
/// [`horizontal_positions`] and [`vertical_positions`]), then shifts all
/// of them so that the topmost starts at y = 0.
pub fn assign_coordinates<S: NodeSizes>(
    g: &DiGraphMap<u64, ()>,
    layers: &Vec<Vec<u64>>,
    sizes: &S,
    margin: Vec2,
    max_iterations: usize,
) -> (r: HashMap<u64, Point>)
    requires
        within_bounds(layers@),
        entries_distinct(layers@),
        max_iterations <= MAX_POSITION_ITERATIONS,
    ensures
        is_positioning(r@, layers@, graph_edges(*g), sizes, margin, max_iterations as int),
        layers_separated(r@, layers@, sizes, margin.y as int),
        max_iterations == 0 ==> forall|k: int, i: int|
            in_layers(layers@, k, i) ==> (#[trigger] r@[layers@[k]@[i]]).y == stack_top(
                sizes,
                layers@[k]@,
                margin.y as int,
                i,
            ),
{
    let sz = lookup_sizes(layers, sizes);
    let xs = horizontal_positions(layers, &sz, sizes, margin.x);
    let ys = vertical_positions(g, layers, &sz, margin.y, max_iterations);
    let ghost ls = layers@;

    // The topmost coordinate.
    let mut min_y: i128 = 0;
    let mut found = false;
    let mut k: usize = 0;
    while k < ys.len()
        invariant
            k <= ys.len(),
            shaped_like(ys@, ls),
            ys_within(ys@, 0x10_0000_0000_0000_0000_0000_0000),
            -0x10_0000_0000_0000_0000_0000_0000 <= min_y <= 0x10_0000_0000_0000_0000_0000_0000,
            found ==> exists|k2: int, i2: int|
                earlier(k2, i2, k as int, 0) && in_layers(ls, k2, i2) && #[trigger] ys@[k2]@[i2] == min_y,
            !found ==> forall|k2: int, i2: int| !(earlier(k2, i2, k as int, 0) && #[trigger] in_layers(ls, k2, i2)),
            forall|k2: int, i2: int|
                earlier(k2, i2, k as int, 0) && in_layers(ls, k2, i2) ==> min_y <= #[trigger] ys@[k2]@[i2],
        decreases ys.len() - k,
    {
        let row = &ys[k];
        let mut i: usize = 0;
        while i < row.len()
            invariant
                k < ys.len(),
                i <= row.len(),
                row@ == ys@[k as int]@,
                shaped_like(ys@, ls),
                ys_within(ys@, 0x10_0000_0000_0000_0000_0000_0000),
                -0x10_0000_0000_0000_0000_0000_0000 <= min_y <= 0x10_0000_0000_0000_0000_0000_0000,
                found ==> exists|k2: int, i2: int|
                    earlier(k2, i2, k as int, i as int) && in_layers(ls, k2, i2) && #[trigger] ys@[k2]@[i2] == min_y,
                !found ==> forall|k2: int, i2: int| !(earlier(k2, i2, k as int, i as int) && #[trigger] in_layers(ls, k2, i2)),
                forall|k2: int, i2: int|
                    earlier(k2, i2, k as int, i as int) && in_layers(ls, k2, i2) ==> min_y <= #[trigger] ys@[k2]@[i2],
            decreases row.len() - i,
        {
            if !found || row[i] < min_y {
                min_y = row[i];
                found = true;
            }
            i += 1;
        }
        k += 1;
    }

    let mut positions: HashMap<u64, Point> = HashMap::new();
    let mut k: usize = 0;
    while k < layers.len()
        invariant
            k <= layers.len(),
            ls == layers@,
            entries_distinct(ls),
            shaped_like(ys@, ls),
            shaped_like(xs@, ls),
            ys_within(ys@, 0x10_0000_0000_0000_0000_0000_0000),
            -0x10_0000_0000_0000_0000_0000_0000 <= min_y <= 0x10_0000_0000_0000_0000_0000_0000,
            forall|n: u64|
                #[trigger] positions@.contains_key(n) <==> exists|k2: int, i2: int|
                    earlier(k2, i2, k as int, 0) && in_layers(ls, k2, i2) && #[trigger] ls[k2]@[i2] == n,
            forall|k2: int, i2: int|
                earlier(k2, i2, k as int, 0) && in_layers(ls, k2, i2) ==> #[trigger] positions@[ls[k2]@[i2]]
                    == (Point { x: xs@[k2]@[i2], y: (ys@[k2]@[i2] - min_y) as i128 }),
        decreases layers.len() - k,
    {
        let row = &layers[k];
        let mut i: usize = 0;
        while i < row.len()
            invariant
                k < layers.len(),
                i <= row.len(),
                row@ == ls[k as int]@,
                ls == layers@,
                entries_distinct(ls),
                shaped_like(ys@, ls),
                shaped_like(xs@, ls),
                ys_within(ys@, 0x10_0000_0000_0000_0000_0000_0000),
                -0x10_0000_0000_0000_0000_0000_0000 <= min_y <= 0x10_0000_0000_0000_0000_0000_0000,
                forall|n: u64|
                    #[trigger] positions@.contains_key(n) <==> exists|k2: int, i2: int|
                        earlier(k2, i2, k as int, i as int) && in_layers(ls, k2, i2) && #[trigger] ls[k2]@[i2] == n,
                forall|k2: int, i2: int|
                    earlier(k2, i2, k as int, i as int) && in_layers(ls, k2, i2) ==> #[trigger] positions@[ls[k2]@[i2]]
                        == (Point { x: xs@[k2]@[i2], y: (ys@[k2]@[i2] - min_y) as i128 }),
            decreases row.len() - i,
        {
            let ghost old_positions = positions@;
            let y = ys[k][i] - min_y;
            positions.insert(row[i], Point::new(xs[k][i], y));
            proof {
                assert forall|k2: int, i2: int|
                    earlier(k2, i2, k as int, i as int + 1) && in_layers(ls, k2, i2) implies #[trigger] positions@[ls[k2]@[i2]]
                        == (Point { x: xs@[k2]@[i2], y: (ys@[k2]@[i2] - min_y) as i128 }) by {
                    if earlier(k2, i2, k as int, i as int) {
                        assert(ls[k2]@[i2] != ls[k as int]@[i as int]);
                    }
                }
                assert forall|n: u64|
                    #[trigger] positions@.contains_key(n) <==> exists|k2: int, i2: int|
                        earlier(k2, i2, k as int, i as int + 1) && in_layers(ls, k2, i2) && #[trigger] ls[k2]@[i2] == n by {
                    if n == row@[i as int] {
                        assert(earlier(k as int, i as int, k as int, i as int + 1) && in_layers(ls, k as int, i as int) && ls[k as int]@[i as int] == n);
                    }
                    if positions@.contains_key(n) && n != row@[i as int] {
                        assert(old_positions.contains_key(n));
                    }
                }
            }
            i += 1;
        }
        proof {
            assert forall|n: u64|
                #[trigger] positions@.contains_key(n) <==> exists|k2: int, i2: int|
                    earlier(k2, i2, k as int + 1, 0) && in_layers(ls, k2, i2) && #[trigger] ls[k2]@[i2] == n by {
                if positions@.contains_key(n) {
                    let (k2, i2) = choose|k2: int, i2: int| earlier(k2, i2, k as int, row.len() as int) && in_layers(ls, k2, i2) && #[trigger] ls[k2]@[i2] == n;
                    assert(earlier(k2, i2, k as int + 1, 0));
                }
                if exists|k2: int, i2: int| earlier(k2, i2, k as int + 1, 0) && in_layers(ls, k2, i2) && #[trigger] ls[k2]@[i2] == n {
                    let (k2, i2) = choose|k2: int, i2: int| earlier(k2, i2, k as int + 1, 0) && in_layers(ls, k2, i2) && #[trigger] ls[k2]@[i2] == n;
                    assert(earlier(k2, i2, k as int, row.len() as int));
                }
            }
            assert forall|k2: int, i2: int|
                earlier(k2, i2, k as int + 1, 0) && in_layers(ls, k2, i2) implies #[trigger] positions@[ls[k2]@[i2]]
                    == (Point { x: xs@[k2]@[i2], y: (ys@[k2]@[i2] - min_y) as i128 }) by {
                assert(earlier(k2, i2, k as int, row.len() as int));
            }
        }
        k += 1;
    }
    proof {
        assert forall|n: u64| #[trigger] positions@.contains_key(n) <==> placed(ls, n) by {
            if placed(ls, n) {
                let (k2, i2) = choose|k2: int, i2: int| in_layers(ls, k2, i2) && #[trigger] ls[k2]@[i2] == n;
                assert(earlier(k2, i2, ls.len() as int, 0));
            }
        }
        assert forall|k2: int, i2: int| in_layers(ls, k2, i2) implies (#[trigger] positions@[ls[k2]@[i2]]).x == node_x(
            sizes,
            ls,
            margin.x as int,
            k2,
            i2,
        ) && positions@[ls[k2]@[i2]].y >= 0 by {
            assert(earlier(k2, i2, ls.len() as int, 0));
            assert(earlier(k2, i2, ys.len() as int, 0));
        }
        assert forall|k2: int, i: int, j: int|
            #![trigger ls[k2]@[i], ls[k2]@[j]]
            in_layers(ls, k2, i) && in_layers(ls, k2, j) && i != j implies positions@[ls[k2]@[i]].y + sizes.size_of(
                ls[k2]@[i],
            ).y + margin.y <= positions@[ls[k2]@[j]].y || positions@[ls[k2]@[j]].y + sizes.size_of(ls[k2]@[j]).y + margin.y
                <= positions@[ls[k2]@[i]].y by {
            assert(earlier(k2, i, ls.len() as int, 0));
            assert(earlier(k2, j, ls.len() as int, 0));
            assert(row_separated(ys@[k2]@, sz@[k2]@, margin.y as int));
            assert(sz@[k2]@[i] == sizes.size_of(ls[k2]@[i]));
            assert(sz@[k2]@[j] == sizes.size_of(ls[k2]@[j]));
            assert(ys@[k2]@[i] + sz@[k2]@[i].y + margin.y <= ys@[k2]@[j] || ys@[k2]@[j] + sz@[k2]@[j].y + margin.y <= ys@[k2]@[i]);
        }
        if max_iterations == 0 {
            assert forall|k2: int, i2: int| in_layers(ls, k2, i2) implies (#[trigger] positions@[ls[k2]@[i2]]).y == stack_top(
                sizes,
                ls[k2]@,
                margin.y as int,
                i2,
            ) by {
                assert(earlier(k2, i2, ls.len() as int, 0));
                if found {
                    let (k3, i3) = choose|k3: int, i3: int|
                        earlier(k3, i3, ys.len() as int, 0) && in_layers(ls, k3, i3) && #[trigger] ys@[k3]@[i3] == min_y;
                    lemma_stacked_y_nonneg(sz@[k3]@, margin.y as int, i3);
                    assert(earlier(k2, 0, ys.len() as int, 0));
                    assert(in_layers(ls, k2, 0));
                    assert(ys@[k2]@[0] == stacked_y(sz@[k2]@, margin.y as int, 0));
                    assert(min_y <= ys@[k2]@[0]);
                }
                assert(earlier(k2, i2, ys.len() as int, 0));
                assert(found);
                lemma_stacked_y_matches(sizes, ls[k2]@, sz@[k2]@, margin.y as int, i2);
            }
        }
        let vl = vertical_layout(graph_edges(*g), rows(ls), size_rows(sizes, rows(ls)), margin.y as int, max_iterations as int);
        assert forall|k2: int| 0 <= k2 < ls.len() implies #[trigger] rows(sz@)[k2] =~= size_rows(sizes, rows(ls))[k2] by {
            assert forall|i2: int| 0 <= i2 < sz@[k2]@.len() implies sz@[k2]@[i2] == sizes.size_of(ls[k2]@[i2]) by {
                assert(in_layers(ls, k2, i2));
            }
        }
        assert(rows(sz@) =~= size_rows(sizes, rows(ls)));
        assert forall|k2: int, i2: int| in_layers(ls, k2, i2) implies (#[trigger] positions@[ls[k2]@[i2]]).y == vl[k2][i2] - min_y by {
            assert(earlier(k2, i2, ls.len() as int, 0));
            assert(rows(ys@)[k2] == ys@[k2]@);
        }
        assert(vl == refined_ys(graph_edges(*g), ls, sizes, margin.y as int, max_iterations as int));
        if exists|k2: int, i2: int| in_layers(ls, k2, i2) {
            let (k0, i0) = choose|k2: int, i2: int| in_layers(ls, k2, i2);
            assert(earlier(k0, i0, ys.len() as int, 0));
            assert(found);
            let (k2, i2) = choose|k2: int, i2: int|
                earlier(k2, i2, ys.len() as int, 0) && in_layers(ls, k2, i2) && #[trigger] ys@[k2]@[i2] == min_y;
            assert(earlier(k2, i2, ls.len() as int, 0));
            assert(positions@[ls[k2]@[i2]].y == 0);
        }
    }
    positions
}

} // verus!
