use graph_layout::crossings::{count_crossings, crossing_pass, minimize_crossings};
use graph_layout::layers::assign_layers;
use graph_layout::{LayeredLayout, LayeredLayoutError, Point, Vec2};
use petgraph::graphmap::DiGraphMap;
use std::collections::HashMap;

const A: u64 = 0;
const B: u64 = 1;
const C: u64 = 2;
const D: u64 = 3;

fn graph(nodes: &[u64], edges: &[(u64, u64)]) -> DiGraphMap<u64, ()> {
    let mut g = DiGraphMap::new();
    for &n in nodes {
        g.add_node(n);
    }
    for &(a, b) in edges {
        g.add_edge(a, b, ());
    }
    g
}

fn uniform_sizes(nodes: &[u64], w: u32, h: u32) -> HashMap<u64, Vec2> {
    nodes.iter().map(|&n| (n, Vec2::new(w, h))).collect()
}

fn layer_index(layers: &[Vec<u64>], n: u64) -> usize {
    layers.iter().position(|l| l.contains(&n)).expect("node is placed")
}

fn brute_force_crossings(g: &DiGraphMap<u64, ()>, layers: &[Vec<u64>]) -> u128 {
    let mut count = 0;
    for k in 0..layers.len().saturating_sub(1) {
        let (upper, lower) = (&layers[k], &layers[k + 1]);
        for i in 0..upper.len() {
            for j in (i + 1)..upper.len() {
                for p in 0..lower.len() {
                    for q in 0..lower.len() {
                        if g.contains_edge(upper[i], lower[p])
                            && g.contains_edge(upper[j], lower[q])
                            && p > q
                        {
                            count += 1;
                        }
                    }
                }
            }
        }
    }
    count
}

fn diamond() -> DiGraphMap<u64, ()> {
    graph(&[A, B, C, D], &[(A, B), (A, C), (B, D), (C, D)])
}

#[test]
fn diamond_layers_and_positions() {
    let g = diamond();
    let engine = LayeredLayout::new(Vec2::new(20, 20));
    let layers = engine.compute_layers(&g).unwrap();
    assert_eq!(layers.nodes.len(), 3);
    assert_eq!(layers.nodes[0], vec![A]);
    let mut middle = layers.nodes[1].clone();
    middle.sort();
    assert_eq!(middle, vec![B, C]);
    assert_eq!(layers.nodes[2], vec![D]);
    assert_eq!(layers.crossings, 0);

    let sizes = uniform_sizes(&[A, B, C, D], 100, 50);
    let pos = engine.compute_positions(&layers, &sizes);
    assert_eq!(pos[&D].x, 240);
    assert_eq!(pos[&A].x, 0);
    assert_eq!(pos[&B].x, 120);
    assert_eq!(pos[&C].x, 120);
    assert!((pos[&B].y - pos[&C].y).abs() >= 70);
}

#[test]
fn three_cycle_is_refused() {
    let g = graph(&[A, B, C], &[(A, B), (B, C), (C, A)]);
    let engine = LayeredLayout::default();
    match engine.compute_layers(&g) {
        Err(LayeredLayoutError::GraphHasCycle(n)) => assert!([A, B, C].contains(&n)),
        Ok(_) => panic!("a cyclic graph must not be laid out"),
    }
    let sizes = uniform_sizes(&[A, B, C], 10, 10);
    assert!(engine.layout(&g, &sizes).is_err());
}

#[test]
fn self_loop_is_a_cycle() {
    let g = graph(&[A, B], &[(A, B), (B, B)]);
    let r = LayeredLayout::default().compute_layers(&g);
    assert!(matches!(r, Err(LayeredLayoutError::GraphHasCycle(B))));
}

#[test]
fn cycle_behind_a_dag_part_is_refused() {
    let g = graph(&[A, B, C, D], &[(A, B), (B, C), (C, D), (D, B)]);
    match LayeredLayout::default().compute_layers(&g) {
        Err(LayeredLayoutError::GraphHasCycle(n)) => assert!([B, C, D].contains(&n)),
        Ok(_) => panic!("a cyclic graph must not be laid out"),
    }
}

#[test]
fn single_isolated_node() {
    let g = graph(&[7], &[]);
    let engine = LayeredLayout::default();
    let layers = engine.compute_layers(&g).unwrap();
    assert_eq!(layers.nodes, vec![vec![7]]);
    let sizes = uniform_sizes(&[7], 30, 40);
    let pos = engine.compute_positions(&layers, &sizes);
    assert_eq!(pos.len(), 1);
    assert_eq!(pos[&7], Point::new(0, 0));
}

#[test]
fn two_nodes_in_one_layer_keep_the_margin() {
    let g = graph(&[A, B], &[]);
    let engine = LayeredLayout::new(Vec2::new(20, 10));
    let layers = engine.compute_layers(&g).unwrap();
    assert_eq!(layers.nodes.len(), 1);
    assert_eq!(layers.nodes[0].len(), 2);
    let sizes = uniform_sizes(&[A, B], 50, 50);
    let pos = engine.compute_positions(&layers, &sizes);
    assert!((pos[&A].y - pos[&B].y).abs() >= 60);
    assert_eq!(pos[&A].y.min(pos[&B].y), 0);
}

#[test]
fn empty_graph_gives_one_empty_layer() {
    let g = graph(&[], &[]);
    let engine = LayeredLayout::default();
    let layers = engine.compute_layers(&g).unwrap();
    assert_eq!(layers.nodes, vec![Vec::<u64>::new()]);
    assert_eq!(layers.crossings, 0);
    let pos = engine.compute_positions(&layers, &HashMap::new());
    assert!(pos.is_empty());
}

#[test]
fn every_edge_points_forward_and_layers_partition_the_nodes() {
    let nodes: Vec<u64> = (0..9).collect();
    let edges = [(0, 3), (1, 3), (1, 4), (2, 5), (3, 6), (4, 6), (4, 7), (5, 8), (0, 8), (2, 7)];
    let g = graph(&nodes, &edges);
    let layers = LayeredLayout::default().compute_layers(&g).unwrap();
    let mut all: Vec<u64> = layers.nodes.iter().flatten().copied().collect();
    all.sort();
    assert_eq!(all, nodes);
    for (a, b) in edges {
        assert!(layer_index(&layers.nodes, a) < layer_index(&layers.nodes, b));
    }
}

#[test]
fn nodes_are_pulled_up_to_their_successors() {
    // A has an edge straight into the last layer; it moves next to it.
    let g = graph(&[A, B, C, D], &[(B, C), (C, D), (A, D)]);
    let layers = assign_layers(&g).unwrap();
    assert_eq!(layer_index(&layers, B), 0);
    assert_eq!(layer_index(&layers, C), 1);
    assert_eq!(layer_index(&layers, D), 2);
    assert_eq!(layer_index(&layers, A), 1);
}

#[test]
fn disconnected_components_share_layers() {
    let g = graph(&[A, B, C, D], &[(A, B), (C, D)]);
    let layers = assign_layers(&g).unwrap();
    assert_eq!(layers.len(), 2);
    assert_eq!(layer_index(&layers, A), 0);
    assert_eq!(layer_index(&layers, C), 0);
    assert_eq!(layer_index(&layers, B), 1);
    assert_eq!(layer_index(&layers, D), 1);
}

#[test]
fn crossing_count_matches_brute_force() {
    // 0 -> 3 and 1 -> 2 cross when the layers read [0, 1] and [2, 3].
    let g = graph(&[0, 1, 2, 3], &[(0, 3), (1, 2)]);
    let layers = vec![vec![0, 1], vec![2, 3]];
    assert_eq!(count_crossings(&g, &layers), 1);
    assert_eq!(brute_force_crossings(&g, &layers), 1);
    let untangled = vec![vec![0, 1], vec![3, 2]];
    assert_eq!(count_crossings(&g, &untangled), 0);
}

#[test]
fn shared_target_is_no_crossing() {
    let g = graph(&[0, 1, 2], &[(0, 2), (1, 2)]);
    assert_eq!(count_crossings(&g, &vec![vec![0, 1], vec![2]]), 0);
}

#[test]
fn crossing_passes_never_increase_the_count() {
    let g = graph(
        &[0, 1, 2, 3, 4, 5, 6, 7],
        &[(0, 7), (1, 6), (2, 5), (3, 4), (0, 4), (3, 7)],
    );
    let mut layers = vec![vec![0, 1, 2, 3], vec![4, 5, 6, 7]];
    let mut previous = count_crossings(&g, &layers);
    assert_eq!(previous, brute_force_crossings(&g, &layers));
    for _ in 0..10 {
        let improved = crossing_pass(&g, &mut layers);
        let now = count_crossings(&g, &layers);
        assert!(now <= previous);
        previous = now;
        if !improved {
            break;
        }
    }
    let mut upper = layers[0].clone();
    upper.sort();
    assert_eq!(upper, vec![0, 1, 2, 3]);
    let (best, count) = minimize_crossings(&g, vec![vec![0, 1, 2, 3], vec![4, 5, 6, 7]], 10);
    assert_eq!(count, brute_force_crossings(&g, &best));
    assert!(count < 8);
}

#[test]
fn reported_crossings_equal_brute_force_after_minimization() {
    let nodes: Vec<u64> = (0..8).collect();
    let edges = [(0, 5), (0, 6), (1, 4), (2, 7), (3, 4), (4, 7), (5, 7), (6, 7), (1, 6)];
    let g = graph(&nodes, &edges);
    let layers = LayeredLayout::default().compute_layers(&g).unwrap();
    assert_eq!(layers.crossings, brute_force_crossings(&g, &layers.nodes));
}

#[test]
fn ties_put_the_smaller_node_first() {
    // No edges: every swap keeps zero crossings, so the order becomes sorted.
    let g = graph(&[5, 3, 9, 1], &[]);
    let (layers, count) = minimize_crossings(&g, vec![vec![5, 3, 9, 1]], 10);
    assert_eq!(layers, vec![vec![1, 3, 5, 9]]);
    assert_eq!(count, 0);
}

#[test]
fn zero_crossing_iterations_keep_the_order() {
    let g = graph(&[5, 3], &[]);
    let (layers, _) = minimize_crossings(&g, vec![vec![5, 3]], 0);
    assert_eq!(layers, vec![vec![5, 3]]);
}

#[test]
fn layout_is_deterministic() {
    let nodes: Vec<u64> = (0..8).collect();
    let edges = [(0, 5), (0, 6), (1, 4), (2, 7), (3, 4), (4, 7), (5, 7), (6, 7), (1, 6)];
    let mut sizes = HashMap::new();
    for &n in &nodes {
        sizes.insert(n, Vec2::new(40 + 7 * n as u32, 20 + 3 * n as u32));
    }
    let engine = LayeredLayout::new(Vec2::new(15, 5));
    let first = engine.layout(&graph(&nodes, &edges), &sizes).unwrap();
    for _ in 0..5 {
        let again = engine.layout(&graph(&nodes, &edges), &sizes).unwrap();
        assert_eq!(again, first);
    }
}

#[test]
fn missing_size_counts_as_zero() {
    let g = diamond();
    let engine = LayeredLayout::new(Vec2::new(20, 20));
    let layers = engine.compute_layers(&g).unwrap();
    let mut sizes = uniform_sizes(&[A, B, C, D], 100, 50);
    sizes.remove(&B);
    let pos = engine.compute_positions(&layers, &sizes);
    assert_eq!(pos.len(), 4);
    // B is centred in a column that C keeps 100 wide.
    assert_eq!(pos[&B].x, 120 + 50);
    assert_eq!(pos[&C].x, 120);
    let (top, bottom) = if pos[&B].y < pos[&C].y { (B, C) } else { (C, B) };
    let top_height = if top == B { 0 } else { 50 };
    assert!(pos[&bottom].y >= pos[&top].y + top_height + 20);
}

#[test]
fn columns_are_as_wide_as_their_widest_node() {
    let g = graph(&[A, B, C], &[(A, B), (A, C)]);
    let engine = LayeredLayout::new(Vec2::new(10, 0));
    let layers = engine.compute_layers(&g).unwrap();
    let mut sizes = HashMap::new();
    sizes.insert(A, Vec2::new(30, 10));
    sizes.insert(B, Vec2::new(60, 10));
    sizes.insert(C, Vec2::new(21, 10));
    let pos = engine.compute_positions(&layers, &sizes);
    assert_eq!(pos[&A].x, 0);
    assert_eq!(pos[&B].x, 40);
    // (60 - 21) / 2 rounds down to 19.
    assert_eq!(pos[&C].x, 59);
}

#[test]
fn nodes_without_successors_stack_from_the_top() {
    let g = graph(&[A, B, C], &[]);
    let mut engine = LayeredLayout::new(Vec2::new(0, 5));
    engine.max_position_iterations = 0;
    let layers = engine.compute_layers(&g).unwrap();
    let sizes = uniform_sizes(&[A, B, C], 10, 10);
    let pos = engine.compute_positions(&layers, &sizes);
    let mut ys: Vec<i128> = [A, B, C].iter().map(|n| pos[n].y).collect();
    ys.sort();
    assert_eq!(ys, vec![0, 15, 30]);
}

#[test]
fn a_node_moves_level_with_its_only_target() {
    // C and D stack in the last layer; B, alone in its layer, moves to
    // D's height.
    let g = graph(&[A, B, C, D], &[(A, C), (B, D)]);
    let engine = LayeredLayout::new(Vec2::new(10, 10));
    let layers = engine.compute_layers(&g).unwrap();
    let sizes = uniform_sizes(&[A, B, C, D], 20, 20);
    let pos = engine.compute_positions(&layers, &sizes);
    assert_eq!(pos[&A].y, pos[&C].y);
    assert_eq!(pos[&B].y, pos[&D].y);
}

#[test]
fn same_layer_nodes_never_overlap() {
    let nodes: Vec<u64> = (0..10).collect();
    let edges = [(0, 5), (1, 5), (2, 5), (3, 5), (4, 5), (5, 6), (5, 7), (5, 8), (5, 9)];
    let g = graph(&nodes, &edges);
    let engine = LayeredLayout::new(Vec2::new(10, 7));
    let layers = engine.compute_layers(&g).unwrap();
    let mut sizes = HashMap::new();
    for &n in &nodes {
        sizes.insert(n, Vec2::new(30, 11 + 13 * (n as u32 % 4)));
    }
    let pos = engine.compute_positions(&layers, &sizes);
    for layer in &layers.nodes {
        for &a in layer {
            for &b in layer {
                if a != b {
                    let (pa, pb) = (pos[&a].y, pos[&b].y);
                    let (ha, hb) = (sizes[&a].y as i128, sizes[&b].y as i128);
                    assert!(pa + ha + 7 <= pb || pb + hb + 7 <= pa);
                }
            }
        }
    }
    assert_eq!(pos.values().map(|p| p.y).min(), Some(0));
}

#[test]
fn layout_places_every_node() {
    let g = diamond();
    let sizes = uniform_sizes(&[A, B, C, D], 100, 50);
    let engine = LayeredLayout::new(Vec2::new(20, 20));
    let pos = engine.layout(&g, &sizes).unwrap();
    assert_eq!(pos.len(), 4);
    assert_eq!(pos[&D].x, 240);
}

#[test]
fn defaults() {
    let d = LayeredLayout::default();
    assert_eq!(d.margin, Vec2::new(20, 20));
    assert_eq!(d.max_crossing_iterations, 10);
    assert_eq!(d.max_position_iterations, 50);
    let n = LayeredLayout::new(Vec2::new(3, 4));
    assert_eq!(n.margin, Vec2::new(3, 4));
    assert_eq!(n.max_crossing_iterations, 10);
    assert_eq!(n.max_position_iterations, 50);
}

#[test]
fn vector_helpers() {
    assert_eq!(Vec2::zero(), Vec2::new(0, 0));
    assert_eq!(Vec2::new(3, 9).max(Vec2::new(5, 2)), Vec2::new(5, 9));
    assert_eq!(Vec2::new(3, 9).sum(), 12);
    assert_eq!(Vec2::new(u32::MAX, u32::MAX).sum(), 2 * u32::MAX as u64);
    let p = Point::new(-4, 7);
    assert_eq!((p.x, p.y), (-4, 7));
}

#[test]
fn oversized_graphs_are_declined() {
    let engine = LayeredLayout::default();
    let small = engine.try_compute_layers(&diamond());
    assert!(matches!(small, Some(Ok(_))));
    let cyclic = graph(&[A, B], &[(A, B), (B, A)]);
    assert!(matches!(engine.try_compute_layers(&cyclic), Some(Err(_))));
    let mut big = DiGraphMap::new();
    for n in 0..65537u64 {
        big.add_node(n);
    }
    assert!(engine.try_compute_layers(&big).is_none());
}

#[test]
fn pull_target_is_the_mean_centre_rounded_down() {
    // B points at C (centre 5) and D (centre 20 + 6 = 26): mean 15.5, which
    // rounds down to 15, less half of B's height (11 / 2 = 5).
    let g = graph(&[B, C, D], &[(B, C), (B, D)]);
    let engine = LayeredLayout::new(Vec2::new(10, 10));
    let layers = engine.compute_layers(&g).unwrap();
    assert_eq!(layers.nodes, vec![vec![B], vec![C, D]]);
    let mut sizes = HashMap::new();
    sizes.insert(B, Vec2::new(10, 11));
    sizes.insert(C, Vec2::new(10, 10));
    sizes.insert(D, Vec2::new(10, 12));
    let pos = engine.compute_positions(&layers, &sizes);
    assert_eq!(pos[&C].y, 0);
    assert_eq!(pos[&D].y, 20);
    assert_eq!(pos[&B].y, 10);
}

#[test]
fn a_tall_node_pulled_above_the_top_shifts_everything_down() {
    // B is pulled to 15 - 25 = -10; normalisation moves it to 0.
    let g = graph(&[B, C, D], &[(B, C), (B, D)]);
    let engine = LayeredLayout::new(Vec2::new(10, 10));
    let layers = engine.compute_layers(&g).unwrap();
    let mut sizes = HashMap::new();
    sizes.insert(B, Vec2::new(10, 50));
    sizes.insert(C, Vec2::new(10, 10));
    sizes.insert(D, Vec2::new(10, 12));
    let pos = engine.compute_positions(&layers, &sizes);
    assert_eq!(pos[&B].y, 0);
    assert_eq!(pos[&C].y, 10);
    assert_eq!(pos[&D].y, 30);
}
