use dagrers::{assign_layers, order_by_barycenter, DagreLayout, Digraph, LayoutOptions, RankDir};
use petgraph::graph::{DiGraph, NodeIndex};
use petgraph::Graph;

fn half(v: u128) -> f32 {
    v as f32 / 2.0
}

fn ids(nodes: &[NodeIndex]) -> Vec<usize> {
    nodes.iter().map(|n| n.index()).collect()
}

#[test]
fn test_simple_chain() {
    let mut graph = Graph::new();
    let a = graph.add_node("A");
    let b = graph.add_node("B");
    let c = graph.add_node("C");

    graph.add_edge(a, b, ());
    graph.add_edge(b, c, ());

    let layout = DagreLayout::new();
    let result = layout.compute(&graph);

    assert_eq!(result.layers.len(), 3);
    assert_eq!(result.layers[0], vec![a.index()]);
    assert_eq!(result.layers[1], vec![b.index()]);
    assert_eq!(result.layers[2], vec![c.index()]);
}

#[test]
fn test_diamond_pattern() {
    let mut graph = Graph::new();
    let start = graph.add_node("start");
    let left = graph.add_node("left");
    let right = graph.add_node("right");
    let end = graph.add_node("end");

    graph.add_edge(start, left, ());
    graph.add_edge(start, right, ());
    graph.add_edge(left, end, ());
    graph.add_edge(right, end, ());

    let layout = DagreLayout::new();
    let result = layout.compute(&graph);

    assert_eq!(result.layers.len(), 3);
    assert_eq!(result.layers[0], vec![start.index()]);
    assert_eq!(result.layers[1].len(), 2);
    assert!(result.layers[1].contains(&left.index()));
    assert!(result.layers[1].contains(&right.index()));
    assert_eq!(result.layers[2], vec![end.index()]);
}

#[test]
fn test_left_to_right_layout() {
    let mut graph = Graph::new();
    let a = graph.add_node("A");
    let b = graph.add_node("B");
    graph.add_edge(a, b, ());

    let options = LayoutOptions {
        rank_dir: RankDir::LeftToRight,
        ..Default::default()
    };
    let layout = DagreLayout::with_options(options);
    let result = layout.compute(&graph);

    let pos_a = result.node_positions[a.index()];
    let pos_b = result.node_positions[b.index()];

    // In left-to-right layout, B should be to the right of A
    assert!(half(pos_b.twice_x) > half(pos_a.twice_x));
}

#[test]
fn test_empty_graph() {
    let graph: Graph<&str, (), petgraph::Directed> = Graph::new();
    let layout = DagreLayout::new();
    let result = layout.compute(&graph);

    assert!(result.layers.is_empty());
    assert!(result.node_positions.is_empty());
}

#[test]
fn test_single_node() {
    let mut graph: Graph<&str, (), petgraph::Directed> = Graph::new();
    let node = graph.add_node("single");

    let layout = DagreLayout::new();
    let result = layout.compute(&graph);

    assert_eq!(result.layers.len(), 1);
    assert_eq!(result.layers[0], vec![node.index()]);
    let p = result.node_positions[node.index()];
    assert_eq!((half(p.twice_x), half(p.twice_y)), (0.0, 0.0));
}

#[test]
fn empty_graph_has_no_size() {
    let graph: DiGraph<(), ()> = DiGraph::new();
    let result = DagreLayout::new().compute(&graph);
    assert_eq!(result.width, 0);
    assert_eq!(result.height, 0);
}

#[test]
fn chain_points_and_size() {
    let mut graph: DiGraph<(), ()> = DiGraph::new();
    let a = graph.add_node(());
    let b = graph.add_node(());
    let c = graph.add_node(());
    graph.add_edge(a, b, ());
    graph.add_edge(b, c, ());
    let result = DagreLayout::new().compute(&graph);
    assert_eq!(result.node_positions.len(), 3);
    for (k, n) in [a, b, c].iter().enumerate() {
        let p = result.node_positions[n.index()];
        assert_eq!(half(p.twice_x), 0.0);
        assert_eq!(half(p.twice_y), k as f32 * 100.0);
    }
    assert_eq!(result.width, 50);
    assert_eq!(result.height, 300);
}

#[test]
fn diamond_centres_narrow_layers() {
    let mut graph: DiGraph<(), ()> = DiGraph::new();
    let s = graph.add_node(());
    let l = graph.add_node(());
    let r = graph.add_node(());
    let e = graph.add_node(());
    graph.add_edge(s, l, ());
    graph.add_edge(s, r, ());
    graph.add_edge(l, e, ());
    graph.add_edge(r, e, ());
    let result = DagreLayout::new().compute(&graph);
    // The single-node layers sit half a separation in.
    let ps = result.node_positions[s.index()];
    assert_eq!((half(ps.twice_x), half(ps.twice_y)), (25.0, 0.0));
    let pe = result.node_positions[e.index()];
    assert_eq!((half(pe.twice_x), half(pe.twice_y)), (25.0, 200.0));
    let first = result.layers[1][0];
    let second = result.layers[1][1];
    assert_eq!(half(result.node_positions[first].twice_x), 0.0);
    assert_eq!(half(result.node_positions[second].twice_x), 50.0);
    assert_eq!(result.width, 100);
    assert_eq!(result.height, 300);
}

#[test]
fn left_to_right_swaps_axes() {
    let mut graph: DiGraph<(), ()> = DiGraph::new();
    let a = graph.add_node(());
    let b = graph.add_node(());
    let c = graph.add_node(());
    graph.add_edge(a, b, ());
    graph.add_edge(a, c, ());
    let options = LayoutOptions { rank_dir: RankDir::LeftToRight, ..Default::default() };
    let result = DagreLayout::with_options(options).compute(&graph);
    let pa = result.node_positions[a.index()];
    assert_eq!((half(pa.twice_x), half(pa.twice_y)), (0.0, 25.0));
    for n in [b, c] {
        assert_eq!(half(result.node_positions[n.index()].twice_x), 100.0);
    }
    assert_eq!(result.width, 200);
    assert_eq!(result.height, 100);
}

#[test]
fn star_leaves_sorted_by_identifier() {
    let mut graph: DiGraph<(), ()> = DiGraph::new();
    let centre = graph.add_node(());
    let mut leaves = Vec::new();
    for _ in 0..10 {
        let leaf = graph.add_node(());
        graph.add_edge(centre, leaf, ());
        leaves.push(leaf);
    }
    let result = DagreLayout::new().compute(&graph);
    assert_eq!(result.layers.len(), 2);
    assert_eq!(result.layers[0], vec![centre.index()]);
    assert_eq!(result.layers[1], ids(&leaves));
}

#[test]
fn separate_nodes_share_the_first_layer() {
    let mut graph: DiGraph<(), ()> = DiGraph::new();
    let a = graph.add_node(());
    let b = graph.add_node(());
    let c = graph.add_node(());
    let result = DagreLayout::new().compute(&graph);
    assert_eq!(result.layers, vec![vec![a.index(), b.index(), c.index()]]);
    assert_eq!(result.width, 150);
    assert_eq!(result.height, 100);
}

#[test]
fn first_visit_fixes_depth() {
    // a's outgoing neighbours come out as [b, c]: b is reached first, at depth
    // one, and keeps that depth although c -> b would put it one deeper.
    let mut graph: DiGraph<(), ()> = DiGraph::new();
    let a = graph.add_node(());
    let b = graph.add_node(());
    let c = graph.add_node(());
    graph.add_edge(a, c, ());
    graph.add_edge(a, b, ());
    graph.add_edge(c, b, ());
    let result = DagreLayout::new().compute(&graph);
    assert_eq!(result.layers, vec![vec![a.index()], vec![b.index(), c.index()]]);
}

#[test]
fn later_walk_finds_longer_path() {
    // Here c is walked first and b gets depth two.
    let mut graph: DiGraph<(), ()> = DiGraph::new();
    let a = graph.add_node(());
    let b = graph.add_node(());
    let c = graph.add_node(());
    graph.add_edge(a, b, ());
    graph.add_edge(a, c, ());
    graph.add_edge(c, b, ());
    let result = DagreLayout::new().compute(&graph);
    assert_eq!(result.layers, vec![vec![a.index()], vec![c.index()], vec![b.index()]]);
}

#[test]
fn odd_separation_keeps_half_steps() {
    let mut graph: DiGraph<(), ()> = DiGraph::new();
    let s = graph.add_node(());
    let l = graph.add_node(());
    let r = graph.add_node(());
    graph.add_edge(s, l, ());
    graph.add_edge(s, r, ());
    let options = LayoutOptions { node_sep: 7, rank_sep: 3, ..Default::default() };
    let result = DagreLayout::with_options(options).compute(&graph);
    let p = result.node_positions[s.index()];
    assert_eq!(p.twice_x, 7);
    assert_eq!(p.twice_y, 0);
    assert_eq!(half(p.twice_x), 3.5);
    assert_eq!(result.width, 14);
    assert_eq!(result.height, 6);
}

#[test]
fn zero_iterations_keep_identifier_order() {
    let succ = vec![vec![3], vec![2], vec![], vec![]];
    let g = Digraph::from_successors(succ);
    let options = LayoutOptions { max_iterations: 0, ..Default::default() };
    let result = DagreLayout::with_options(options).layout_graph(&g);
    assert_eq!(result.layers, vec![vec![0, 1], vec![2, 3]]);
    let reduced = DagreLayout::new().layout_graph(&g);
    assert_eq!(reduced.layers, vec![vec![0, 1], vec![3, 2]]);
}

#[test]
fn layers_from_successor_lists() {
    let g = Digraph::from_successors(vec![vec![1, 2], vec![3], vec![3], vec![]]);
    assert_eq!(g.pred, vec![vec![], vec![0], vec![0], vec![1, 2]]);
    assert_eq!(assign_layers(&g), vec![vec![0], vec![1, 2], vec![3]]);
}

#[test]
fn barycenter_means_and_ties() {
    // Layer [3, 4, 5] against [0, 1, 2]: 3 <- {0, 2} (mean 1), 4 <- {0}
    // (mean 0), 5 without neighbours there keeps its own slot 2.
    let g = Digraph::from_successors(vec![vec![3, 4], vec![], vec![3], vec![], vec![], vec![]]);
    let order = order_by_barycenter(&g, &vec![3, 4, 5], &vec![0, 1, 2], true);
    assert_eq!(order, vec![4, 3, 5]);
    // Equal means fall back to the identifier.
    let g = Digraph::from_successors(vec![vec![3, 2], vec![], vec![], vec![]]);
    let order = order_by_barycenter(&g, &vec![3, 2], &vec![0, 1], true);
    assert_eq!(order, vec![2, 3]);
    // Successors on the way up; a mean of 4/3 comes before one of 3/2.
    let g = Digraph::from_successors(vec![vec![2, 3, 5], vec![4, 3], vec![], vec![], vec![], vec![]]);
    let order = order_by_barycenter(&g, &vec![1, 0], &vec![2, 3, 4, 5], false);
    assert_eq!(order, vec![0, 1]);
    let order = order_by_barycenter(&g, &vec![0, 1], &vec![5, 3, 4, 2], false);
    assert_eq!(order, vec![0, 1]);
}

fn crossings(g: &Digraph, layers: &[Vec<usize>]) -> usize {
    let mut total = 0;
    for k in 0..layers.len().saturating_sub(1) {
        let pos = |layer: &Vec<usize>, v: usize| layer.iter().position(|&x| x == v);
        let mut edges = Vec::new();
        for &u in &layers[k] {
            for &v in &g.succ[u] {
                if let Some(pv) = pos(&layers[k + 1], v) {
                    edges.push((pos(&layers[k], u).unwrap(), pv));
                }
            }
        }
        for i in 0..edges.len() {
            for j in i + 1..edges.len() {
                let (a, b) = (edges[i], edges[j]);
                if (a.0 < b.0 && a.1 > b.1) || (a.0 > b.0 && a.1 < b.1) {
                    total += 1;
                }
            }
        }
    }
    total
}

#[test]
fn reduction_does_not_add_crossings() {
    // 0 -> 5, 1 -> 4, 2 -> 3 cross pairwise when laid out by identifier.
    let g = Digraph::from_successors(vec![vec![5], vec![4], vec![3], vec![], vec![], vec![]]);
    let plain = DagreLayout::with_options(LayoutOptions { max_iterations: 0, ..Default::default() })
        .layout_graph(&g);
    let reduced = DagreLayout::with_options(LayoutOptions { max_iterations: 24, ..Default::default() })
        .layout_graph(&g);
    assert_eq!(crossings(&g, &plain.layers), 3);
    assert!(crossings(&g, &reduced.layers) <= crossings(&g, &plain.layers));
    assert_eq!(crossings(&g, &reduced.layers), 0);
}

#[test]
fn every_node_placed_once() {
    let mut graph: DiGraph<(), ()> = DiGraph::new();
    let n: Vec<NodeIndex> = (0..7).map(|_| graph.add_node(())).collect();
    for (u, v) in [(0, 2), (1, 2), (2, 3), (2, 4), (5, 6), (0, 4)] {
        graph.add_edge(n[u], n[v], ());
    }
    let result = DagreLayout::new().compute(&graph);
    assert_eq!(result.node_positions.len(), 7);
    let mut all: Vec<usize> = result.layers.iter().flatten().copied().collect();
    all.sort();
    assert_eq!(all, (0..7).collect::<Vec<usize>>());
    let layer_of = |v: usize| result.layers.iter().position(|l| l.contains(&v)).unwrap();
    // 4 is reached from 0 first, so the edge 2 -> 4 stays within a layer.
    assert_eq!(layer_of(2), layer_of(4));
    for (u, v) in [(0, 2), (1, 2), (2, 3), (5, 6), (0, 4)] {
        assert!(layer_of(u) < layer_of(v));
    }
    for v in 0..7 {
        let p = result.node_positions[v];
        assert_eq!(half(p.twice_y), layer_of(v) as f32 * 100.0);
    }
}

#[test]
fn default_options() {
    let options = LayoutOptions::default();
    assert_eq!(options.rank_dir, RankDir::TopToBottom);
    assert_eq!(options.node_sep, 50);
    assert_eq!(options.rank_sep, 100);
    assert_eq!(options.max_iterations, 24);
    let layout = DagreLayout::default();
    assert_eq!(layout.options.node_sep, 50);
    assert_eq!(DagreLayout::new().options.max_iterations, 24);
}

#[test]
fn graph_without_sources_starts_at_node_zero() {
    // 0 -> 1 -> 2 -> 0: no node lacks a predecessor.
    let g = Digraph::from_successors(vec![vec![1], vec![2], vec![0]]);
    let result = DagreLayout::new().layout_graph(&g);
    assert_eq!(result.layers, vec![vec![0], vec![1], vec![2]]);
}

#[test]
fn parallel_edges_count_twice() {
    // 4 has two edges from 0 (slot 0) and one from 2 (slot 2): mean 2/3.
    // 3 has one edge from 1 (slot 1): mean 1. So 4 comes first.
    let g = Digraph::from_successors(vec![vec![4, 4], vec![3], vec![4], vec![], vec![]]);
    let order = order_by_barycenter(&g, &vec![3, 4], &vec![0, 1, 2], true);
    assert_eq!(order, vec![4, 3]);
}
