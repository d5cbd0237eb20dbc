//! Flow routing, lake resolution and basin traversal on small graphs.

use fastlem::graph::check_graph;
use fastlem::isqrt;
use fastlem::stream_tree::{StreamTree, StreamTreeError};
use fastlem::drainage_basin::DrainageBasin;
use fastlem::terrain::Site2D;
use terrain_graph::edge_attributed_undirected::EdgeAttributedUndirectedGraph;

fn follow_to_root(tree: &StreamTree, start: usize, n: usize) -> usize {
    let mut cur = start;
    for _ in 0..n {
        let nxt = tree.get_next(cur);
        if nxt == cur {
            return cur;
        }
        cur = nxt;
    }
    cur
}

#[test]
fn isqrt_exact_values() {
    assert_eq!(isqrt(0), 0);
    assert_eq!(isqrt(1), 1);
    assert_eq!(isqrt(3), 1);
    assert_eq!(isqrt(4), 2);
    assert_eq!(isqrt(8), 2);
    assert_eq!(isqrt(9), 3);
    assert_eq!(isqrt(1 << 62), 1 << 31);
    assert_eq!(isqrt(u64::MAX), 4294967295);
}

#[test]
fn site_distance_exact() {
    let a = Site2D::new(0, 0);
    let b = Site2D::new(3, 4);
    assert_eq!(a.squared_distance(&b), 25);
    assert_eq!(a.distance(&b), 5);
    let c = Site2D::new(-1, 1);
    assert_eq!(a.squared_distance(&c), 2);
    assert_eq!(a.distance(&c), 1);
}

#[test]
fn graph_check_accepts_simple_symmetric() {
    let mut g: EdgeAttributedUndirectedGraph<u64> = EdgeAttributedUndirectedGraph::new(3);
    g.add_edge(0, 1, 5);
    g.add_edge(1, 2, 7);
    assert!(check_graph(&g));
}

#[test]
fn graph_check_rejects_zero_length_and_duplicates() {
    let mut g: EdgeAttributedUndirectedGraph<u64> = EdgeAttributedUndirectedGraph::new(2);
    g.add_edge(0, 1, 0);
    assert!(!check_graph(&g));

    let mut g2: EdgeAttributedUndirectedGraph<u64> = EdgeAttributedUndirectedGraph::new(2);
    g2.add_edge(0, 1, 3);
    g2.add_edge(0, 1, 3);
    assert!(!check_graph(&g2));
}

#[test]
fn monotone_bowl_needs_no_carving() {
    // a chain rising away from the single outlet: pure descent routing
    let n = 5;
    let mut g: EdgeAttributedUndirectedGraph<u64> = EdgeAttributedUndirectedGraph::new(n);
    for i in 0..n - 1 {
        g.add_edge(i, i + 1, 2);
    }
    let elevations: Vec<i64> = vec![0, 10, 20, 30, 40];
    let outlets = vec![0usize];
    let tree = StreamTree::construct(n, &elevations, &g, &outlets).unwrap();
    assert_eq!(tree.get_next(0), 0);
    for i in 1..n {
        let j = tree.get_next(i);
        // strictly downhill: the steepest-descent choice was kept
        assert_eq!(j, i - 1);
        assert!(elevations[j] < elevations[i]);
        assert_eq!(follow_to_root(&tree, i, n), 0);
    }
}

#[test]
fn lake_is_carved_to_the_outlet() {
    // a pit (site 3) ringed by two higher sites, no outlet inside:
    // descent alone strands the pit; carving must reroute it outward
    let n = 4;
    let mut g: EdgeAttributedUndirectedGraph<u64> = EdgeAttributedUndirectedGraph::new(n);
    g.add_edge(0, 1, 2);
    g.add_edge(0, 2, 2);
    g.add_edge(1, 3, 2);
    g.add_edge(2, 3, 2);
    let elevations: Vec<i64> = vec![0, 100, 90, 10];
    let outlets = vec![0usize];
    let tree = StreamTree::construct(n, &elevations, &g, &outlets).unwrap();
    assert_ne!(tree.get_next(3), 3);
    for i in 0..n {
        assert_eq!(follow_to_root(&tree, i, n), 0);
    }
}

#[test]
fn empty_outlets_is_a_configuration_error() {
    let mut g: EdgeAttributedUndirectedGraph<u64> = EdgeAttributedUndirectedGraph::new(2);
    g.add_edge(0, 1, 1);
    let elevations: Vec<i64> = vec![0, 5];
    let outlets: Vec<usize> = vec![];
    let r = StreamTree::construct(2, &elevations, &g, &outlets);
    assert_eq!(r.err(), Some(StreamTreeError::EmptyOutlets));
}

#[test]
fn disconnected_site_is_reported() {
    // two components; the outlet sits in one of them
    let n = 4;
    let mut g: EdgeAttributedUndirectedGraph<u64> = EdgeAttributedUndirectedGraph::new(n);
    g.add_edge(0, 1, 1);
    g.add_edge(2, 3, 1);
    let elevations: Vec<i64> = vec![0, 5, 7, 9];
    let outlets = vec![0usize];
    let r = StreamTree::construct(n, &elevations, &g, &outlets);
    assert_eq!(r.err(), Some(StreamTreeError::Disconnected));
}

#[test]
fn basin_traversal_is_topologically_ordered() {
    // a small tree: every visited site's downstream site comes earlier
    let n = 6;
    let mut g: EdgeAttributedUndirectedGraph<u64> = EdgeAttributedUndirectedGraph::new(n);
    g.add_edge(0, 1, 2);
    g.add_edge(1, 2, 2);
    g.add_edge(1, 3, 2);
    g.add_edge(3, 4, 2);
    g.add_edge(2, 5, 2);
    let elevations: Vec<i64> = vec![0, 10, 20, 20, 30, 30];
    let outlets = vec![0usize];
    let tree = StreamTree::construct(n, &elevations, &g, &outlets).unwrap();
    let basin = DrainageBasin::construct(0, &tree, &g);
    let up = basin.for_each_upstream();
    assert_eq!(up[0], 0);
    assert_eq!(up.len(), n);
    for q in 1..up.len() {
        let i = up[q];
        let j = tree.get_next(i);
        let pos_j = up.iter().position(|&x| x == j).unwrap();
        assert!(pos_j < q);
    }
    let down = basin.for_each_downstream();
    let mut rev = up.clone();
    rev.reverse();
    assert_eq!(down, rev);
}

#[test]
fn basins_partition_the_sites() {
    // two outlets: their basins are disjoint and cover every site
    let n = 6;
    let mut g: EdgeAttributedUndirectedGraph<u64> = EdgeAttributedUndirectedGraph::new(n);
    g.add_edge(0, 1, 2);
    g.add_edge(1, 2, 2);
    g.add_edge(2, 3, 2);
    g.add_edge(3, 4, 2);
    g.add_edge(4, 5, 2);
    let elevations: Vec<i64> = vec![0, 10, 20, 20, 10, 0];
    let outlets = vec![0usize, 5];
    let tree = StreamTree::construct(n, &elevations, &g, &outlets).unwrap();
    let mut seen = vec![false; n];
    for &o in outlets.iter() {
        let basin = DrainageBasin::construct(o, &tree, &g);
        let up = basin.for_each_upstream();
        assert_eq!(up[0], o);
        for &i in up.iter() {
            assert!(!seen[i], "site in two basins");
            seen[i] = true;
        }
    }
    assert!(seen.iter().all(|&s| s));
}
