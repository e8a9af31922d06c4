use heat_spectral::{Graph, HeatError};

// ── Graph construction ──

fn path_graph(n: usize) -> Graph<f64> {
    let mut g = Graph::new(n);
    for i in 0..n.saturating_sub(1) {
        g.add_edge(i, i + 1, 1.0).unwrap();
    }
    g
}

fn complete_graph(n: usize) -> Graph<f64> {
    let mut g = Graph::new(n);
    for i in 0..n {
        for j in (i + 1)..n {
            g.add_edge(i, j, 1.0).unwrap();
        }
    }
    g
}

fn cycle_graph(n: usize) -> Graph<f64> {
    let mut g = Graph::new(n);
    for i in 0..n {
        g.add_edge(i, (i + 1) % n, 1.0).unwrap();
    }
    g
}

fn star_graph(n: usize) -> Graph<f64> {
    let mut g = Graph::new(n);
    for i in 1..n {
        g.add_edge(0, i, 1.0).unwrap();
    }
    g
}

#[test]
fn test_graph_node_count() {
    let g: Graph<f64> = Graph::new(5);
    assert_eq!(g.node_count(), 5);
}

#[test]
fn test_graph_edge_count() {
    let g = path_graph(4);
    assert_eq!(g.edge_count(), 3);
}

#[test]
fn test_complete_graph_edges() {
    let g = complete_graph(4);
    assert_eq!(g.edge_count(), 6);
}

#[test]
fn test_invalid_edge() {
    let mut g: Graph<f64> = Graph::new(3);
    assert!(g.add_edge(0, 5, 1.0).is_err());
}

#[test]
fn test_remove_edge() {
    let mut g = path_graph(3);
    assert!(g.remove_edge(0, 1).unwrap());
    assert_eq!(g.edge_count(), 1);
    assert!(!g.remove_edge(0, 1).unwrap());
}

#[test]
fn test_empty_graph() {
    let g: Graph<f64> = Graph::new(0);
    assert_eq!(g.node_count(), 0);
    assert_eq!(g.edge_count(), 0);
}

// ── Further checks of the adjacency lists ──

#[test]
fn add_edge_lists_both_ends() {
    let mut g: Graph<f64> = Graph::new(3);
    g.add_edge(0, 2, 3.5).unwrap();
    assert_eq!(g.neighbors(0), &[(2, 3.5)]);
    assert_eq!(g.neighbors(2), &[(0, 3.5)]);
    assert!(g.neighbors(1).is_empty());
}

#[test]
fn add_edge_error_names_larger_index() {
    let mut g: Graph<f64> = Graph::new(3);
    assert_eq!(g.add_edge(9, 1, 1.0), Err(HeatError::InvalidNode { index: 9, n: 3 }));
    assert_eq!(g.add_edge(1, 4, 1.0), Err(HeatError::InvalidNode { index: 4, n: 3 }));
    assert_eq!(g.edge_count(), 0);
}

#[test]
fn remove_edge_out_of_range() {
    let mut g = path_graph(3);
    assert_eq!(g.remove_edge(0, 3), Err(HeatError::InvalidNode { index: 3, n: 3 }));
    assert_eq!(g.edge_count(), 2);
}

#[test]
fn remove_edge_takes_first_of_parallel_edges() {
    let mut g: Graph<f64> = Graph::new(2);
    g.add_edge(0, 1, 1.0).unwrap();
    g.add_edge(1, 0, 2.0).unwrap();
    assert_eq!(g.edge_count(), 2);
    assert!(g.remove_edge(1, 0).unwrap());
    assert_eq!(g.neighbors(0), &[(1, 2.0)]);
    assert_eq!(g.neighbors(1), &[(0, 2.0)]);
    assert_eq!(g.edge_count(), 1);
}

#[test]
fn self_loop_counts_once() {
    let mut g: Graph<f64> = Graph::new(2);
    g.add_edge(1, 1, 4.0).unwrap();
    assert_eq!(g.neighbors(1), &[(1, 4.0), (1, 4.0)]);
    assert_eq!(g.edge_count(), 1);
    assert!(g.remove_edge(1, 1).unwrap());
    assert!(g.neighbors(1).is_empty());
    assert_eq!(g.edge_count(), 0);
}

#[test]
fn remove_undoes_add() {
    let before = star_graph(4);
    let mut g = star_graph(4);
    g.add_edge(1, 3, 0.5).unwrap();
    assert_eq!(g.edge_count(), before.edge_count() + 1);
    assert!(g.remove_edge(1, 3).unwrap());
    for i in 0..4 {
        assert_eq!(g.neighbors(i), before.neighbors(i));
    }
}

#[test]
fn cycle_edges_are_listed_symmetrically() {
    let g = cycle_graph(5);
    assert_eq!(g.edge_count(), 5);
    for i in 0..5 {
        for &(j, w) in g.neighbors(i) {
            assert!(g.neighbors(j).contains(&(i, w)));
        }
    }
}

// ── Laplacian cache ──

#[test]
fn cache_returns_what_was_stored() {
    let mut g = path_graph(2);
    assert!(g.cached_laplacian().is_none());
    let l = vec![vec![1.0, -1.0], vec![-1.0, 1.0]];
    g.cache_laplacian(l.clone());
    assert_eq!(g.cached_laplacian(), Some(&l));
    assert_eq!(g.edge_count(), 1);
}

#[test]
fn cache_cleared_by_edge_changes() {
    let mut g = path_graph(3);
    g.cache_laplacian(vec![vec![0.0; 3]; 3]);
    g.add_edge(0, 2, 1.0).unwrap();
    assert!(g.cached_laplacian().is_none());

    g.cache_laplacian(vec![vec![0.0; 3]; 3]);
    assert!(g.remove_edge(0, 2).unwrap());
    assert!(g.cached_laplacian().is_none());

    g.cache_laplacian(vec![vec![0.0; 3]; 3]);
    g.invalidate_cache();
    assert!(g.cached_laplacian().is_none());
}

#[test]
fn cache_kept_when_nothing_changes() {
    let mut g = path_graph(3);
    g.cache_laplacian(vec![vec![7.0; 3]; 3]);
    assert!(!g.remove_edge(0, 2).unwrap());
    assert!(g.cached_laplacian().is_some());
    assert!(g.add_edge(0, 3, 1.0).is_err());
    assert_eq!(g.cached_laplacian(), Some(&vec![vec![7.0; 3]; 3]));
}

#[test]
fn clone_copies_lists_and_cache() {
    let mut g = cycle_graph(4);
    g.cache_laplacian(vec![vec![2.0; 4]; 4]);
    let h = g.clone();
    assert_eq!(h.node_count(), 4);
    assert_eq!(h.edge_count(), 4);
    for i in 0..4 {
        assert_eq!(h.neighbors(i), g.neighbors(i));
    }
    assert_eq!(h.cached_laplacian(), g.cached_laplacian());
}

#[test]
fn from_adjacency_keeps_lists() {
    let g = Graph::from_adjacency(vec![vec![(1, 2.0)], vec![(0, 2.0)], vec![]]);
    assert_eq!(g.node_count(), 3);
    assert_eq!(g.edge_count(), 1);
    assert_eq!(g.neighbors(0), &[(1, 2.0)]);
    assert!(g.cached_laplacian().is_none());
}
