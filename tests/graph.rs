use algs4_rs::{BreadthFirstPaths, DepthFirstPaths, Graph};
use std::collections::HashSet;

fn adjacent_set(g: &Graph, v: usize) -> HashSet<usize> {
    let mut out = HashSet::new();
    let mut it = g.adj(v).unwrap();
    while let Some(w) = it.next() {
        out.insert(*w);
    }
    out
}

fn tiny_graph() -> Graph {
    let mut g = Graph::new_no_edge(13);
    g.add_edge(0, 5).unwrap();
    g.add_edge(4, 3).unwrap();
    g.add_edge(0, 1).unwrap();
    g.add_edge(9, 12).unwrap();
    g.add_edge(6, 4).unwrap();
    g.add_edge(5, 4).unwrap();
    g.add_edge(0, 2).unwrap();
    g.add_edge(11, 12).unwrap();
    g.add_edge(9, 10).unwrap();
    g.add_edge(0, 6).unwrap();
    g.add_edge(7, 8).unwrap();
    g.add_edge(9, 11).unwrap();
    g.add_edge(5, 3).unwrap();
    g
}

fn check_tiny_graph(g: &Graph) {
    assert_eq!(g.count_vertices(), 13);
    assert_eq!(g.count_edges(), 13);
    assert_eq!(adjacent_set(g, 0), HashSet::from([6, 2, 1, 5]));
    assert_eq!(adjacent_set(g, 1), HashSet::from([0]));
    assert_eq!(adjacent_set(g, 1), HashSet::from([0]));
    assert_eq!(adjacent_set(g, 2), HashSet::from([0]));
    assert_eq!(adjacent_set(g, 3), HashSet::from([5, 4]));
    assert_eq!(adjacent_set(g, 4), HashSet::from([5, 6, 3]));
    assert_eq!(adjacent_set(g, 5), HashSet::from([3, 4, 0]));
    assert_eq!(adjacent_set(g, 6), HashSet::from([0, 4]));
    assert_eq!(adjacent_set(g, 7), HashSet::from([8]));
    assert_eq!(adjacent_set(g, 8), HashSet::from([7]));
    assert_eq!(adjacent_set(g, 9), HashSet::from([11, 10, 12]));
    assert_eq!(adjacent_set(g, 9), HashSet::from([11, 10, 12]));
}

fn tiny_connected_graph() -> Graph {
    let mut g = Graph::new_no_edge(6);
    g.add_edge(0, 5).unwrap();
    g.add_edge(2, 4).unwrap();
    g.add_edge(2, 3).unwrap();
    g.add_edge(1, 2).unwrap();
    g.add_edge(0, 1).unwrap();
    g.add_edge(3, 4).unwrap();
    g.add_edge(3, 5).unwrap();
    g.add_edge(0, 2).unwrap();
    g
}

#[test]
fn graph_basics() {
    let g = tiny_graph();
    check_tiny_graph(&g);

    let g2 = g.clone();
    check_tiny_graph(&g2);
}

#[test]
fn test_dfs() {
    let g = tiny_connected_graph();
    let dfs = DepthFirstPaths::new(&g, 0).unwrap();
    assert_eq!(dfs.path_to(0).unwrap(), [0]);
    assert_eq!(dfs.path_to(1).unwrap(), [0, 2, 1]);
    assert_eq!(dfs.path_to(2).unwrap(), [0, 2]);
    assert_eq!(dfs.path_to(3).unwrap(), [0, 2, 3]);
    assert_eq!(dfs.path_to(4).unwrap(), [0, 2, 3, 4]);
    assert_eq!(dfs.path_to(5).unwrap(), [0, 2, 3, 5]);
    assert!(dfs.path_to(6).is_err());
}

#[test]
fn test_bfs() {
    let g = tiny_connected_graph();
    let bfs = BreadthFirstPaths::new(&g, 0).unwrap();
    assert_eq!(bfs.path_to(0).unwrap(), [0]);
    assert_eq!(bfs.path_to(1).unwrap(), [0, 1]);
    assert_eq!(bfs.path_to(2).unwrap(), [0, 2]);
    assert_eq!(bfs.path_to(3).unwrap(), [0, 2, 3]);
    assert_eq!(bfs.path_to(4).unwrap(), [0, 2, 4]);
    assert_eq!(bfs.path_to(5).unwrap(), [0, 5]);
    assert!(bfs.path_to(6).is_err());
}

#[test]
fn graph_rejects_bad_vertices() {
    let mut g = Graph::new_no_edge(3);
    assert!(g.add_edge(0, 3).is_err());
    assert!(g.add_edge(3, 0).is_err());
    assert_eq!(g.count_edges(), 0);
    assert!(g.adj(3).is_err());
    assert!(g.degree(5).is_err());
    g.add_edge(1, 1).unwrap();
    assert_eq!(g.degree(1).unwrap(), 2);
    assert!(DepthFirstPaths::new(&g, 3).is_err());
    assert!(BreadthFirstPaths::new(&g, 3).is_err());
    assert!(BreadthFirstPaths::new_multiple_sources(&g, &[]).is_err());
    assert!(BreadthFirstPaths::new_multiple_sources(&g, &[0, 7]).is_err());
}

#[test]
fn graph_unreachable_and_multiple_sources() {
    let g = tiny_graph();
    let dfs = DepthFirstPaths::new(&g, 0).unwrap();
    assert_eq!(dfs.has_path_to(7).unwrap(), false);
    assert_eq!(dfs.path_to(7).unwrap(), Vec::<usize>::new());
    assert_eq!(dfs.has_path_to(3).unwrap(), true);
    let bfs = BreadthFirstPaths::new(&g, 0).unwrap();
    assert_eq!(bfs.dist_to(7).unwrap(), usize::MAX);
    assert_eq!(bfs.dist_to(3).unwrap(), 2);
    let multi = BreadthFirstPaths::new_multiple_sources(&g, &[7, 9]).unwrap();
    assert!(multi.has_path_to(8).unwrap());
    assert!(multi.has_path_to(12).unwrap());
    assert!(!multi.has_path_to(0).unwrap());
    assert_eq!(multi.dist_to(8).unwrap(), 1);
    assert_eq!(multi.path_to(11).unwrap(), [9, 11]);
}

#[test]
fn graph_to_dot_lists_each_edge_once() {
    let mut g = Graph::new_no_edge(3);
    g.add_edge(0, 1).unwrap();
    g.add_edge(2, 2).unwrap();
    let dot = g.to_dot();
    assert!(dot.starts_with("graph {\n"));
    assert!(dot.ends_with("}\n"));
    assert_eq!(dot.matches("0 -- 1\n").count(), 1);
    assert_eq!(dot.matches("2 -- 2\n").count(), 1);
    assert_eq!(dot.matches(" -- ").count(), 2);
}

#[test]
fn graph_degrees_sum_to_twice_edges() {
    let mut g = tiny_graph();
    g.add_edge(3, 3).unwrap();
    let total: usize = (0..g.count_vertices()).map(|v| g.degree(v).unwrap()).sum();
    assert_eq!(total, 2 * g.count_edges());
    assert_eq!(total, 28);
}
