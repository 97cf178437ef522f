use cracking::db::Table;
use cracking::graph::bfs::adaptive_bfs;
use cracking::graph::datagen;
use cracking::graph::table_graphs::{
    fully_connected_graph, graph_size_range, preclustered_bfs, preclustered_rle_bfs,
    randomly_connected_graph, randomly_connected_tree, reached_nodes_are_sources,
    unoptimised_bfs,
};

fn edge_pairs(t: &Table) -> Vec<(i64, i64)> {
    let src = &t.get_i64_col("src").v;
    let dst = &t.get_i64_col("dst").v;
    let mut pairs: Vec<(i64, i64)> = src.iter().cloned().zip(dst.iter().cloned()).collect();
    pairs.sort();
    pairs
}

fn ready_table(src: Vec<i64>, dst: Vec<i64>) -> Table {
    let mut t = Table::new();
    t.new_columns(vec![("src", 'j'), ("dst", 'j')]);
    t.insert(vec![("src", src), ("dst", dst)]);
    t.set_crk_col("src");
    t
}

#[test]
fn graph_sizes_step_further_on_each_pass() {
    assert_eq!(graph_size_range(2, 10, 30, 10), vec![10, 20, 30, 10, 25, 30]);
    assert_eq!(graph_size_range(1, 5, 12, 4), vec![5, 9, 12]);
    assert_eq!(graph_size_range(0, 5, 12, 4), vec![12]);
    assert_eq!(graph_size_range(3, 20, 10, 0), vec![10]);
}

#[test]
fn complete_graph_holds_every_ordered_pair_once() {
    let t = fully_connected_graph(3);
    assert_eq!(t.count, 6);
    assert_eq!(edge_pairs(&t), vec![(1, 2), (1, 3), (2, 1), (2, 3), (3, 1), (3, 2)]);
    assert_eq!(t.crk_col.crk.len(), 0);
    assert_eq!(t.crk_col.v, t.get_i64_col("src").v);
}

#[test]
fn random_tree_table_is_symmetric_and_connected() {
    let n = 9;
    let mut t = randomly_connected_tree(n);
    assert_eq!(t.count, 2 * (n as usize - 1));
    let pairs = edge_pairs(&t);
    for &(a, b) in &pairs {
        assert!(a != b && 1 <= a && a <= n && 1 <= b && b <= n);
        assert!(pairs.contains(&(b, a)));
    }
    let all: Vec<i64> = (1..=n).collect();
    assert_eq!(unoptimised_bfs(&mut t, 4), all);
    assert_eq!(preclustered_bfs(&mut t, 7), all);
    assert_eq!(preclustered_rle_bfs(&mut t, 1), all);
}

#[test]
fn random_graph_table_has_the_edges_asked_for() {
    let t = randomly_connected_graph(5, 3);
    assert_eq!(t.count, 0);
    assert_eq!(t.i64_columns.len(), 0);
    let t = randomly_connected_graph(5, 12);
    assert_eq!(t.count, 12);
    for (a, b) in edge_pairs(&t) {
        assert!(a != b && 1 <= a && a <= 5 && 1 <= b && b <= 5);
    }
}

#[test]
fn table_searches_follow_directed_edges() {
    let mut t = ready_table(vec![1, 2, 4, 3], vec![2, 3, 1, 1]);
    assert_eq!(unoptimised_bfs(&mut t, 1), vec![1, 2, 3]);
    assert_eq!(unoptimised_bfs(&mut t, 4), vec![1, 2, 3, 4]);
    assert_eq!(preclustered_bfs(&mut t, 2), vec![1, 2, 3]);
    assert_eq!(preclustered_rle_bfs(&mut t, 4), vec![1, 2, 3, 4]);
}

#[test]
fn adaptive_search_cracks_the_table_and_finds_the_component() {
    let mut t = ready_table(vec![1, 2, 4, 3, 5], vec![2, 3, 1, 1, 4]);
    assert_eq!(adaptive_bfs(&mut t, 1), vec![1, 2, 3]);
    assert_eq!(t.count, 5);
    assert_eq!(t.get_i64_col("src").v, vec![1, 2, 4, 3, 5]);
    let mut u = ready_table(vec![1, 2, 4, 3, 5], vec![2, 3, 1, 1, 4]);
    assert_eq!(adaptive_bfs(&mut u, 5), vec![1, 2, 3, 4, 5]);
}

#[test]
fn reached_nodes_must_be_sources_for_the_preclustered_table_search() {
    assert!(reached_nodes_are_sources(&vec![1, 2, 3], &vec![2, 3, 1], 1));
    assert!(!reached_nodes_are_sources(&vec![1, 2], &vec![2, 3], 1));
    assert!(!reached_nodes_are_sources(&vec![1, 2], &vec![2, 3], 3));
}

#[test]
fn adaptive_search_reaches_every_node_of_a_random_tree() {
    for n in [2i64, 5, 17] {
        let (src, dst) = datagen::randomly_connected_tree(n);
        let mut t = ready_table(src, dst);
        let all: Vec<i64> = (1..=n).collect();
        assert_eq!(adaptive_bfs(&mut t, n), all);
    }
}
