use bit_vec::BitVec;
use cracking::graph::datagen::{deal, pairwise_shuffle, randomly_connected_tree};
use cracking::graph::bfs::{
    bv_where, coco_bfs, decracked_bfs, ids_fit_check, indicise, preclustered_bfs,
    preclustered_rle_bfs, reco_bfs, rle_lookups_fit, set_indices, unoptimised_bfs,
};

fn example_graph() -> (Vec<i64>, Vec<i64>, i64) {
    let src = vec![23, 16, 29, 27, 14, 25, 8, 23, 30, 27, 27, 20, 6, 20, 9, 6, 28, 10, 22, 14, 29, 6, 21, 1, 19, 13, 1, 11, 29, 7, 3, 27, 22, 2, 14, 3, 25, 12, 11, 29, 26, 27, 17, 15, 14, 27, 1, 24, 18, 6, 24, 27, 9, 6, 14, 5, 4, 23];
    let dst = vec![30, 23, 14, 22, 29, 20, 1, 22, 23, 25, 2, 25, 5, 21, 14, 15, 6, 14, 23, 6, 13, 14, 20, 27, 3, 29, 12, 24, 24, 9, 19, 17, 27, 27, 27, 6, 27, 1, 18, 26, 29, 1, 27, 6, 9, 14, 8, 29, 11, 3, 11, 4, 7, 28, 10, 6, 27, 16];
    (src, dst, 16)
}

fn all_nodes(n: i64) -> Vec<i64> {
    (1..=n).collect()
}

#[test]
fn every_search_visits_the_whole_example_graph() {
    let (src, dst, start) = example_graph();
    assert!(ids_fit_check(&src, &dst, start));
    assert_eq!(unoptimised_bfs(src.clone(), dst.clone(), start), all_nodes(30));
    assert_eq!(preclustered_bfs(src.clone(), dst.clone(), start), all_nodes(30));
    assert!(rle_lookups_fit(&src, &dst, start));
    assert_eq!(preclustered_rle_bfs(src.clone(), dst.clone(), start), all_nodes(30));
    assert_eq!(decracked_bfs(src.clone(), dst.clone(), start), all_nodes(30));
    assert_eq!(reco_bfs(src.clone(), dst.clone(), start), all_nodes(30));
    assert_eq!(coco_bfs(src, dst, start), all_nodes(30));
}

#[test]
fn searches_stop_at_the_reachable_nodes() {
    let src = vec![1, 2, 4, 5, 3];
    let dst = vec![2, 3, 5, 1, 3];
    assert_eq!(unoptimised_bfs(src.clone(), dst.clone(), 1), vec![1, 2, 3]);
    assert_eq!(preclustered_bfs(src.clone(), dst.clone(), 1), vec![1, 2, 3]);
    assert_eq!(preclustered_rle_bfs(src.clone(), dst.clone(), 1), vec![1, 2, 3]);
    assert_eq!(decracked_bfs(src.clone(), dst.clone(), 1), vec![1, 2, 3]);
    assert_eq!(reco_bfs(src.clone(), dst.clone(), 1), vec![1, 2, 3]);
    assert_eq!(unoptimised_bfs(src.clone(), dst.clone(), 4), vec![1, 2, 3, 4, 5]);
    assert_eq!(reco_bfs(src.clone(), dst.clone(), 4), vec![1, 2, 3, 4, 5]);
    assert_eq!(unoptimised_bfs(src.clone(), dst.clone(), 3), vec![3]);
    assert_eq!(decracked_bfs(src, dst, 3), vec![3]);
}

#[test]
fn a_start_without_edges_is_all_that_is_reached() {
    assert_eq!(unoptimised_bfs(vec![], vec![], 7), vec![7]);
    assert_eq!(preclustered_bfs(vec![], vec![], 7), vec![7]);
    assert_eq!(decracked_bfs(vec![], vec![], 7), vec![7]);
}

#[test]
fn compacted_search_holds_the_start_and_targets_only() {
    let src = vec![1, 2, 4, 5, 3];
    let dst = vec![2, 3, 5, 1, 3];
    let r = coco_bfs(src, dst.clone(), 1);
    assert!(r.contains(&1));
    assert!(r.iter().all(|v| *v == 1 || dst.contains(v)));
    assert!(r.windows(2).all(|w| w[0] < w[1]));
}

#[test]
fn id_checks() {
    assert!(ids_fit_check(&vec![1, 2], &vec![2, 3], 1));
    assert!(!ids_fit_check(&vec![1, 2], &vec![2, 0], 1));
    assert!(!ids_fit_check(&vec![1, 2], &vec![2, 3], 0));
    assert!(!ids_fit_check(&vec![1, 2, 3], &vec![2, 3], 1));
    assert!(!ids_fit_check(&vec![1], &vec![i64::MAX / 2], 1));
    assert!(rle_lookups_fit(&vec![1, 2], &vec![2, 1], 1));
    assert!(!rle_lookups_fit(&vec![1, 2], &vec![2, 3], 1));
    assert!(!rle_lookups_fit(&vec![-1, 2], &vec![2, 1], 2));
}

#[test]
fn bit_positions_and_node_ids() {
    assert_eq!(indicise(vec![1, 5, 3]), vec![0, 4, 2]);
    let mut bv = BitVec::from_elem(2, false);
    set_indices(&mut bv, vec![4, 0]);
    assert_eq!(bv.len(), 5);
    assert_eq!(bv_where(bv), vec![1, 5]);
    let mut grown = BitVec::from_elem(2, false);
    set_indices(&mut grown, vec![5, 3]);
    assert_eq!(grown.len(), 2 + 4 + 2);
    assert_eq!(bv_where(grown), vec![4, 6]);
}

#[test]
fn random_trees_connect_every_node() {
    let mut dealt = deal(6);
    dealt.sort();
    assert_eq!(dealt, vec![0, 1, 2, 3, 4, 5]);
    let (s, d) = pairwise_shuffle(vec![1, 2, 3], vec![10, 20, 30]);
    let mut pairs: Vec<(i64, i64)> = s.into_iter().zip(d.into_iter()).collect();
    pairs.sort();
    assert_eq!(pairs, vec![(1, 10), (2, 20), (3, 30)]);
    for n in [2i64, 3, 10, 25] {
        let (src, dst) = randomly_connected_tree(n);
        assert_eq!(src.len(), 2 * (n as usize - 1));
        assert_eq!(dst.len(), src.len());
        for start in 1..=n {
            assert_eq!(unoptimised_bfs(src.clone(), dst.clone(), start), all_nodes(n));
        }
        for i in 0..src.len() {
            assert!((0..src.len()).any(|j| src[j] == dst[i] && dst[j] == src[i]));
        }
    }
}

#[test]
fn compacted_search_reaches_only_reachable_nodes() {
    let r = coco_bfs(vec![1, 2, 4, 5, 3], vec![2, 3, 5, 1, 3], 1);
    assert!(r.contains(&1));
    assert!(r.iter().all(|v| [1, 2, 3].contains(v)));
}

#[test]
fn compacted_search_reaches_every_reachable_node() {
    let graphs: Vec<(Vec<i64>, Vec<i64>)> = vec![
        (vec![1, 2, 4, 5, 3], vec![2, 3, 5, 1, 3]),
        (vec![1, 1, 2, 2, 3, 5], vec![2, 3, 4, 5, 6, 1]),
        (vec![2, 2, 1, 3, 3], vec![3, 1, 2, 4, 4]),
    ];
    for (src, dst) in graphs {
        for start in 1..=5 {
            assert_eq!(coco_bfs(src.clone(), dst.clone(), start), unoptimised_bfs(src.clone(), dst.clone(), start));
        }
    }
}
