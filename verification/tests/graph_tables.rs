use cracking::graph::compactive_compression::{self as coco, CoCoTable};
use cracking::graph::decomposed_cracking::{self as decracked, DeCrackedTable};
use cracking::graph::load_person_csv::{
    adjacency_vectors, cur_data_home, edges, home_data_home, nodes, social_network_sf1,
    social_network_sf10, uni_data_home, Friendship,
};
use cracking::graph::overswap_rle_compression::{self as overswap, OverswapRLETable};
use cracking::graph::recognitive_compression::{self as reco, ReCoTable};

fn src_dst() -> (Vec<i64>, Vec<i64>) {
    (
        vec![5, 2, 4, 1, 1, 4, 4, 3, 3, 1, 5, 2, 1, 2, 3, 3, 4, 5, 2, 5],
        vec![3, 5, 5, 3, 4, 1, 2, 5, 2, 5, 2, 1, 2, 4, 1, 4, 3, 1, 3, 4],
    )
}

#[test]
fn decracked_lookup_finds_neighbours() {
    let (src, dst) = src_dst();
    let mut t = decracked::from_adjacency_vectors(src, dst, "src");
    assert_eq!(t.count, 20);
    let n = t.cracker_select_specific(3, "dst");
    assert_eq!(n, vec![2, 1, 4, 5]);
    assert_eq!(t.crk_col.crk, vec![2, 2, 1, 1, 2, 1, 1, 2, 3, 3, 3, 3, 5, 4, 4, 4, 4, 5, 5, 5]);
    assert!(t.crk_col.crk_idx.contains(3));
    assert!(t.crk_col.crk_idx.contains(4));
}

#[test]
fn decracked_repeated_lookups_give_same_rows() {
    let (src, dst) = src_dst();
    let mut t = decracked::from_adjacency_vectors(src, dst, "src");
    let first = t.cracker_select_specific(5, "dst");
    let second = t.cracker_select_specific(5, "dst");
    let mut a = first.clone();
    let mut b = second.clone();
    a.sort();
    b.sort();
    assert_eq!(a, b);
    assert_eq!(a, vec![1, 2, 3, 4]);
}

#[test]
fn decracked_lookup_of_absent_values_is_empty() {
    let (src, dst) = src_dst();
    let mut t = decracked::from_adjacency_vectors(src, dst, "src");
    assert!(t.cracker_select_specific(0, "dst").is_empty());
    assert!(t.cracker_select_specific(9, "dst").is_empty());
    assert_eq!(t.cracker_select_specific(1, "dst").len(), 4);
}

#[test]
fn decracked_table_operations() {
    let mut t = DeCrackedTable::new();
    t.new_columns(vec!["a".to_string(), "b".to_string()]);
    t.insert(vec![("a", vec![3, 1, 2]), ("b", vec![30, 10, 20])]);
    assert_eq!(t.count, 3);
    assert_eq!(t.get_col("a".to_string()).unwrap().v, vec![3, 1, 2]);
    assert!(t.get_col("c".to_string()).is_none());
    assert_eq!(t.count_col_eq("a", 2), 1);
    t.set_crk_col("a".to_string());
    assert_eq!(t.crk_col.crk, vec![3, 1, 2]);
    assert_eq!(t.crk_col.base_idx, vec![0, 1, 2]);
    let s = t.get_indices(&[2, 0]);
    assert_eq!(s.count, 2);
    assert_eq!(s.get_col("b".to_string()).unwrap().v, vec![20, 30]);
    assert_eq!(t.get_values(&[1, 2], "b"), vec![10, 20]);
    t.rearrange(&[1, 2, 0]);
    assert_eq!(t.get_col("a".to_string()).unwrap().v, vec![1, 2, 3]);
    assert!(t.crk_col.crk.is_empty());
    t.new_columns(vec!["a".to_string()]);
    assert!(t.get_col("a".to_string()).unwrap().v.is_empty());
}

#[test]
fn reco_lookup_finds_neighbours() {
    let (src, dst) = src_dst();
    let mut t = reco::from_adjacency_vectors(src, dst, "src");
    let n = t.cracker_select_specific(3, "dst");
    assert_eq!(n, vec![2, 1, 4, 5]);
    assert_eq!(t.crk_col.crk, vec![2, 2, 1, 1, 2, 1, 1, 2, 3, 3, 3, 3, 5, 4, 4, 4, 4, 5, 5, 5]);
    // The piece of 3 is now delimited by the index and answered from it.
    let again = t.cracker_select_specific(3, "dst");
    assert_eq!(again, vec![2, 1, 4, 5]);
}

#[test]
fn reco_range_lookup() {
    let (src, dst) = src_dst();
    let mut t = reco::from_adjacency_vectors(src, dst, "src");
    let mut r = t.cracker_select_in_three(1, 3, false, true, "src");
    r.sort();
    assert_eq!(r, vec![2, 2, 2, 2, 3, 3, 3, 3]);
    assert!(t.cracker_select_in_three(6, 9, true, true, "src").is_empty());
}

#[test]
fn reco_table_operations() {
    let mut t = ReCoTable::new();
    t.new_columns(vec!["x", "y"]);
    t.insert(vec![("x", vec![1, 2]), ("y", vec![3, 4])]);
    assert_eq!(t.count, 2);
    t.insert(vec![("x", vec![5]), ("y", vec![6]), ("z", vec![7, 8, 9])]);
    assert_eq!(t.count, 3);
    assert_eq!(t.get_i64_col("z").v, vec![7, 8, 9]);
    assert_eq!(t.get_i64_col("x").v, vec![1, 2, 5]);
    t.set_crk_col("y");
    assert_eq!(t.crk_col_name, "y".to_string());
    assert_eq!(t.count_col_eq("x", 5), 1);
    assert_eq!(t.get_values(&[2], "z"), vec![9]);
    let s = t.get_indices(&[1]);
    assert_eq!(s.get_i64_col("y").v, vec![4]);
    assert_eq!(s.crk_col.crk, vec![4]);
    t.rearrange(&[2, 1, 0]);
    assert_eq!(t.get_i64_col("x").v, vec![5, 2, 1]);
}

#[test]
fn coco_table_operations() {
    let (src, dst) = src_dst();
    let t = coco::from_adjacency_vectors(src, dst, "src");
    assert_eq!(t.count, 20);
    assert_eq!(t.crk_col.crk, t.get_i64_col("src").v);
    let s = t.get_indices(&[0, 1], 2..4);
    assert_eq!(s.count, 2);
    assert_eq!(s.get_i64_col("dst").v, vec![3, 5]);
    assert_eq!(s.crk_col.crk, vec![4, 1]);
    assert_eq!(t.count_col_eq("src", 4), 4);
    let mut u = CoCoTable::new();
    u.new_columns(vec!["a"]);
    u.insert(vec![("a", vec![1, 2, 3])]);
    u.set_crk_col("a");
    u.rearrange(&[2, 1, 0]);
    assert_eq!(u.get_i64_col("a").v, vec![3, 2, 1]);
}

#[test]
fn coco_compact_and_decompress() {
    let mut t = CoCoTable::new();
    t.new_columns(vec!["a", "b"]);
    t.insert(vec![("a", vec![1, 2, 2, 2, 3]), ("b", vec![10, 20, 21, 22, 30])]);
    t.set_crk_col("a");
    // The index delimits the piece of 2: positions 1..4.
    t.crk_col.crk_idx.insert(2, 1);
    t.crk_col.crk_idx.insert(3, 4);
    t.compact(2, 1);
    assert_eq!(t.crk_col.crk, vec![1, 2, 3]);
    assert_eq!(t.crk_col.ofs, vec![0, 1, 4]);
    assert_eq!(t.crk_col.crk_idx.get(3), Some(2));
    let piece = t.decompress_index(1);
    assert_eq!(piece.count, 3);
    assert_eq!(piece.get_i64_col("b").v, vec![20, 21, 22]);
}

fn sorted(mut v: Vec<i64>) -> Vec<i64> {
    v.sort();
    v
}

#[test]
fn coco_lookups_compact_the_pieces() {
    let mut t = coco::from_adjacency_vectors(vec![3, 1, 2, 1, 3], vec![10, 11, 12, 13, 14], "src");
    let ones = t.cracker_select_specific(1);
    assert_eq!(ones.count, 2);
    assert_eq!(sorted(ones.get_i64_col("dst").v.clone()), vec![11, 13]);
    assert_eq!(t.crk_col.crk, vec![1, 2, 3, 3]);
    assert_eq!(t.crk_col.ofs, vec![0, 2, 3, 4]);
    assert_eq!(t.crk_col.crk_idx.get(1), Some(0));
    assert_eq!(t.crk_col.crk_idx.get(2), Some(1));

    let again = t.cracker_select_specific(1);
    assert_eq!(sorted(again.get_i64_col("dst").v.clone()), vec![11, 13]);

    let threes = t.cracker_select_specific(3);
    assert_eq!(sorted(threes.get_i64_col("dst").v.clone()), vec![10, 14]);
    assert_eq!(t.crk_col.crk, vec![1, 2, 3]);
    assert_eq!(t.crk_col.ofs, vec![0, 2, 3]);

    let twos = t.cracker_select_specific(2);
    assert_eq!(twos.get_i64_col("dst").v, vec![12]);
    assert_eq!(twos.count, 1);

    let none = t.cracker_select_specific(7);
    assert_eq!(none.count, 0);
}

#[test]
fn coco_range_lookup_before_compaction() {
    let mut t = coco::from_adjacency_vectors(vec![4, 1, 3, 2, 5], vec![40, 10, 30, 20, 50], "src");
    let mid = t.cracker_select_in_three(2, 4, true, false);
    assert_eq!(sorted(mid.get_i64_col("dst").v.clone()), vec![20, 30]);
}

#[test]
fn overswap_lookups_move_runs() {
    let mut t = overswap::from_adjacency_vectors(vec![3, 1, 2, 1, 3], vec![10, 11, 12, 13, 14], "src");
    let ones = t.cracker_select_specific(1);
    assert_eq!(ones.count, 2);
    assert_eq!(ones.get_col("dst").v, vec![13, 11]);
    assert_eq!(t.crk_col.crk, vec![1, 1, 2, 3, 3]);
    assert_eq!(t.crk_col.base_idx, vec![3, 1, 2, 0, 4]);
    assert_eq!(t.crk_col.crk_idx.get(1), Some(0));
    assert_eq!(t.crk_col.crk_idx.get(2), Some(2));

    let threes = t.cracker_select_specific(3);
    assert_eq!(threes.get_col("dst").v, vec![10, 14]);
    assert_eq!(t.crk_col.crk_idx.get(3), Some(3));
    assert_eq!(t.crk_col.crk_idx.get(4), Some(5));

    let again = t.cracker_select_specific(1);
    assert_eq!(again.get_col("dst").v, vec![13, 11]);
}

#[test]
fn overswap_table_operations() {
    let (src, dst) = src_dst();
    let t = overswap::from_adjacency_vectors(src.clone(), dst, "src");
    assert_eq!(t.count, 20);
    assert_eq!(t.crk_col.v, src);
    assert!(t.crk_col.crk.is_empty());
    assert_eq!(t.get_col("dst").v[0], 3);
    assert_eq!(t.count_col_eq("src", 5), 4);
    let s = t.get_indices(&[0, 19]);
    assert_eq!(s.get_col("src").v, vec![5, 5]);
    let mut u = OverswapRLETable::new();
    assert!(!u.dbg_switch);
    u.new_columns(vec!["k"]);
    u.insert(vec![("k", vec![4, 5])]);
    u.set_crk_col("k");
    assert_eq!(u.crk_col.v, vec![4, 5]);
    u.rearrange(&[1, 0]);
    assert_eq!(u.get_col("k").v, vec![5, 4]);
}

#[test]
fn data_set_paths() {
    assert_eq!(uni_data_home(), "/homes/rrm115/Data");
    assert_eq!(home_data_home(), "/home/rob/S3G2/ldbc_snb_datagen");
    assert_eq!(cur_data_home(), home_data_home());
    assert_eq!(social_network_sf1(), "/home/rob/S3G2/ldbc_snb_datagen/social_network_sf1");
    assert_eq!(social_network_sf10(), "/home/rob/S3G2/ldbc_snb_datagen/social_network_sf10");
    assert_eq!(nodes("d".to_string()), "d/person_0_0.csv");
    assert_eq!(edges("d".to_string()), "d/person_knows_person_0_0.csv");
}

#[test]
fn friendships_become_adjacency_vectors() {
    let fs = vec![Friendship { p1id: 1, p2id: 2 }, Friendship { p1id: 3, p2id: 4 }];
    let (src, dst) = adjacency_vectors(&fs);
    assert_eq!(src, vec![1, 3]);
    assert_eq!(dst, vec![2, 4]);
}

#[test]
fn coco_lookup_of_a_value_filling_the_column_answers_all_its_rows() {
    let mut t = coco::from_adjacency_vectors(vec![2, 2], vec![1, 5], "src");
    let twos = t.cracker_select_specific(2);
    assert_eq!(twos.count, 2);
    assert_eq!(sorted(twos.get_i64_col("dst").v.clone()), vec![1, 5]);
    let again = t.cracker_select_specific(2);
    assert_eq!(sorted(again.get_i64_col("dst").v.clone()), vec![1, 5]);
}

#[test]
fn coco_lookups_answer_every_row_of_the_value() {
    let mut t = coco::from_adjacency_vectors(vec![2, 1, 2, 3], vec![10, 20, 30, 40], "src");
    let r1 = t.cracker_select_specific(2);
    assert_eq!(r1.count, 2);
    assert_eq!(sorted(r1.get_i64_col("dst").v.clone()), vec![10, 30]);
    let r2 = t.cracker_select_specific(2);
    assert_eq!(sorted(r2.get_i64_col("dst").v.clone()), vec![10, 30]);
    let r3 = t.cracker_select_specific(1);
    assert_eq!(r3.get_i64_col("src").v, vec![1]);
    assert_eq!(r3.get_i64_col("dst").v, vec![20]);
}

#[test]
fn coco_single_value_lookups_answer_only_rows_of_the_value() {
    let src = vec![5, 3, 1, 3, 2, 5, 4, 1, 3];
    let dst: Vec<i64> = (0..9).collect();
    let mut t = coco::from_adjacency_vectors(src.clone(), dst, "src");
    for x in [3, 1, 5, 2, 4, 3, 1, 6, 0, 5] {
        let sel = t.cracker_select_specific(x);
        for d in sel.get_i64_col("dst").v.iter() {
            assert_eq!(src[*d as usize], x);
        }
        assert_eq!(sel.count, src.iter().filter(|v| **v == x).count());
    }
}
