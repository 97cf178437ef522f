use cracking::avl::{
    delete, insert, max, max_before, max_pair, min, min_after, min_pair, search, search_pair, AVLTree, Node,
};
use cracking::cracker_index::CrackerIndex;
use cracking::graph::cracker_index::{AVLCrackerIndex, ArrayCrackerIndex};

#[test]
fn avl_tree_insert_get_delete() {
    let mut t: AVLTree<i64, String> = AVLTree::new();
    assert!(t.empty());
    for k in [50i64, 20, 80, 10, 30, 70, 90, 25, 27, 26] {
        t.insert(k, format!("v{}", k));
    }
    assert!(!t.empty());
    assert_eq!(t.get(27), Some(&"v27".to_string()));
    assert_eq!(t.get(28), None);
    t.insert(27, "again".to_string());
    assert_eq!(t.get(27), Some(&"again".to_string()));
    t.delete(27);
    assert!(!t.contains(27));
    assert!(t.contains(26));
    let dflt = "none".to_string();
    assert_eq!(t.get_or(27, &dflt), &dflt);
    assert_eq!(t.get_or(50, &dflt), &"v50".to_string());
}

#[test]
fn avl_tree_bounds() {
    let mut t: AVLTree<i64, usize> = AVLTree::new();
    for (k, d) in [(10i64, 1usize), (20, 2), (30, 3), (40, 4)] {
        t.insert(k, d);
    }
    assert_eq!(t.upper_bound(&25), Some(&3));
    assert_eq!(t.upper_bound(&30), Some(&3));
    assert_eq!(t.upper_bound(&41), None);
    assert_eq!(t.lower_bound(&25), Some(&2));
    assert_eq!(t.lower_bound(&10), Some(&1));
    assert_eq!(t.lower_bound(&9), None);
}

#[test]
fn avl_tree_many_keys_stay_searchable() {
    let mut t: AVLTree<i64, i64> = AVLTree::new();
    for k in 0..1000i64 {
        t.insert(k, k * 2);
    }
    for k in (0..1000i64).step_by(3) {
        t.delete(k);
    }
    for k in 0..1000i64 {
        assert_eq!(t.contains(k), k % 3 != 0);
    }
    assert_eq!(t.get(500), Some(&1000));
}

#[test]
fn avl_node_functions() {
    let mut root = Box::new(Node::new(5i64, 50usize));
    for k in [3i64, 8, 1, 4, 7, 9] {
        root = insert(k, (k * 10) as usize, root);
    }
    assert_eq!(search(&4, &root), Some(&40));
    assert_eq!(search(&6, &root), None);
    assert_eq!(search_pair(&7, &root), Some((&7, &70)));
    assert_eq!(min_after(&6, &root), Some((&7, &70)));
    assert_eq!(max_before(&6, &root), Some((&5, &50)));
    assert_eq!(min_pair(&root), (&1, &10));
    assert_eq!(max_pair(&root), (&9, &90));
    assert_eq!(*min(&root), 10);
    assert_eq!(*max(&root), 90);
    let rest = delete(5, root).unwrap();
    assert_eq!(search(&5, &rest), None);
    assert_eq!(search(&4, &rest), Some(&40));
    let single = Box::new(Node::new(1i64, 1usize));
    assert!(delete(1, single).is_none());
}

#[test]
fn array_cracker_index_behaviour() {
    let mut idx = CrackerIndex::new();
    assert!(idx.empty());
    idx.insert(3, 7);
    idx.insert(-1, 9);
    idx.insert(6, 2);
    assert_eq!(idx.index.len(), 7);
    assert_eq!(idx.get(3), Some(7));
    assert_eq!(idx.get(-1), None);
    assert_eq!(idx.get(4), None);
    assert!(idx.contains(6));
    assert_eq!(idx.upper_bound(&4), Some(2));
    assert_eq!(idx.upper_bound(&7), None);
    assert_eq!(idx.lower_bound(&5), Some(7));
    assert_eq!(idx.lower_bound(&2), None);
    assert_eq!(idx.clone().get_or(4, 11), 11);
    assert_eq!(idx.upper_bound(&-4), Some(7));
    assert_eq!(idx.lower_bound(&20), Some(2));
    idx.delete(3);
    assert_eq!(idx.get(3), None);
    assert_eq!(idx.get(6), Some(2));
}

#[test]
fn array_index_bounds_reach_keys_on_either_side_of_the_array() {
    let mut a = ArrayCrackerIndex::new();
    a.insert(2, 5);
    a.insert(6, 9);
    assert_eq!(a.upper_bound(&2), Some(5));
    assert_eq!(a.upper_bound(&3), Some(9));
    assert_eq!(a.upper_bound(&6), Some(9));
    assert_eq!(a.upper_bound(&7), None);
    assert_eq!(a.upper_bound(&-1), Some(5));
    assert_eq!(a.lower_bound(&1), None);
    assert_eq!(a.lower_bound(&2), Some(5));
    assert_eq!(a.lower_bound(&5), Some(5));
    assert_eq!(a.lower_bound(&6), Some(9));
    assert_eq!(a.lower_bound(&10), Some(9));
}

#[test]
fn array_index_delete_keeps_the_other_keys() {
    let mut a = ArrayCrackerIndex::new();
    a.insert(1, 10);
    a.insert(3, 30);
    a.delete(1);
    assert_eq!(a.get(1), None);
    assert_eq!(a.get(2), None);
    assert_eq!(a.get(3), Some(30));
}

#[test]
fn graph_array_cracker_index_subtracts_above_threshold() {
    let mut idx = ArrayCrackerIndex::new();
    idx.insert(1, 4);
    idx.insert(3, 10);
    idx.insert(5, 12);
    idx.subtract_where_greater_than(2, 3);
    assert_eq!(idx.get(1), Some(4));
    assert_eq!(idx.get(3), Some(7));
    assert_eq!(idx.get(5), Some(9));
    assert_eq!(idx.upper_bound(&4), Some(9));
    assert_eq!(idx.lower_bound(&4), Some(7));
}

#[test]
fn avl_cracker_index_behaviour() {
    let mut idx = AVLCrackerIndex::new();
    assert!(idx.empty());
    for (k, d) in [(-5i64, 0usize), (3, 4), (10, 8), (7, 6)] {
        idx.insert(k, d);
    }
    assert_eq!(idx.get(-5), Some(0));
    assert_eq!(idx.get(4), None);
    assert_eq!(idx.get_or(4, 99), 99);
    assert!(idx.contains(7));
    assert_eq!(idx.upper_bound(&4), Some(6));
    assert_eq!(idx.upper_bound(&11), None);
    assert_eq!(idx.lower_bound(&4), Some(4));
    assert_eq!(idx.lower_bound(&-6), None);
    idx.subtract_where_greater_than(3, 2);
    assert_eq!(idx.get(3), Some(4));
    assert_eq!(idx.get(7), Some(4));
    assert_eq!(idx.get(10), Some(6));
    idx.delete(7);
    assert!(!idx.contains(7));
    let copy = idx.clone();
    assert_eq!(copy.get(10), Some(6));
}
