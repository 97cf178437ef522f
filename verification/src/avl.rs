//! A generic AVL tree mapping ordered keys to data, and a map type built on it.

use vstd::prelude::*;
use vstd::arithmetic::power2::{pow2, lemma_pow2_unfold, lemma2_to64_rest};
use vstd::laws_cmp::{
    obeys_cmp, obeys_cmp_ord, obeys_cmp_partial_ord, obeys_partial_cmp_spec_properties,
};
use vstd::laws_eq::{obeys_concrete_eq, obeys_eq_spec_properties};
use vstd::std_specs::cmp::{OrdSpec, PartialOrdSpec, PartialEqSpec};
use std::cmp::Ordering;
use std::fmt::Debug;

verus! {

/// The keys are totally ordered by `cmp`, and two keys are equal exactly when they are the same.
pub open spec fn key_order<K: Ord>() -> bool {
    obeys_cmp::<K>() && obeys_concrete_eq::<K>()
}

/// `a` comes before `b` in the order of the keys.
pub open spec fn key_lt<K: Ord>(a: K, b: K) -> bool {
    a.cmp_spec(&b) == Ordering::Less
}

/// `a` does not come after `b`.
pub open spec fn key_le<K: Ord>(a: K, b: K) -> bool {
    !key_lt(b, a)
}

/// What a lawful order on the keys gives: `cmp` follows its specification, and its `Less` is a
/// strict total order whose `Equal` is equality.
pub proof fn lemma_key_order<K: Ord>()
    requires
        key_order::<K>(),
    ensures
        K::obeys_cmp_spec(),
        forall|a: K, b: K| (#[trigger] a.cmp_spec(&b) == Ordering::Equal) <==> a == b,
        forall|a: K, b: K| (#[trigger] a.cmp_spec(&b) == Ordering::Greater) <==> key_lt(b, a),
        forall|a: K, b: K, c: K| #![trigger key_lt(a, b), key_lt(b, c)] key_lt(a, b) && key_lt(b, c) ==> key_lt(a, c),
        forall|a: K, b: K| #[trigger] key_lt(a, b) ==> a != b && !key_lt(b, a),
        forall|a: K, b: K| a != b ==> #[trigger] key_lt(a, b) || key_lt(b, a),
{
    reveal(obeys_cmp_partial_ord);
    reveal(obeys_cmp_ord);
    reveal(obeys_partial_cmp_spec_properties);
    reveal(obeys_eq_spec_properties);
    reveal(obeys_concrete_eq);
    assert forall|a: K, b: K| (#[trigger] a.cmp_spec(&b) == Ordering::Equal) <==> a == b by {
        assert(a.partial_cmp_spec(&b) == Some(a.cmp_spec(&b)));
        assert(a.eq_spec(&b) <==> a == b);
    }
    assert forall|a: K, b: K| (#[trigger] a.cmp_spec(&b) == Ordering::Greater) <==> key_lt(b, a) by {
        assert(a.partial_cmp_spec(&b) == Some(a.cmp_spec(&b)));
        assert(b.partial_cmp_spec(&a) == Some(b.cmp_spec(&a)));
    }
    assert forall|a: K, b: K, c: K| #![trigger key_lt(a, b), key_lt(b, c)] key_lt(a, b) && key_lt(b, c) implies key_lt(a, c) by {
        assert(a.partial_cmp_spec(&b) == Some(a.cmp_spec(&b)));
        assert(b.partial_cmp_spec(&c) == Some(b.cmp_spec(&c)));
        assert(a.partial_cmp_spec(&c) == Some(a.cmp_spec(&c)));
    }
    assert forall|a: K, b: K| #[trigger] key_lt(a, b) implies a != b && !key_lt(b, a) by {
        assert(a.partial_cmp_spec(&b) == Some(a.cmp_spec(&b)));
        assert(b.partial_cmp_spec(&a) == Some(b.cmp_spec(&a)));
        assert(a.partial_cmp_spec(&a) == Some(a.cmp_spec(&a)));
    }
    assert forall|a: K, b: K| a != b implies #[trigger] key_lt(a, b) || key_lt(b, a) by {
        assert(a.partial_cmp_spec(&b) == Some(a.cmp_spec(&b)));
        assert(b.partial_cmp_spec(&a) == Some(b.cmp_spec(&a)));
    }
}

/// A node of an AVL tree: a key with its data and the subtrees of smaller and larger keys.
pub struct Node<K: Ord, D: Debug> {
    key: K,
    data: D,
    height: u64,
    left: Option<Box<Node<K, D>>>,
    right: Option<Box<Node<K, D>>>,
}

/// The key/value pairs held by a subtree.
pub closed spec fn tree_map<K: Ord, D: Debug>(t: Option<Box<Node<K, D>>>) -> Map<K, D>
    decreases t,
{
    match t {
        None => Map::empty(),
        Some(n) => tree_map(n.left).union_prefer_right(tree_map(n.right)).insert(n.key, n.data),
    }
}

/// A subtree holds finitely many keys.
pub proof fn lemma_tree_map_finite<K: Ord, D: Debug>(t: Option<Box<Node<K, D>>>)
    ensures
        tree_map(t).dom().finite(),
    decreases t,
{
    if let Some(n) = t {
        lemma_tree_map_finite(n.left);
        lemma_tree_map_finite(n.right);
        let l = tree_map(n.left);
        let r = tree_map(n.right);
        assert(l.union_prefer_right(r).dom() =~= l.dom().union(r.dom()));
    }
}

/// The height of a subtree, counted in nodes on its longest path.
pub closed spec fn tree_height<K: Ord, D: Debug>(t: Option<Box<Node<K, D>>>) -> nat
    decreases t,
{
    match t {
        None => 0,
        Some(n) => {
            let l = tree_height(n.left);
            let r = tree_height(n.right);
            1 + if l >= r { l } else { r }
        },
    }
}

pub closed spec fn keys_below<K: Ord, D: Debug>(t: Option<Box<Node<K, D>>>, k: K) -> bool {
    forall|x: K| #[trigger] tree_map(t).dom().contains(x) ==> key_lt(x, k)
}

pub closed spec fn keys_above<K: Ord, D: Debug>(t: Option<Box<Node<K, D>>>, k: K) -> bool {
    forall|x: K| #[trigger] tree_map(t).dom().contains(x) ==> key_lt(k, x)
}

/// The search-tree order holds and every cached height is exact.
pub closed spec fn tree_ord<K: Ord, D: Debug>(t: Option<Box<Node<K, D>>>) -> bool
    decreases t,
{
    match t {
        None => true,
        Some(n) => {
            &&& tree_ord(n.left)
            &&& tree_ord(n.right)
            &&& keys_below(n.left, n.key)
            &&& keys_above(n.right, n.key)
            &&& n.height == tree_height(t)
        },
    }
}

/// Sibling subtrees differ in height by at most one, everywhere.
pub closed spec fn tree_bal<K: Ord, D: Debug>(t: Option<Box<Node<K, D>>>) -> bool
    decreases t,
{
    match t {
        None => true,
        Some(n) => {
            &&& tree_bal(n.left)
            &&& tree_bal(n.right)
            &&& tree_height(n.left) <= tree_height(n.right) + 1
            &&& tree_height(n.right) <= tree_height(n.left) + 1
        },
    }
}

/// A well-formed AVL tree.
pub closed spec fn tree_wf<K: Ord, D: Debug>(t: Option<Box<Node<K, D>>>) -> bool {
    tree_ord(t) && tree_bal(t)
}

/// The children of `n` are ordered search trees on either side of its key (its own cached
/// height may be stale).
closed spec fn parts_ord<K: Ord, D: Debug>(n: Node<K, D>) -> bool {
    &&& tree_ord(n.left)
    &&& tree_ord(n.right)
    &&& keys_below(n.left, n.key)
    &&& keys_above(n.right, n.key)
}

closed spec fn tree_count<K: Ord, D: Debug>(t: Option<Box<Node<K, D>>>) -> nat
    decreases t,
{
    match t {
        None => 0,
        Some(n) => tree_count(n.left) + 1 + tree_count(n.right),
    }
}

/// The fewest nodes an AVL tree of height `h` can have.
closed spec fn min_nodes(h: nat) -> nat
    decreases h,
{
    if h == 0 {
        0
    } else if h == 1 {
        1
    } else {
        1 + min_nodes((h - 1) as nat) + min_nodes((h - 2) as nat)
    }
}

proof fn lemma_min_nodes_mono(a: nat, b: nat)
    requires
        a <= b,
    ensures
        min_nodes(a) <= min_nodes(b),
    decreases b,
{
    if a < b {
        lemma_min_nodes_mono(a, (b - 1) as nat);
        assert(min_nodes((b - 1) as nat) <= min_nodes(b)) by {
            if b >= 2 {
            }
        }
    }
}

proof fn lemma_min_nodes_pow(k: nat)
    ensures
        min_nodes(2 * k + 1) >= pow2(k),
    decreases k,
{
    if k == 0 {
        vstd::arithmetic::power2::lemma_pow2(0);
        vstd::arithmetic::power::lemma_pow0(2);
    } else {
        lemma_min_nodes_pow((k - 1) as nat);
        lemma_min_nodes_mono((2 * k - 1) as nat, (2 * k) as nat);
        lemma_pow2_unfold(k);
        assert(min_nodes(2 * k + 1) == 1 + min_nodes((2 * k) as nat) + min_nodes((2 * k - 1) as nat));
    }
}

proof fn lemma_count<K: Ord, D: Debug>(t: Option<Box<Node<K, D>>>)
    requires
        tree_bal(t),
    ensures
        tree_count(t) >= min_nodes(tree_height(t)),
    decreases t,
{
    if let Some(n) = t {
        lemma_count(n.left);
        lemma_count(n.right);
        let h = tree_height(t);
        if h >= 2 {
            let hl = tree_height(n.left);
            let hr = tree_height(n.right);
            if hl >= hr {
                lemma_min_nodes_mono((h - 2) as nat, hr);
            } else {
                lemma_min_nodes_mono((h - 2) as nat, hl);
            }
        }
    }
}

/// A well-formed AVL tree with fewer than 2^64 nodes is at most 130 levels high.
proof fn lemma_height_bound<K: Ord, D: Debug>(t: Option<Box<Node<K, D>>>)
    requires
        tree_wf(t),
        tree_count(t) < 0x1_0000_0000_0000_0000,
    ensures
        tree_height(t) <= 130,
{
    lemma_count(t);
    if tree_height(t) > 130 {
        lemma_min_nodes_mono(131, tree_height(t));
        lemma_min_nodes_pow(65);
        lemma_pow2_unfold(65);
        lemma2_to64_rest();
        assert(false);
    }
}

/// An ordered tree holds as many entries as it has nodes.
proof fn lemma_count_len<K: Ord, D: Debug>(t: Option<Box<Node<K, D>>>)
    requires
        key_order::<K>(),
        tree_ord(t),
    ensures
        tree_map(t).dom().finite(),
        tree_map(t).dom().len() == tree_count(t),
    decreases t,
{
    lemma_key_order::<K>();
    if let Some(n) = t {
        lemma_count_len(n.left);
        lemma_count_len(n.right);
        let l = tree_map(n.left).dom();
        let r = tree_map(n.right).dom();
        assert(l.disjoint(r)) by {
            assert forall|x: K| l.contains(x) implies !r.contains(x) by {
                if r.contains(x) {
                    assert(key_lt(x, n.key));
                    assert(key_lt(n.key, x));
                }
            }
        }
        vstd::set_lib::lemma_set_disjoint_lens(l, r);
        assert(!l.union(r).contains(n.key)) by {
            if l.contains(n.key) {
                assert(key_lt(n.key, n.key));
            }
            if r.contains(n.key) {
                assert(key_lt(n.key, n.key));
            }
        }
        assert(tree_map(t).dom() =~= l.union(r).insert(n.key));
    }
}

/// The height cached at the root of a subtree, 0 when empty.
closed spec fn cached<K: Ord, D: Debug>(t: Option<Box<Node<K, D>>>) -> nat {
    match t {
        None => 0,
        Some(n) => n.height as nat,
    }
}

proof fn lemma_cached<K: Ord, D: Debug>(t: Option<Box<Node<K, D>>>)
    requires
        tree_ord(t),
    ensures
        cached(t) == tree_height(t),
{
}

/// The node with the given fields, its height computed from its children.
closed spec fn mk<K: Ord, D: Debug>(key: K, data: D, left: Option<Box<Node<K, D>>>, right: Option<Box<Node<K, D>>>) -> Node<K, D> {
    Node {
        key,
        data,
        height: (1 + if tree_height(left) >= tree_height(right) { tree_height(left) } else { tree_height(right) }) as u64,
        left,
        right,
    }
}

fn height<K: Ord, D: Debug>(node: &Option<Box<Node<K, D>>>) -> (r: u64)
    ensures
        r == cached(*node),
{
    match node {
        Some(succ) => succ.height,
        None => 0,
    }
}

/// Recomputes the cached height of `root` from the cached heights of its children.
fn update_height<K: Ord, D: Debug>(root: &mut Node<K, D>)
    requires
        key_order::<K>(),
        cached(old(root).left) < u64::MAX,
        cached(old(root).right) < u64::MAX,
    ensures
        final(root).key == old(root).key,
        final(root).data == old(root).data,
        final(root).left == old(root).left,
        final(root).right == old(root).right,
        final(root).height == 1 + if cached(old(root).left) >= cached(old(root).right) {
            cached(old(root).left)
        } else {
            cached(old(root).right)
        },
{
    proof {
        lemma_key_order::<K>();
    }
    let l = height(&root.left);
    let r = height(&root.right);
    root.height = if l >= r { l } else { r } + 1;
}

/// Moving the middle subtree across a rotation keeps the union of three ordered maps.
proof fn lemma_rotation_map<K: Ord, D: Debug>(
    a: Map<K, D>,
    b: Map<K, D>,
    c: Map<K, D>,
    k1: K,
    d1: D,
    k2: K,
    d2: D,
)
    requires
        key_order::<K>(),
        forall|x: K| #[trigger] a.dom().contains(x) ==> key_lt(x, k1),
        forall|x: K| #[trigger] b.dom().contains(x) ==> key_lt(k1, x) && key_lt(x, k2),
        forall|x: K| #[trigger] c.dom().contains(x) ==> key_lt(k2, x),
        key_lt(k1, k2),
    ensures
        a.union_prefer_right(b.union_prefer_right(c).insert(k2, d2)).insert(k1, d1)
            == a.union_prefer_right(b).insert(k1, d1).union_prefer_right(c).insert(k2, d2),
{
    lemma_key_order::<K>();
    let lhs = a.union_prefer_right(b.union_prefer_right(c).insert(k2, d2)).insert(k1, d1);
    let rhs = a.union_prefer_right(b).insert(k1, d1).union_prefer_right(c).insert(k2, d2);
    assert forall|x: K| lhs.dom().contains(x) == rhs.dom().contains(x) by {}
    assert forall|x: K| lhs.dom().contains(x) implies lhs[x] == rhs[x] by {
        if x == k1 {
        } else if x == k2 {
        } else if a.dom().contains(x) {
        } else if b.dom().contains(x) {
        } else {
        }
    }
    assert(lhs =~= rhs);
}

/// Single right rotation: the left child becomes the root.
fn rotate_right<K: Ord, D: Debug>(mut root: Box<Node<K, D>>) -> (r: Box<Node<K, D>>)
    requires
        key_order::<K>(),
        root.left is Some,
        parts_ord(*root),
        tree_height(root.left) <= 200,
        tree_height(root.right) <= 200,
    ensures
        ({
            let l = root.left.unwrap();
            *r == mk(l.key, l.data, l.left, Some(Box::new(mk(root.key, root.data, l.right, root.right))))
        }),
        tree_ord(Some(r)),
        tree_map(Some(r)) == tree_map(Some(root)),
{
    proof {
        lemma_key_order::<K>();
    }
    let ghost old_root = *root;
    let ghost l = *old_root.left.unwrap();
    proof {
        assert(tree_ord(Some(Box::new(l))));
        lemma_cached(l.left);
        lemma_cached(l.right);
        lemma_cached(old_root.right);
    }
    let mut new_root_box = root.left.take().expect("AVL broken");
    root.left = new_root_box.right.take();
    update_height(&mut root);
    let ghost n2 = *root;
    proof {
        assert(n2 == mk(old_root.key, old_root.data, l.right, old_root.right));
        assert forall|x: K| #[trigger] tree_map(l.right).dom().contains(x) implies key_lt(x, old_root.key) by {
            assert(tree_map(Some(Box::new(l))).dom().contains(x));
        }
        assert(tree_ord(Some(Box::new(n2))));
        assert(tree_map(Some(Box::new(l))).dom().contains(l.key));
        assert forall|x: K| #[trigger] tree_map(Some(Box::new(n2))).dom().contains(x) implies key_lt(l.key, x) by {
            if tree_map(l.right).dom().contains(x) {
            } else if tree_map(old_root.right).dom().contains(x) {
            } else {
            }
        }
    }
    new_root_box.right = Some(root);
    update_height(&mut new_root_box);
    proof {
        assert(tree_ord(Some(new_root_box)));
        lemma_rotation_map(tree_map(l.left), tree_map(l.right), tree_map(old_root.right), l.key, l.data, old_root.key, old_root.data);
        assert(tree_map(Some(Box::new(l))).dom().contains(l.key));
        assert(tree_map(Some(Box::new(n2))) == tree_map(l.right).union_prefer_right(tree_map(old_root.right)).insert(old_root.key, old_root.data));
        assert(tree_map(Some(Box::new(l))) == tree_map(l.left).union_prefer_right(tree_map(l.right)).insert(l.key, l.data));
        assert(tree_map(Some(Box::new(old_root))) == tree_map(Some(Box::new(l))).union_prefer_right(tree_map(old_root.right)).insert(old_root.key, old_root.data));
        assert(tree_map(Some(new_root_box)) == tree_map(l.left).union_prefer_right(tree_map(Some(Box::new(n2)))).insert(l.key, l.data));
    }
    new_root_box
}

/// Single left rotation: the right child becomes the root.
fn rotate_left<K: Ord, D: Debug>(mut root: Box<Node<K, D>>) -> (r: Box<Node<K, D>>)
    requires
        key_order::<K>(),
        root.right is Some,
        parts_ord(*root),
        tree_height(root.left) <= 200,
        tree_height(root.right) <= 200,
    ensures
        ({
            let rr = root.right.unwrap();
            *r == mk(rr.key, rr.data, Some(Box::new(mk(root.key, root.data, root.left, rr.left))), rr.right)
        }),
        tree_ord(Some(r)),
        tree_map(Some(r)) == tree_map(Some(root)),
{
    proof {
        lemma_key_order::<K>();
    }
    let ghost old_root = *root;
    let ghost rr = *old_root.right.unwrap();
    proof {
        assert(tree_ord(Some(Box::new(rr))));
        lemma_cached(rr.left);
        lemma_cached(rr.right);
        lemma_cached(old_root.left);
    }
    let mut new_root_box = root.right.take().expect("AVL broken");
    root.right = new_root_box.left.take();
    update_height(&mut root);
    let ghost n2 = *root;
    proof {
        assert(n2 == mk(old_root.key, old_root.data, old_root.left, rr.left));
        assert forall|x: K| #[trigger] tree_map(rr.left).dom().contains(x) implies key_lt(old_root.key, x) by {
            assert(tree_map(Some(Box::new(rr))).dom().contains(x));
        }
        assert(tree_ord(Some(Box::new(n2))));
        assert(tree_map(Some(Box::new(rr))).dom().contains(rr.key));
        assert forall|x: K| #[trigger] tree_map(Some(Box::new(n2))).dom().contains(x) implies key_lt(x, rr.key) by {
            if tree_map(rr.left).dom().contains(x) {
            } else if tree_map(old_root.left).dom().contains(x) {
            } else {
            }
        }
    }
    new_root_box.left = Some(root);
    update_height(&mut new_root_box);
    proof {
        assert(tree_ord(Some(new_root_box)));
        lemma_rotation_map(tree_map(old_root.left), tree_map(rr.left), tree_map(rr.right), old_root.key, old_root.data, rr.key, rr.data);
        assert(tree_map(Some(Box::new(n2))) == tree_map(old_root.left).union_prefer_right(tree_map(rr.left)).insert(old_root.key, old_root.data));
        assert(tree_map(Some(Box::new(rr))) == tree_map(rr.left).union_prefer_right(tree_map(rr.right)).insert(rr.key, rr.data));
        assert(tree_map(Some(Box::new(old_root))) == tree_map(old_root.left).union_prefer_right(tree_map(Some(Box::new(rr)))).insert(old_root.key, old_root.data));
        assert(tree_map(Some(new_root_box)) == tree_map(Some(Box::new(n2))).union_prefer_right(tree_map(rr.right)).insert(rr.key, rr.data));
    }
    new_root_box
}

/// The height and balance of a node built by `mk`.
proof fn lemma_mk<K: Ord, D: Debug>(key: K, data: D, left: Option<Box<Node<K, D>>>, right: Option<Box<Node<K, D>>>)
    ensures
        ({
            let t = Some(Box::new(mk(key, data, left, right)));
            &&& tree_height(t) == 1 + if tree_height(left) >= tree_height(right) { tree_height(left) } else { tree_height(right) }
            &&& tree_bal(t) == (tree_bal(left) && tree_bal(right) && tree_height(left) <= tree_height(right) + 1
                && tree_height(right) <= tree_height(left) + 1)
        }),
{
}

/// Rebalances a node whose left subtree is two levels higher than its right one.
fn rotate_left_successor<K: Ord, D: Debug>(mut root: Box<Node<K, D>>) -> (r: Box<Node<K, D>>)
    requires
        key_order::<K>(),
        parts_ord(*root),
        tree_bal(root.left),
        tree_bal(root.right),
        tree_height(root.left) == tree_height(root.right) + 2,
        tree_height(root.left) <= 200,
    ensures
        tree_wf(Some(r)),
        tree_map(Some(r)) == tree_map(Some(root)),
        tree_height(root.left) <= tree_height(Some(r)) <= tree_height(root.left) + 1,
{
    proof {
        lemma_key_order::<K>();
    }
    let ghost old_root = *root;
    let ghost l = *old_root.left.unwrap();
    let ghost hr = tree_height(old_root.right);
    proof {
        assert(tree_ord(Some(Box::new(l))));
        assert(tree_bal(Some(Box::new(l))));
        lemma_cached(l.left);
        lemma_cached(l.right);
        lemma_cached(old_root.right);
    }
    let left = root.left.take().expect("AVL broken");
    if height(&left.left) < height(&left.right) {
        let ghost lr = *l.right.unwrap();
        proof {
            assert(tree_ord(Some(Box::new(lr))));
            assert(tree_bal(Some(Box::new(lr))));
        }
        let rotated = rotate_left(left);
        proof {
            lemma_mk(l.key, l.data, l.left, lr.left);
            lemma_mk(lr.key, lr.data, Some(Box::new(mk(l.key, l.data, l.left, lr.left))), lr.right);
        }
        root.left = Some(rotated);
        proof {
            lemma_cached(root.left);
        }
        update_height(&mut root);
        let ghost r0 = *root;
        let res = rotate_right(root);
        proof {
            lemma_mk(r0.key, r0.data, lr.right, old_root.right);
            lemma_mk(lr.key, lr.data, Some(Box::new(mk(l.key, l.data, l.left, lr.left))), Some(Box::new(mk(r0.key, r0.data, lr.right, old_root.right))));
            assert(tree_map(Some(Box::new(r0))) == tree_map(Some(Box::new(old_root))));
        }
        res
    } else {
        root.left = Some(left);
        let ghost r0 = *root;
        let res = rotate_right(root);
        proof {
            lemma_mk(r0.key, r0.data, l.right, old_root.right);
            lemma_mk(l.key, l.data, l.left, Some(Box::new(mk(r0.key, r0.data, l.right, old_root.right))));
        }
        res
    }
}

/// Rebalances a node whose right subtree is two levels higher than its left one.
fn rotate_right_successor<K: Ord, D: Debug>(mut root: Box<Node<K, D>>) -> (r: Box<Node<K, D>>)
    requires
        key_order::<K>(),
        parts_ord(*root),
        tree_bal(root.left),
        tree_bal(root.right),
        tree_height(root.right) == tree_height(root.left) + 2,
        tree_height(root.right) <= 200,
    ensures
        tree_wf(Some(r)),
        tree_map(Some(r)) == tree_map(Some(root)),
        tree_height(root.right) <= tree_height(Some(r)) <= tree_height(root.right) + 1,
{
    proof {
        lemma_key_order::<K>();
    }
    let ghost old_root = *root;
    let ghost rt = *old_root.right.unwrap();
    proof {
        assert(tree_ord(Some(Box::new(rt))));
        assert(tree_bal(Some(Box::new(rt))));
        lemma_cached(rt.left);
        lemma_cached(rt.right);
        lemma_cached(old_root.left);
    }
    let right = root.right.take().expect("AVL broken");
    if height(&right.left) > height(&right.right) {
        let ghost rl = *rt.left.unwrap();
        proof {
            assert(tree_ord(Some(Box::new(rl))));
            assert(tree_bal(Some(Box::new(rl))));
        }
        let rotated = rotate_right(right);
        proof {
            lemma_mk(rt.key, rt.data, rl.right, rt.right);
            lemma_mk(rl.key, rl.data, rl.left, Some(Box::new(mk(rt.key, rt.data, rl.right, rt.right))));
        }
        root.right = Some(rotated);
        proof {
            lemma_cached(root.right);
        }
        update_height(&mut root);
        let ghost r0 = *root;
        let res = rotate_left(root);
        proof {
            lemma_mk(r0.key, r0.data, old_root.left, rl.left);
            lemma_mk(rl.key, rl.data, Some(Box::new(mk(r0.key, r0.data, old_root.left, rl.left))), Some(Box::new(mk(rt.key, rt.data, rl.right, rt.right))));
            assert(tree_map(Some(Box::new(r0))) == tree_map(Some(Box::new(old_root))));
        }
        res
    } else {
        root.right = Some(right);
        let ghost r0 = *root;
        let res = rotate_left(root);
        proof {
            lemma_mk(r0.key, r0.data, old_root.left, rt.left);
            lemma_mk(rt.key, rt.data, Some(Box::new(mk(r0.key, r0.data, old_root.left, rt.left))), rt.right);
        }
        res
    }
}

closed spec fn hmax(a: nat, b: nat) -> nat {
    if a >= b { a } else { b }
}

fn diff_of_successors_height<K: Ord, D: Debug>(root: &Box<Node<K, D>>) -> (r: i32)
    requires
        cached(root.left) <= 200,
        cached(root.right) <= 200,
    ensures
        r == cached(root.left) - cached(root.right),
{
    let l = height(&root.left);
    let r = height(&root.right);
    (l as i32) - (r as i32)
}

/// Applies the rotations that restore the balance of `root`, whose subtrees are balanced
/// and differ in height by at most two.
fn rotate_if_necessary<K: Ord, D: Debug>(root: Box<Node<K, D>>) -> (r: Box<Node<K, D>>)
    requires
        key_order::<K>(),
        parts_ord(*root),
        tree_bal(root.left),
        tree_bal(root.right),
        tree_height(root.left) <= tree_height(root.right) + 2,
        tree_height(root.right) <= tree_height(root.left) + 2,
        tree_height(root.left) <= 200,
        tree_height(root.right) <= 200,
        root.height == tree_height(Some(root)),
    ensures
        tree_wf(Some(r)),
        tree_map(Some(r)) == tree_map(Some(root)),
        hmax(tree_height(root.left), tree_height(root.right)) <= tree_height(Some(r)),
        tree_height(Some(r)) <= hmax(tree_height(root.left), tree_height(root.right)) + 1,
        tree_height(root.left) <= tree_height(root.right) + 1 && tree_height(root.right) <= tree_height(root.left) + 1
            ==> tree_height(Some(r)) == hmax(tree_height(root.left), tree_height(root.right)) + 1,
{
    proof {
        lemma_key_order::<K>();
    }
    proof {
        lemma_cached(root.left);
        lemma_cached(root.right);
    }
    let diff = diff_of_successors_height(&root);
    if -1 <= diff && diff <= 1 {
        return root;
    }
    if diff == 2 {
        rotate_left_successor(root)
    } else {
        rotate_right_successor(root)
    }
}

/// Recomputes the height of `root` and rebalances it.
fn updated_node<K: Ord, D: Debug>(mut root: Box<Node<K, D>>) -> (r: Box<Node<K, D>>)
    requires
        key_order::<K>(),
        parts_ord(*root),
        tree_bal(root.left),
        tree_bal(root.right),
        tree_height(root.left) <= tree_height(root.right) + 2,
        tree_height(root.right) <= tree_height(root.left) + 2,
        tree_height(root.left) <= 200,
        tree_height(root.right) <= 200,
    ensures
        tree_wf(Some(r)),
        tree_map(Some(r)) == tree_map(Some(root)),
        hmax(tree_height(root.left), tree_height(root.right)) <= tree_height(Some(r)),
        tree_height(Some(r)) <= hmax(tree_height(root.left), tree_height(root.right)) + 1,
        tree_height(root.left) <= tree_height(root.right) + 1 && tree_height(root.right) <= tree_height(root.left) + 1
            ==> tree_height(Some(r)) == hmax(tree_height(root.left), tree_height(root.right)) + 1,
{
    proof {
        lemma_key_order::<K>();
    }
    proof {
        lemma_cached(root.left);
        lemma_cached(root.right);
    }
    update_height(&mut root);
    rotate_if_necessary(root)
}

impl<K: Ord, D: Debug> Node<K, D> {
    /// A single node holding `d` under `k`.
    pub fn new(k: K, d: D) -> (r: Node<K, D>)
        ensures
            tree_wf(Some(Box::new(r))),
            tree_map(Some(Box::new(r))) == Map::<K, D>::empty().insert(k, d),
            tree_height(Some(Box::new(r))) == 1,
    {
        let r = Node { key: k, data: d, height: 1, left: None, right: None };
        proof {
            let e: Option<Box<Node<K, D>>> = None;
            assert(tree_map(e) == Map::<K, D>::empty());
            assert(tree_height(e) == 0);
            assert(tree_ord(e));
            assert(tree_bal(e));
            assert(keys_below(e, k));
            assert(keys_above(e, k));
            assert(tree_height(Some(Box::new(r))) == 1);
            assert(tree_map(Some(Box::new(r))) =~= Map::<K, D>::empty().insert(k, d));
            assert(tree_ord(Some(Box::new(r))));
            assert(tree_bal(Some(Box::new(r))));
        }
        r
    }
}

/// Inserts into an optional subtree, creating a node when it is empty.
fn insert_in_successor<K: Ord, D: Debug>(key: K, data: D, successor: Option<Box<Node<K, D>>>) -> (r: Option<Box<Node<K, D>>>)
    requires
        key_order::<K>(),
        tree_wf(successor),
        tree_count(successor) < usize::MAX,
    ensures
        r is Some,
        tree_wf(r),
        tree_map(r) == tree_map(successor).insert(key, data),
        tree_height(successor) <= tree_height(r) <= tree_height(successor) + 1,
    decreases successor,
{
    proof {
        lemma_key_order::<K>();
    }
    proof {
        if successor is Some {
            lemma_count_len(successor);
        }
    }
    Some(
        match successor {
            Some(succ) => insert(key, data, succ),
            None => Box::new(Node::new(key, data)),
        },
    )
}

/// Inserts `data` under `key`, replacing what the key held; returns the rebalanced root.
pub fn insert<K: Ord, D: Debug>(key: K, data: D, mut root: Box<Node<K, D>>) -> (r: Box<Node<K, D>>)
    requires
        key_order::<K>(),
        tree_wf(Some(root)),
        node_map(root).dom().len() < usize::MAX,
    ensures
        tree_wf(Some(r)),
        tree_map(Some(r)) == tree_map(Some(root)).insert(key, data),
        tree_height(Some(root)) <= tree_height(Some(r)) <= tree_height(Some(root)) + 1,
    decreases root,
{
    proof {
        lemma_key_order::<K>();
    }
    let ghost old_root = *root;
    proof {
        lemma_count_len(Some(root));
        lemma_height_bound(Some(root));
    }
    match root.key.cmp(&key) {
        Ordering::Equal => {
        root.data = data;
        proof {
            assert(!tree_map(old_root.left).dom().contains(key));
            assert(!tree_map(old_root.right).dom().contains(key));
            assert(tree_map(Some(root)) =~= tree_map(Some(Box::new(old_root))).insert(key, data));
        }
        return root;
        },
        Ordering::Less => {
        root.right = insert_in_successor(key, data, root.right.take());
        proof {
            assert(!tree_map(old_root.left).dom().contains(key));
            assert(tree_map(Some(root)) =~= tree_map(Some(Box::new(old_root))).insert(key, data));
        }
        },
        Ordering::Greater => {
        root.left = insert_in_successor(key, data, root.left.take());
        proof {
            assert(!tree_map(old_root.right).dom().contains(key));
            assert(tree_map(Some(root)) =~= tree_map(Some(Box::new(old_root))).insert(key, data));
        }
        },
    }
    updated_node(root)
}

/// `k` is the smallest key of `m` that is `>= key`.
pub open spec fn is_min_at_least<K: Ord, D: Debug>(m: Map<K, D>, key: K, k: K) -> bool {
    &&& m.dom().contains(k)
    &&& key_le(key, k)
    &&& forall|k2: K| #[trigger] m.dom().contains(k2) && key_le(key, k2) ==> key_le(k, k2)
}

/// `k` is the largest key of `m` that is `<= key`.
pub open spec fn is_max_at_most<K: Ord, D: Debug>(m: Map<K, D>, key: K, k: K) -> bool {
    &&& m.dom().contains(k)
    &&& key_le(k, key)
    &&& forall|k2: K| #[trigger] m.dom().contains(k2) && key_le(k2, key) ==> key_le(k2, k)
}

/// `k` is the smallest key of `m`.
pub open spec fn is_min_key<K: Ord, D: Debug>(m: Map<K, D>, k: K) -> bool {
    m.dom().contains(k) && forall|k2: K| #[trigger] m.dom().contains(k2) ==> key_le(k, k2)
}

/// `k` is the largest key of `m`.
pub open spec fn is_max_key<K: Ord, D: Debug>(m: Map<K, D>, k: K) -> bool {
    m.dom().contains(k) && forall|k2: K| #[trigger] m.dom().contains(k2) ==> key_le(k2, k)
}

/// The entries of `root` as seen from outside this module.
pub closed spec fn node_map<K: Ord, D: Debug>(root: Box<Node<K, D>>) -> Map<K, D> {
    tree_map(Some(root))
}

/// `root` is a well-formed AVL tree.
pub closed spec fn node_wf<K: Ord, D: Debug>(root: Box<Node<K, D>>) -> bool {
    tree_wf(Some(root))
}

proof fn lemma_unfold<K: Ord, D: Debug>(root: Box<Node<K, D>>)
    requires
        key_order::<K>(),
        tree_wf(Some(root)),
    ensures
        node_map(root) == tree_map(root.left).union_prefer_right(tree_map(root.right)).insert(root.key, root.data),
        node_map(root).dom().contains(root.key),
        node_map(root)[root.key] == root.data,
        tree_wf(root.left),
        tree_wf(root.right),
        keys_below(root.left, root.key),
        keys_above(root.right, root.key),
        forall|k: K| #[trigger] node_map(root).dom().contains(k) <==> (k == root.key || tree_map(root.left).dom().contains(k) || tree_map(root.right).dom().contains(k)),
        forall|k: K| #[trigger] tree_map(root.left).dom().contains(k) ==> node_map(root)[k] == tree_map(root.left)[k],
        forall|k: K| #[trigger] tree_map(root.right).dom().contains(k) ==> node_map(root)[k] == tree_map(root.right)[k],
        match root.left { Some(l) => node_map(l) == tree_map(root.left) && node_wf(l), None => tree_map(root.left) == Map::<K, D>::empty() },
        match root.right { Some(r) => node_map(r) == tree_map(root.right) && node_wf(r), None => tree_map(root.right) == Map::<K, D>::empty() },
{
    lemma_key_order::<K>();
    assert forall|k: K| #[trigger] tree_map(root.left).dom().contains(k) implies node_map(root)[k] == tree_map(root.left)[k] by {
        assert(!tree_map(root.right).dom().contains(k));
    }
}

/// The key and data stored under `key`.
pub fn search_pair<'a, K: Ord, D: Debug>(key: &K, root: &'a Box<Node<K, D>>) -> (r: Option<(&'a K, &'a D)>)
    requires
        key_order::<K>(),
        node_wf(*root),
    ensures
        match r {
            Some((k, d)) => node_map(*root).dom().contains(*key) && *k == *key && *d == node_map(*root)[*key],
            None => !node_map(*root).dom().contains(*key),
        },
    decreases root,
{
    proof {
        lemma_key_order::<K>();
    }
    proof {
        lemma_unfold(*root);
    }
    match root.key.cmp(key) {
        Ordering::Equal => {
        Some((&root.key, &root.data))
        },
        Ordering::Less => {
        match root.right {
            Some(ref succ) => {
                let r = search_pair(key, succ);
                proof {
                    assert(!tree_map(root.left).dom().contains(*key));
                }
                r
            },
            None => None,
        }
        },
        Ordering::Greater => {
        match root.left {
            Some(ref succ) => {
                let r = search_pair(key, succ);
                proof {
                    assert(!tree_map(root.right).dom().contains(*key));
                }
                r
            },
            None => None,
        }
        },
    }
}

/// The data stored under `key`.
pub fn search<'a, K: Ord, D: Debug>(key: &K, root: &'a Box<Node<K, D>>) -> (r: Option<&'a D>)
    requires
        key_order::<K>(),
        node_wf(*root),
    ensures
        match r {
            Some(d) => node_map(*root).dom().contains(*key) && *d == node_map(*root)[*key],
            None => !node_map(*root).dom().contains(*key),
        },
{
    proof {
        lemma_key_order::<K>();
    }
    match search_pair(key, root) {
        Some((_, v)) => Some(v),
        None => None,
    }
}

/// The entry with the smallest key `>= key`.
pub fn min_after<'a, K: Ord, D: Debug>(key: &K, root: &'a Box<Node<K, D>>) -> (r: Option<(&'a K, &'a D)>)
    requires
        key_order::<K>(),
        node_wf(*root),
    ensures
        match r {
            Some((k, d)) => is_min_at_least(node_map(*root), *key, *k) && *d == node_map(*root)[*k],
            None => forall|k: K| #[trigger] node_map(*root).dom().contains(k) ==> key_lt(k, *key),
        },
    decreases root,
{
    proof {
        lemma_key_order::<K>();
    }
    let ghost m = tree_map(Some(*root));
    proof {
        lemma_unfold(*root);
    }
    match root.key.cmp(key) {
        Ordering::Equal => {
        Some((&root.key, &root.data))
        },
        Ordering::Less => {
        match root.right {
            Some(ref succ) => {
                let r = min_after(key, succ);
                proof {
                    assert forall|k2: K| #[trigger] m.dom().contains(k2) && key_le(*key, k2) implies tree_map(root.right).dom().contains(k2) by {
                        if tree_map(root.left).dom().contains(k2) {
                        }
                    }
                }
                r
            },
            None => None,
        }
        },
        Ordering::Greater => {
        match root.left {
            Some(ref succ) => {
                let r = min_after(key, succ);
                match r {
                    Some(p) => {
                        proof {
                            assert(tree_map(root.left).dom().contains(*p.0));
                            assert forall|k2: K| #[trigger] m.dom().contains(k2) && key_le(*key, k2) implies key_le(*p.0, k2) by {
                                if tree_map(root.right).dom().contains(k2) {
                                }
                            }
                        }
                        Some(p)
                    },
                    None => {
                        proof {
                            assert forall|k2: K| #[trigger] m.dom().contains(k2) && key_le(*key, k2) implies key_le(root.key, k2) by {
                                if tree_map(root.right).dom().contains(k2) {
                                }
                            }
                        }
                        Some((&root.key, &root.data))
                    },
                }
            },
            None => {
                proof {
                    assert forall|k2: K| #[trigger] m.dom().contains(k2) && key_le(*key, k2) implies key_le(root.key, k2) by {
                        if tree_map(root.right).dom().contains(k2) {
                        }
                    }
                }
                Some((&root.key, &root.data))
            },
        }
        },
    }
}

/// The entry with the largest key `<= key`.
pub fn max_before<'a, K: Ord, D: Debug>(key: &K, root: &'a Box<Node<K, D>>) -> (r: Option<(&'a K, &'a D)>)
    requires
        key_order::<K>(),
        node_wf(*root),
    ensures
        match r {
            Some((k, d)) => is_max_at_most(node_map(*root), *key, *k) && *d == node_map(*root)[*k],
            None => forall|k: K| #[trigger] node_map(*root).dom().contains(k) ==> key_lt(*key, k),
        },
    decreases root,
{
    proof {
        lemma_key_order::<K>();
    }
    let ghost m = tree_map(Some(*root));
    proof {
        lemma_unfold(*root);
    }
    match root.key.cmp(key) {
        Ordering::Equal => {
        Some((&root.key, &root.data))
        },
        Ordering::Greater => {
        match root.left {
            Some(ref succ) => {
                let r = max_before(key, succ);
                proof {
                    assert forall|k2: K| #[trigger] m.dom().contains(k2) && key_le(k2, *key) implies tree_map(root.left).dom().contains(k2) by {
                        if tree_map(root.right).dom().contains(k2) {
                        }
                    }
                }
                r
            },
            None => None,
        }
        },
        Ordering::Less => {
        match root.right {
            Some(ref succ) => {
                let r = max_before(key, succ);
                match r {
                    Some(p) => {
                        proof {
                            assert(tree_map(root.right).dom().contains(*p.0));
                            assert forall|k2: K| #[trigger] m.dom().contains(k2) && key_le(k2, *key) implies key_le(k2, *p.0) by {
                                if tree_map(root.left).dom().contains(k2) {
                                }
                            }
                        }
                        Some(p)
                    },
                    None => {
                        proof {
                            assert forall|k2: K| #[trigger] m.dom().contains(k2) && key_le(k2, *key) implies key_le(k2, root.key) by {
                                if tree_map(root.left).dom().contains(k2) {
                                }
                            }
                        }
                        Some((&root.key, &root.data))
                    },
                }
            },
            None => {
                proof {
                    assert forall|k2: K| #[trigger] m.dom().contains(k2) && key_le(k2, *key) implies key_le(k2, root.key) by {
                        if tree_map(root.left).dom().contains(k2) {
                        }
                    }
                }
                Some((&root.key, &root.data))
            },
        }
        },
    }
}

/// The entry with the smallest key.
pub fn min_pair<K: Ord, D: Debug>(root: &Box<Node<K, D>>) -> (r: (&K, &D))
    requires
        key_order::<K>(),
        node_wf(*root),
    ensures
        is_min_key(node_map(*root), *r.0),
        *r.1 == node_map(*root)[*r.0],
    decreases root,
{
    proof {
        lemma_key_order::<K>();
    }
    proof {
        lemma_unfold(*root);
    }
    match root.left {
        Some(ref succ) => {
            let r = min_pair(succ);
            proof {
                assert(tree_map(root.left).dom().contains(*r.0));
            }
            r
        },
        None => (&root.key, &root.data),
    }
}

/// The entry with the largest key.
pub fn max_pair<K: Ord, D: Debug>(root: &Box<Node<K, D>>) -> (r: (&K, &D))
    requires
        key_order::<K>(),
        node_wf(*root),
    ensures
        is_max_key(node_map(*root), *r.0),
        *r.1 == node_map(*root)[*r.0],
    decreases root,
{
    proof {
        lemma_key_order::<K>();
    }
    proof {
        lemma_unfold(*root);
    }
    match root.right {
        Some(ref succ) => {
            let r = max_pair(succ);
            proof {
                assert(tree_map(root.right).dom().contains(*r.0));
            }
            r
        },
        None => (&root.key, &root.data),
    }
}

/// The data stored under the smallest key.
pub fn min<K: Ord, D: Debug>(root: &Box<Node<K, D>>) -> (r: &D)
    requires
        key_order::<K>(),
        node_wf(*root),
    ensures
        exists|k: K| is_min_key(node_map(*root), k) && *r == node_map(*root)[k],
    decreases root,
{
    proof {
        lemma_key_order::<K>();
    }
    proof {
        lemma_unfold(*root);
    }
    match root.left {
        Some(ref succ) => {
            let r = min(succ);
            proof {
                let k = choose|k: K| is_min_key(tree_map(root.left), k) && *r == tree_map(root.left)[k];
                assert(tree_map(root.left).dom().contains(k));
                assert(is_min_key(node_map(*root), k));
            }
            r
        },
        None => {
            proof {
                assert(is_min_key(node_map(*root), root.key));
            }
            &root.data
        },
    }
}

/// The data stored under the largest key.
pub fn max<K: Ord, D: Debug>(root: &Box<Node<K, D>>) -> (r: &D)
    requires
        key_order::<K>(),
        node_wf(*root),
    ensures
        exists|k: K| is_max_key(node_map(*root), k) && *r == node_map(*root)[k],
    decreases root,
{
    proof {
        lemma_key_order::<K>();
    }
    proof {
        lemma_unfold(*root);
    }
    match root.right {
        Some(ref succ) => {
            let r = max(succ);
            proof {
                let k = choose|k: K| is_max_key(tree_map(root.right), k) && *r == tree_map(root.right)[k];
                assert(tree_map(root.right).dom().contains(k));
                assert(is_max_key(node_map(*root), k));
            }
            r
        },
        None => {
            proof {
                assert(is_max_key(node_map(*root), root.key));
            }
            &root.data
        },
    }
}

/// The node `root` with `left` put back as its left child.
closed spec fn with_left<K: Ord, D: Debug>(root: Node<K, D>, left: Box<Node<K, D>>) -> Node<K, D> {
    Node { key: root.key, data: root.data, height: root.height, left: Some(left), right: root.right }
}

/// What `drop_min` promises for a tree `t`: `rest` holds all of `t` but its smallest entry,
/// which `m` holds alone.
closed spec fn drop_min_post<K: Ord, D: Debug>(t: Option<Box<Node<K, D>>>, rest: Option<Box<Node<K, D>>>, m: Box<Node<K, D>>) -> bool {
    &&& tree_wf(rest)
    &&& m.left is None
    &&& m.right is None
    &&& is_min_key(tree_map(t), m.key)
    &&& m.data == tree_map(t)[m.key]
    &&& tree_map(rest) == tree_map(t).remove(m.key)
    &&& tree_height(t) <= tree_height(rest) + 1
    &&& tree_height(rest) <= tree_height(t)
}

/// `drop_min` on the left child of `root`, rebuilding `root` around what is left.
fn drop_min_from_left<K: Ord, D: Debug>(mut root: Box<Node<K, D>>, left: Box<Node<K, D>>) -> (r: (Option<Box<Node<K, D>>>, Box<Node<K, D>>))
    requires
        key_order::<K>(),
        root.left is None,
        tree_wf(Some(Box::new(with_left(*root, left)))),
        tree_count(Some(Box::new(with_left(*root, left)))) < usize::MAX,
    ensures
        drop_min_post(Some(Box::new(with_left(*root, left))), r.0, r.1),
    decreases left, 1nat,
{
    proof {
        lemma_key_order::<K>();
    }
    let ghost t = Some(Box::new(with_left(*root, left)));
    let ghost old_root = *root;
    proof {
        lemma_unfold(Box::new(with_left(*root, left)));
        lemma_height_bound(t);
    }
    let (new_left, min) = drop_min(left);
    root.left = new_left;
    proof {
        lemma_unfold(left);
        assert forall|x: K| #[trigger] tree_map(root.left).dom().contains(x) implies key_lt(x, root.key) by {
            assert(tree_map(Some(left)).dom().contains(x));
        }
        assert(tree_map(Some(left)).dom().contains(min.key));
        assert(is_min_key(tree_map(t), min.key)) by {
            assert forall|k2: K| #[trigger] tree_map(t).dom().contains(k2) implies key_le(min.key, k2) by {
                if tree_map(Some(left)).dom().contains(k2) {
                } else if k2 == old_root.key {
                } else {
                }
            }
        }
    }
    let ghost r0 = *root;
    let res = updated_node(root);
    proof {
        assert(tree_map(Some(Box::new(r0))) =~= tree_map(t).remove(min.key));
    }
    (Some(res), min)
}

/// Splits off the entry with the smallest key: returns the rest of the tree and that entry's node.
fn drop_min<K: Ord, D: Debug>(mut root: Box<Node<K, D>>) -> (r: (Option<Box<Node<K, D>>>, Box<Node<K, D>>))
    requires
        key_order::<K>(),
        tree_wf(Some(root)),
        tree_count(Some(root)) < usize::MAX,
    ensures
        drop_min_post(Some(root), r.0, r.1),
    decreases root, 0nat,
{
    proof {
        lemma_key_order::<K>();
    }
    let ghost old_root = *root;
    proof {
        lemma_unfold(root);
    }
    match root.left.take() {
        Some(left) => {
            proof {
                assert(with_left(*root, left) == old_root);
            }
            drop_min_from_left(root, left)
        },
        None => {
            let rest = root.right.take();
            proof {
                assert(is_min_key(tree_map(Some(Box::new(old_root))), old_root.key)) by {
                    assert forall|k2: K| #[trigger] tree_map(Some(Box::new(old_root))).dom().contains(k2) implies key_le(old_root.key, k2) by {
                        if tree_map(old_root.right).dom().contains(k2) {
                        }
                    }
                }
                assert(tree_map(rest) =~= tree_map(Some(Box::new(old_root))).remove(old_root.key));
            }
            (rest, root)
        },
    }
}

/// Joins two trees whose keys are all smaller in `l` than in `r` and whose heights differ by at
/// most one.
fn combine_two_subtrees<K: Ord, D: Debug>(l: Box<Node<K, D>>, r: Box<Node<K, D>>) -> (res: Box<Node<K, D>>)
    requires
        key_order::<K>(),
        tree_wf(Some(l)),
        tree_wf(Some(r)),
        tree_count(Some(l)) < usize::MAX,
        tree_count(Some(r)) < usize::MAX,
        forall|x: K, y: K| #[trigger] tree_map(Some(l)).dom().contains(x) && #[trigger] tree_map(Some(r)).dom().contains(y) ==> key_lt(x, y),
        tree_height(Some(l)) <= tree_height(Some(r)) + 1,
        tree_height(Some(r)) <= tree_height(Some(l)) + 1,
    ensures
        tree_wf(Some(res)),
        tree_map(Some(res)) == tree_map(Some(l)).union_prefer_right(tree_map(Some(r))),
        hmax(tree_height(Some(l)), tree_height(Some(r))) <= tree_height(Some(res)),
        tree_height(Some(res)) <= hmax(tree_height(Some(l)), tree_height(Some(r))) + 1,
{
    proof {
        lemma_key_order::<K>();
    }
    proof {
        lemma_height_bound(Some(l));
        lemma_height_bound(Some(r));
    }
    let (remaining_tree, min) = drop_min(r);
    let mut new_root = min;
    new_root.left = Some(l);
    new_root.right = remaining_tree;
    let ghost nr = *new_root;
    proof {
        assert(tree_map(Some(r)).dom().contains(min.key));
        assert forall|x: K| #[trigger] tree_map(nr.left).dom().contains(x) implies key_lt(x, nr.key) by {
        }
        assert forall|x: K| #[trigger] tree_map(nr.right).dom().contains(x) implies key_lt(nr.key, x) by {
            assert(tree_map(Some(r)).dom().contains(x));
        }
    }
    let res = updated_node(new_root);
    proof {
        assert(tree_map(Some(Box::new(nr))) =~= tree_map(Some(l)).union_prefer_right(tree_map(Some(r)))) by {
            assert forall|x: K| #[trigger] tree_map(Some(l)).dom().contains(x) implies !tree_map(Some(r)).dom().contains(x) by {
                if tree_map(Some(r)).dom().contains(x) {
                    assert(key_lt(x, x));
                }
            }
        }
    }
    res
}

/// Removes the root of a tree.
fn delete_root<K: Ord, D: Debug>(mut root: Box<Node<K, D>>) -> (r: Option<Box<Node<K, D>>>)
    requires
        key_order::<K>(),
        tree_wf(Some(root)),
        tree_count(Some(root)) < usize::MAX,
    ensures
        tree_wf(r),
        tree_map(r) == tree_map(Some(root)).remove(root.key),
        tree_height(Some(root)) <= tree_height(r) + 1,
        tree_height(r) <= tree_height(Some(root)),
{
    proof {
        lemma_key_order::<K>();
    }
    let ghost old_root = *root;
    proof {
        lemma_unfold(root);
    }
    match (root.left.take(), root.right.take()) {
        (None, None) => {
            proof {
                assert(tree_map(None::<Box<Node<K, D>>>) =~= tree_map(Some(Box::new(old_root))).remove(old_root.key));
            }
            None
        },
        (Some(l), None) => {
            proof {
                assert(tree_map(Some(l)) =~= tree_map(Some(Box::new(old_root))).remove(old_root.key));
            }
            Some(l)
        },
        (None, Some(r)) => {
            proof {
                assert(tree_map(Some(r)) =~= tree_map(Some(Box::new(old_root))).remove(old_root.key));
            }
            Some(r)
        },
        (Some(l), Some(r)) => {
            proof {
                assert forall|x: K, y: K| #[trigger] tree_map(Some(l)).dom().contains(x) && #[trigger] tree_map(Some(r)).dom().contains(y) implies key_lt(x, y) by {
                }
            }
            let c = combine_two_subtrees(l, r);
            proof {
                assert(tree_map(Some(c)) =~= tree_map(Some(Box::new(old_root))).remove(old_root.key));
            }
            Some(c)
        },
    }
}

/// Removes `key`; returns `None` when the tree becomes empty.
pub fn delete<K: Ord, D: Debug>(key: K, mut root: Box<Node<K, D>>) -> (r: Option<Box<Node<K, D>>>)
    requires
        key_order::<K>(),
        node_wf(root),
        node_map(root).dom().len() < usize::MAX,
    ensures
        match r {
            Some(n) => node_wf(n) && node_map(n) == node_map(root).remove(key),
            None => node_map(root).remove(key) == Map::<K, D>::empty(),
        },
        tree_wf(r),
        tree_map(r) == node_map(root).remove(key),
        tree_height(Some(root)) <= tree_height(r) + 1,
        tree_height(r) <= tree_height(Some(root)),
    decreases root,
{
    proof {
        lemma_key_order::<K>();
    }
    let ghost old_root = *root;
    proof {
        lemma_unfold(root);
        lemma_count_len(Some(root));
        lemma_height_bound(Some(root));
    }
    match root.key.cmp(&key) {
        Ordering::Equal => {
        return delete_root(root);
        },
        Ordering::Less => {
        if let Some(succ) = root.right.take() {
            proof {
                lemma_count_len(Some(succ));
            }
            root.right = delete(key, succ);
            proof {
                assert(!tree_map(old_root.left).dom().contains(key));
                assert(tree_map(Some(root)) =~= tree_map(Some(Box::new(old_root))).remove(key));
            }
            let res = updated_node(root);
            return Some(res);
        }
        },
        Ordering::Greater => {
        if let Some(succ) = root.left.take() {
            proof {
                lemma_count_len(Some(succ));
            }
            root.left = delete(key, succ);
            proof {
                assert(!tree_map(old_root.right).dom().contains(key));
                assert(tree_map(Some(root)) =~= tree_map(Some(Box::new(old_root))).remove(key));
            }
            let res = updated_node(root);
            return Some(res);
        }
        },
    }
    proof {
        assert(tree_map(Some(root)) =~= tree_map(Some(Box::new(old_root))).remove(key));
    }
    Some(root)
}


/// A map from ordered keys to data, kept in an AVL tree.
pub struct AVLTree<K: Ord + Copy + Debug, D: Debug> {
    pub root: Option<Box<Node<K, D>>>,
}

impl<K: Ord + Copy + Debug, D: Debug> View for AVLTree<K, D> {
    type V = Map<K, D>;

    closed spec fn view(&self) -> Map<K, D> {
        tree_map(self.root)
    }
}

impl<K: Ord + Copy + Debug, D: Debug> AVLTree<K, D> {
    /// The tree under `root` is a well-formed AVL tree.
    pub closed spec fn wf(&self) -> bool {
        tree_wf(self.root)
    }

    pub fn new() -> (r: AVLTree<K, D>)
        ensures
            r.wf(),
            r@ == Map::<K, D>::empty(),
            r@.dom().finite(),
            r@.dom().len() == 0,
    {
        let r = AVLTree { root: None };
        proof {
            assert(tree_ord(r.root) && tree_bal(r.root));
        }
        r
    }

    /// Stores `data` under `key`, replacing what the key held.
    pub fn insert(&mut self, key: K, data: D)
        requires
            key_order::<K>(),
            old(self).wf(),
            old(self)@.dom().len() < usize::MAX,
        ensures
            final(self).wf(),
            final(self)@ == old(self)@.insert(key, data),
            final(self)@.dom().finite(),
            final(self)@.dom().len() == old(self)@.dom().len() + if old(self)@.dom().contains(key) { 0int } else { 1int },
    {
        proof {
            lemma_tree_map_finite(self.root);
        }
        match self.root.take() {
            Some(box_to_node) => {
                proof {
                    assert(node_map(box_to_node) == tree_map(Some(box_to_node)));
                }
                self.root = Some(insert(key, data, box_to_node));
            },
            None => {
                self.root = Some(Box::new(Node::new(key, data)));
                proof {
                    assert(tree_map(None::<Box<Node<K, D>>>) == Map::<K, D>::empty());
                }
            },
        }
    }

    /// Removes `key` and what it held.
    pub fn delete(&mut self, key: K)
        requires
            key_order::<K>(),
            old(self).wf(),
            old(self)@.dom().len() < usize::MAX,
        ensures
            final(self).wf(),
            final(self)@ == old(self)@.remove(key),
            final(self)@.dom().finite(),
            final(self)@.dom().len() == old(self)@.dom().len() - if old(self)@.dom().contains(key) { 1int } else { 0int },
    {
        proof {
            lemma_tree_map_finite(self.root);
        }
        match self.root.take() {
            Some(box_to_node) => self.root = delete(key, box_to_node),
            None => {
                proof {
                    assert(tree_map(None::<Box<Node<K, D>>>) =~= tree_map(None::<Box<Node<K, D>>>).remove(key));
                }
                return;
            },
        }
    }

    /// The data stored under `key`.
    pub fn get(&self, key: K) -> (r: Option<&D>)
        requires
            key_order::<K>(),
            self.wf(),
        ensures
            match r {
                Some(d) => self@.dom().contains(key) && *d == self@[key],
                None => !self@.dom().contains(key),
            },
    {
        match self.root {
            Some(ref box_to_node) => search(&key, box_to_node),
            None => None,
        }
    }

    /// The data stored under `key`, or `default` when there is none.
    pub fn get_or<'a>(&'a self, key: K, default: &'a D) -> (r: &'a D)
        requires
            key_order::<K>(),
            self.wf(),
        ensures
            *r == if self@.dom().contains(key) { self@[key] } else { *default },
    {
        match self.get(key) {
            Some(data) => data,
            None => default,
        }
    }

    /// `key` is stored in the tree.
    pub fn contains(&self, key: K) -> (r: bool)
        requires
            key_order::<K>(),
            self.wf(),
        ensures
            r == self@.dom().contains(key),
    {
        self.get(key).is_some()
    }

    /// The tree stores nothing.
    pub fn empty(&self) -> (r: bool)
        requires
            key_order::<K>(),
            self.wf(),
        ensures
            r == (self@ == Map::<K, D>::empty()),
    {
        proof {
            if self.root is Some {
                let n = self.root.unwrap();
                lemma_unfold(n);
                assert(self@.dom().contains(n.key));
            } else {
                assert(self@ == Map::<K, D>::empty());
            }
        }
        self.root.is_none()
    }

    /// The data of the smallest key `>= key`.
    pub fn upper_bound(&self, key: &K) -> (r: Option<&D>)
        requires
            key_order::<K>(),
            self.wf(),
        ensures
            match r {
                Some(d) => exists|k: K| is_min_at_least(self@, *key, k) && *d == self@[k],
                None => forall|k: K| #[trigger] self@.dom().contains(k) ==> key_lt(k, *key),
            },
    {
        match self.root {
            Some(ref tree) => {
                proof {
                    assert(self@ == node_map(*tree));
                }
                match min_after(key, tree) {
                    Some((k, v)) => {
                        proof {
                            assert(is_min_at_least(self@, *key, *k));
                        }
                        Some(v)
                    },
                    None => None,
                }
            },
            None => None,
        }
    }

    /// The data of the largest key `<= key`.
    pub fn lower_bound(&self, key: &K) -> (r: Option<&D>)
        requires
            key_order::<K>(),
            self.wf(),
        ensures
            match r {
                Some(d) => exists|k: K| is_max_at_most(self@, *key, k) && *d == self@[k],
                None => forall|k: K| #[trigger] self@.dom().contains(k) ==> key_lt(*key, k),
            },
    {
        match self.root {
            Some(ref tree) => {
                proof {
                    assert(self@ == node_map(*tree));
                }
                match max_before(key, tree) {
                    Some((k, v)) => {
                        proof {
                            assert(is_max_at_most(self@, *key, *k));
                        }
                        Some(v)
                    },
                    None => None,
                }
            },
            None => None,
        }
    }
}


} // verus!
