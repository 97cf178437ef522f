//! Cracker indexes mapping `i64` values to `usize` positions: a dense array and an AVL tree.

use vstd::prelude::*;
use vstd::arithmetic::power2::{pow2, lemma_pow2_unfold, lemma2_to64_rest};
use crate::cracker_index::{
    array_insert, array_get, array_upper_bound, array_lower_bound, key_slot, least_entry_from,
    greatest_entry_upto, lemma_array_upper_bound, lemma_array_lower_bound,
};

verus! {

/// The array with `amount` taken off every filled entry after position `threshold`.
pub open spec fn array_subtract_above(s: Seq<Option<usize>>, threshold: int, amount: usize) -> Seq<Option<usize>> {
    Seq::new(s.len(), |i: int| match s[i] {
        Some(d) => if i > threshold { Some((d - amount) as usize) } else { Some(d) },
        None => None,
    })
}

/// Every filled entry after position `threshold` holds at least `amount`.
pub open spec fn array_can_subtract_above(s: Seq<Option<usize>>, threshold: int, amount: usize) -> bool {
    forall|i: int| 0 <= i < s.len() && i > threshold && #[trigger] s[i] is Some ==> s[i].unwrap() >= amount
}

/// Maps `i64` keys to `usize` positions in a dense array.
#[derive(Clone)]
pub struct ArrayCrackerIndex {
    pub index: Vec<Option<usize>>,
}

impl View for ArrayCrackerIndex {
    type V = Seq<Option<usize>>;

    open spec fn view(&self) -> Seq<Option<usize>> {
        self.index@
    }
}

impl ArrayCrackerIndex {
    pub fn new() -> (r: ArrayCrackerIndex)
        ensures
            r@ == Seq::<Option<usize>>::empty(),
    {
        ArrayCrackerIndex { index: Vec::new() }
    }

    /// Records `data` under `key`; negative keys are ignored.
    pub fn insert(&mut self, key: i64, data: usize)
        requires
            key < usize::MAX,
        ensures
            final(self)@ == array_insert(old(self)@, key as int, data),
    {
        if key < 0 {
            return;
        }
        let k = key as usize;
        while self.index.len() <= k
            invariant
                0 <= key,
                k == key,
                k < usize::MAX,
                self.index@.len() >= old(self).index@.len(),
                self.index@.len() <= if k < old(self).index@.len() { old(self).index@.len() } else { (k + 1) as nat },
                forall|i: int| 0 <= i < self.index@.len() ==> #[trigger] self.index@[i] == (if i < old(self).index@.len() { old(self).index@[i] } else { None }),
            decreases k + 1 - self.index.len(),
        {
            self.index.push(None);
        }
        self.index.set(k, Some(data));
        assert(self@ =~= array_insert(old(self)@, key as int, data));
    }

    /// Removes the entry of `key`; the other keys keep theirs.
    pub fn delete(&mut self, key: i64)
        ensures
            final(self)@ == if key_slot(key, old(self)@.len()) { old(self)@.update(key as int, None) } else { old(self)@ },
            array_get(final(self)@, key as int) is None,
            forall|k: int| k != key ==> #[trigger] array_get(final(self)@, k) == array_get(old(self)@, k),
    {
        if 0 <= key && (key as u64) < (self.index.len() as u64) {
            self.index.set(key as usize, None);
        }
    }

    pub fn get(&self, key: i64) -> (r: Option<usize>)
        ensures
            r == array_get(self@, key as int),
    {
        if key < 0 || (key as u64) >= (self.index.len() as u64) {
            None
        } else {
            self.index[key as usize]
        }
    }

    pub fn get_or(self, key: i64, default: usize) -> (r: usize)
        ensures
            r == match array_get(self@, key as int) {
                Some(d) => d,
                None => default,
            },
    {
        match self.get(key) {
            Some(d) => d,
            None => default,
        }
    }

    pub fn contains(&self, key: i64) -> (r: bool)
        ensures
            r == (array_get(self@, key as int) is Some),
    {
        self.get(key).is_some()
    }

    pub fn empty(&self) -> (r: bool)
        ensures
            r == (self@.len() == 0),
    {
        self.index.len() == 0
    }

    /// The entry of the smallest filled key `>= key`.
    pub fn upper_bound(&self, key: &i64) -> (r: Option<usize>)
        ensures
            r == array_upper_bound(self@, *key as int),
            least_entry_from(self@, *key as int, r),
    {
        proof {
            lemma_array_upper_bound(self@, *key as int);
        }
        if *key >= 0 && (*key as u64) >= (self.index.len() as u64) {
            return None;
        }
        if self.index.len() == 0 {
            return None;
        }
        let mut k: usize = if *key < 0 { 0 } else { *key as usize };
        proof {
            if *key < 0 {
                assert(array_upper_bound(self@, *key as int) == array_upper_bound(self@, 0));
            }
        }
        while self.index[k].is_none() && k < self.index.len() - 1
            invariant
                k < self.index@.len(),
                array_upper_bound(self@, k as int) == array_upper_bound(self@, *key as int),
            decreases self.index@.len() - k,
        {
            k += 1;
        }
        proof {
            if self.index@[k as int] is None {
                assert(k == self.index@.len() - 1);
                assert(array_upper_bound(self@, k + 1) == None::<usize>);
            }
        }
        self.index[k]
    }

    /// The entry of the largest filled key `<= key`.
    pub fn lower_bound(&self, key: &i64) -> (r: Option<usize>)
        ensures
            r == array_lower_bound(self@, *key as int),
            greatest_entry_upto(self@, *key as int, r),
    {
        proof {
            lemma_array_lower_bound(self@, *key as int);
        }
        if *key < 0 || self.index.len() == 0 {
            return None;
        }
        let mut k: usize = if (*key as u64) >= (self.index.len() as u64) { self.index.len() - 1 } else { *key as usize };
        proof {
            if *key >= self.index@.len() {
                assert(array_lower_bound(self@, *key as int) == array_lower_bound(self@, self.index@.len() - 1));
            }
        }
        while self.index[k].is_none() && k > 0
            invariant
                k < self.index@.len(),
                array_lower_bound(self@, k as int) == array_lower_bound(self@, *key as int),
            decreases k,
        {
            k -= 1;
        }
        proof {
            if self.index@[k as int] is None {
                assert(k == 0);
                assert(array_lower_bound(self@, -1) == None::<usize>);
            }
        }
        self.index[k]
    }

    /// For all keys `> threshold`, subtracts `amount` from their data. The threshold is a
    /// key of the index, so it is not negative.
    pub fn subtract_where_greater_than(&mut self, threshold: i64, amount: usize)
        requires
            threshold >= 0,
            array_can_subtract_above(old(self)@, threshold as int, amount),
        ensures
            final(self)@ == array_subtract_above(old(self)@, threshold as int, amount),
    {
        let l = self.index.len();
        if (threshold as u64) >= (l as u64) {
            assert(self@ =~= array_subtract_above(old(self)@, threshold as int, amount));
            return;
        }
        let mut k = threshold as usize + 1;
        while k < l
            invariant
                l == self.index@.len(),
                l == old(self)@.len(),
                threshold + 1 <= k <= l,
                array_can_subtract_above(old(self)@, threshold as int, amount),
                forall|i: int| 0 <= i < l ==> #[trigger] self.index@[i] == if i < k { array_subtract_above(old(self)@, threshold as int, amount)[i] } else { old(self)@[i] },
            decreases l - k,
        {
            match self.index[k] {
                Some(d) => {
                    assert(old(self)@[k as int] is Some);
                    self.index.set(k, Some(d - amount));
                },
                None => {},
            }
            k += 1;
        }
        assert(self@ =~= array_subtract_above(old(self)@, threshold as int, amount));
    }
}

/// A node of the AVL tree that backs `AVLCrackerIndex`.
pub struct AVLNode {
    key: i64,
    data: usize,
    height: u64,
    left: Option<Box<AVLNode>>,
    right: Option<Box<AVLNode>>,
}

impl Clone for AVLNode {
    fn clone(&self) -> (r: Self)
        ensures
            r == *self,
        decreases self,
    {
        AVLNode {
            key: self.key,
            data: self.data,
            height: self.height,
            left: match &self.left {
                Some(n) => Some(Box::new((&**n).clone())),
                None => None,
            },
            right: match &self.right {
                Some(n) => Some(Box::new((&**n).clone())),
                None => None,
            },
        }
    }
}

/// The key/value pairs held by a subtree.
pub closed spec fn tree_map(t: Option<Box<AVLNode>>) -> Map<i64, usize>
    decreases t,
{
    match t {
        None => Map::empty(),
        Some(n) => tree_map(n.left).union_prefer_right(tree_map(n.right)).insert(n.key, n.data),
    }
}

/// The height of a subtree, counted in nodes on its longest path.
pub closed spec fn tree_height(t: Option<Box<AVLNode>>) -> nat
    decreases t,
{
    match t {
        None => 0,
        Some(n) => {
            let l = tree_height(n.left);
            let r = tree_height(n.right);
            1 + if l >= r { l } else { r }
        },
    }
}

pub closed spec fn keys_below(t: Option<Box<AVLNode>>, k: i64) -> bool {
    forall|x: i64| #[trigger] tree_map(t).dom().contains(x) ==> x < k
}

pub closed spec fn keys_above(t: Option<Box<AVLNode>>, k: i64) -> bool {
    forall|x: i64| #[trigger] tree_map(t).dom().contains(x) ==> x > k
}

/// The search-tree order holds and every cached height is exact.
pub closed spec fn tree_ord(t: Option<Box<AVLNode>>) -> bool
    decreases t,
{
    match t {
        None => true,
        Some(n) => {
            &&& tree_ord(n.left)
            &&& tree_ord(n.right)
            &&& keys_below(n.left, n.key)
            &&& keys_above(n.right, n.key)
            &&& n.height == tree_height(t)
        },
    }
}

/// Sibling subtrees differ in height by at most one, everywhere.
pub closed spec fn tree_bal(t: Option<Box<AVLNode>>) -> bool
    decreases t,
{
    match t {
        None => true,
        Some(n) => {
            &&& tree_bal(n.left)
            &&& tree_bal(n.right)
            &&& tree_height(n.left) <= tree_height(n.right) + 1
            &&& tree_height(n.right) <= tree_height(n.left) + 1
        },
    }
}

/// A well-formed AVL tree.
pub closed spec fn tree_wf(t: Option<Box<AVLNode>>) -> bool {
    tree_ord(t) && tree_bal(t)
}

/// The children of `n` are ordered search trees on either side of its key (its own cached
/// height may be stale).
closed spec fn parts_ord(n: AVLNode) -> bool {
    &&& tree_ord(n.left)
    &&& tree_ord(n.right)
    &&& keys_below(n.left, n.key)
    &&& keys_above(n.right, n.key)
}

closed spec fn tree_count(t: Option<Box<AVLNode>>) -> nat
    decreases t,
{
    match t {
        None => 0,
        Some(n) => tree_count(n.left) + 1 + tree_count(n.right),
    }
}

closed spec fn tree_lo(t: Option<Box<AVLNode>>) -> i64
    decreases t,
{
    match t {
        None => 0,
        Some(n) => match n.left {
            None => n.key,
            Some(_) => tree_lo(n.left),
        },
    }
}

closed spec fn tree_hi(t: Option<Box<AVLNode>>) -> i64
    decreases t,
{
    match t {
        None => 0,
        Some(n) => match n.right {
            None => n.key,
            Some(_) => tree_hi(n.right),
        },
    }
}

/// The fewest nodes an AVL tree of height `h` can have.
closed spec fn min_nodes(h: nat) -> nat
    decreases h,
{
    if h == 0 {
        0
    } else if h == 1 {
        1
    } else {
        1 + min_nodes((h - 1) as nat) + min_nodes((h - 2) as nat)
    }
}

proof fn lemma_min_nodes_mono(a: nat, b: nat)
    requires
        a <= b,
    ensures
        min_nodes(a) <= min_nodes(b),
    decreases b,
{
    if a < b {
        lemma_min_nodes_mono(a, (b - 1) as nat);
        assert(min_nodes((b - 1) as nat) <= min_nodes(b)) by {
            if b >= 2 {
            }
        }
    }
}

proof fn lemma_min_nodes_pow(k: nat)
    ensures
        min_nodes(2 * k + 1) >= pow2(k),
    decreases k,
{
    if k == 0 {
        vstd::arithmetic::power2::lemma_pow2(0);
        vstd::arithmetic::power::lemma_pow0(2);
    } else {
        lemma_min_nodes_pow((k - 1) as nat);
        lemma_min_nodes_mono((2 * k - 1) as nat, (2 * k) as nat);
        lemma_pow2_unfold(k);
        assert(min_nodes(2 * k + 1) == 1 + min_nodes((2 * k) as nat) + min_nodes((2 * k - 1) as nat));
    }
}

proof fn lemma_span(t: Option<Box<AVLNode>>)
    requires
        tree_ord(t),
        t is Some,
    ensures
        tree_map(t).dom().contains(tree_lo(t)),
        tree_map(t).dom().contains(tree_hi(t)),
        forall|k: i64| #[trigger] tree_map(t).dom().contains(k) ==> tree_lo(t) <= k <= tree_hi(t),
        tree_hi(t) - tree_lo(t) + 1 >= tree_count(t),
    decreases t,
{
    let n = t.unwrap();
    if n.left is Some {
        lemma_span(n.left);
    }
    if n.right is Some {
        lemma_span(n.right);
    }
    if n.left is Some {
        assert(tree_map(n.left).dom().contains(tree_hi(n.left)));
        assert(tree_hi(n.left) < n.key);
    } else {
        assert(tree_count(n.left) == 0);
    }
    if n.right is Some {
        assert(tree_map(n.right).dom().contains(tree_lo(n.right)));
        assert(tree_lo(n.right) > n.key);
    } else {
        assert(tree_count(n.right) == 0);
    }
    assert forall|k: i64| #[trigger] tree_map(t).dom().contains(k) implies tree_lo(t) <= k <= tree_hi(t) by {
        if tree_map(n.left).dom().contains(k) {
        } else if tree_map(n.right).dom().contains(k) {
        } else {
        }
    }
}

proof fn lemma_count(t: Option<Box<AVLNode>>)
    requires
        tree_bal(t),
    ensures
        tree_count(t) >= min_nodes(tree_height(t)),
    decreases t,
{
    if let Some(n) = t {
        lemma_count(n.left);
        lemma_count(n.right);
        let h = tree_height(t);
        if h >= 2 {
            let hl = tree_height(n.left);
            let hr = tree_height(n.right);
            if hl >= hr {
                lemma_min_nodes_mono((h - 2) as nat, hr);
            } else {
                lemma_min_nodes_mono((h - 2) as nat, hl);
            }
        }
    }
}

/// A well-formed AVL tree keyed by `i64` is at most 130 levels high.
proof fn lemma_height_bound(t: Option<Box<AVLNode>>)
    requires
        tree_wf(t),
    ensures
        tree_height(t) <= 130,
{
    if t is Some {
        lemma_span(t);
        lemma_count(t);
        if tree_height(t) > 130 {
            lemma_min_nodes_mono(131, tree_height(t));
            lemma_min_nodes_pow(65);
            lemma_pow2_unfold(65);
            lemma2_to64_rest();
            assert(false);
        }
    }
}

/// The height cached at the root of a subtree, 0 when empty.
closed spec fn cached(t: Option<Box<AVLNode>>) -> nat {
    match t {
        None => 0,
        Some(n) => n.height as nat,
    }
}

proof fn lemma_cached(t: Option<Box<AVLNode>>)
    requires
        tree_ord(t),
    ensures
        cached(t) == tree_height(t),
{
}

/// The node with the given fields, its height computed from its children.
closed spec fn mk(key: i64, data: usize, left: Option<Box<AVLNode>>, right: Option<Box<AVLNode>>) -> AVLNode {
    AVLNode {
        key,
        data,
        height: (1 + if tree_height(left) >= tree_height(right) { tree_height(left) } else { tree_height(right) }) as u64,
        left,
        right,
    }
}

fn height(node: &Option<Box<AVLNode>>) -> (r: u64)
    ensures
        r == cached(*node),
{
    match node {
        Some(succ) => succ.height,
        None => 0,
    }
}

/// Recomputes the cached height of `root` from the cached heights of its children.
fn update_height(root: &mut AVLNode)
    requires
        cached(old(root).left) < u64::MAX,
        cached(old(root).right) < u64::MAX,
    ensures
        final(root).key == old(root).key,
        final(root).data == old(root).data,
        final(root).left == old(root).left,
        final(root).right == old(root).right,
        final(root).height == 1 + if cached(old(root).left) >= cached(old(root).right) {
            cached(old(root).left)
        } else {
            cached(old(root).right)
        },
{
    let l = height(&root.left);
    let r = height(&root.right);
    root.height = if l >= r { l } else { r } + 1;
}

/// Moving the middle subtree across a rotation keeps the union of three ordered maps.
proof fn lemma_rotation_map(
    a: Map<i64, usize>,
    b: Map<i64, usize>,
    c: Map<i64, usize>,
    k1: i64,
    d1: usize,
    k2: i64,
    d2: usize,
)
    requires
        forall|x: i64| #[trigger] a.dom().contains(x) ==> x < k1,
        forall|x: i64| #[trigger] b.dom().contains(x) ==> k1 < x < k2,
        forall|x: i64| #[trigger] c.dom().contains(x) ==> x > k2,
        k1 < k2,
    ensures
        a.union_prefer_right(b.union_prefer_right(c).insert(k2, d2)).insert(k1, d1)
            == a.union_prefer_right(b).insert(k1, d1).union_prefer_right(c).insert(k2, d2),
{
    let lhs = a.union_prefer_right(b.union_prefer_right(c).insert(k2, d2)).insert(k1, d1);
    let rhs = a.union_prefer_right(b).insert(k1, d1).union_prefer_right(c).insert(k2, d2);
    assert forall|x: i64| lhs.dom().contains(x) == rhs.dom().contains(x) by {}
    assert forall|x: i64| lhs.dom().contains(x) implies lhs[x] == rhs[x] by {
        if x == k1 {
        } else if x == k2 {
        } else if a.dom().contains(x) {
        } else if b.dom().contains(x) {
        } else {
        }
    }
    assert(lhs =~= rhs);
}

/// Single right rotation: the left child becomes the root.
fn rotate_right(mut root: Box<AVLNode>) -> (r: Box<AVLNode>)
    requires
        root.left is Some,
        parts_ord(*root),
        tree_height(root.left) <= 200,
        tree_height(root.right) <= 200,
    ensures
        ({
            let l = root.left.unwrap();
            *r == mk(l.key, l.data, l.left, Some(Box::new(mk(root.key, root.data, l.right, root.right))))
        }),
        tree_ord(Some(r)),
        tree_map(Some(r)) == tree_map(Some(root)),
{
    let ghost old_root = *root;
    let ghost l = *old_root.left.unwrap();
    proof {
        assert(tree_ord(Some(Box::new(l))));
        lemma_cached(l.left);
        lemma_cached(l.right);
        lemma_cached(old_root.right);
    }
    let mut new_root_box = root.left.take().expect("AVL broken");
    root.left = new_root_box.right.take();
    update_height(&mut root);
    let ghost n2 = *root;
    proof {
        assert(n2 == mk(old_root.key, old_root.data, l.right, old_root.right));
        assert forall|x: i64| #[trigger] tree_map(l.right).dom().contains(x) implies x < old_root.key by {
            assert(tree_map(Some(Box::new(l))).dom().contains(x));
        }
        assert(tree_ord(Some(Box::new(n2))));
        assert(tree_map(Some(Box::new(l))).dom().contains(l.key));
        assert forall|x: i64| #[trigger] tree_map(Some(Box::new(n2))).dom().contains(x) implies x > l.key by {
            if tree_map(l.right).dom().contains(x) {
            } else if tree_map(old_root.right).dom().contains(x) {
            } else {
            }
        }
    }
    new_root_box.right = Some(root);
    update_height(&mut new_root_box);
    proof {
        assert(tree_ord(Some(new_root_box)));
        lemma_rotation_map(tree_map(l.left), tree_map(l.right), tree_map(old_root.right), l.key, l.data, old_root.key, old_root.data);
        assert(tree_map(Some(Box::new(l))).dom().contains(l.key));
        assert(tree_map(Some(Box::new(n2))) == tree_map(l.right).union_prefer_right(tree_map(old_root.right)).insert(old_root.key, old_root.data));
        assert(tree_map(Some(Box::new(l))) == tree_map(l.left).union_prefer_right(tree_map(l.right)).insert(l.key, l.data));
        assert(tree_map(Some(Box::new(old_root))) == tree_map(Some(Box::new(l))).union_prefer_right(tree_map(old_root.right)).insert(old_root.key, old_root.data));
        assert(tree_map(Some(new_root_box)) == tree_map(l.left).union_prefer_right(tree_map(Some(Box::new(n2)))).insert(l.key, l.data));
    }
    new_root_box
}

/// Single left rotation: the right child becomes the root.
fn rotate_left(mut root: Box<AVLNode>) -> (r: Box<AVLNode>)
    requires
        root.right is Some,
        parts_ord(*root),
        tree_height(root.left) <= 200,
        tree_height(root.right) <= 200,
    ensures
        ({
            let rr = root.right.unwrap();
            *r == mk(rr.key, rr.data, Some(Box::new(mk(root.key, root.data, root.left, rr.left))), rr.right)
        }),
        tree_ord(Some(r)),
        tree_map(Some(r)) == tree_map(Some(root)),
{
    let ghost old_root = *root;
    let ghost rr = *old_root.right.unwrap();
    proof {
        assert(tree_ord(Some(Box::new(rr))));
        lemma_cached(rr.left);
        lemma_cached(rr.right);
        lemma_cached(old_root.left);
    }
    let mut new_root_box = root.right.take().expect("AVL broken");
    root.right = new_root_box.left.take();
    update_height(&mut root);
    let ghost n2 = *root;
    proof {
        assert(n2 == mk(old_root.key, old_root.data, old_root.left, rr.left));
        assert forall|x: i64| #[trigger] tree_map(rr.left).dom().contains(x) implies x > old_root.key by {
            assert(tree_map(Some(Box::new(rr))).dom().contains(x));
        }
        assert(tree_ord(Some(Box::new(n2))));
        assert(tree_map(Some(Box::new(rr))).dom().contains(rr.key));
        assert forall|x: i64| #[trigger] tree_map(Some(Box::new(n2))).dom().contains(x) implies x < rr.key by {
            if tree_map(rr.left).dom().contains(x) {
            } else if tree_map(old_root.left).dom().contains(x) {
            } else {
            }
        }
    }
    new_root_box.left = Some(root);
    update_height(&mut new_root_box);
    proof {
        assert(tree_ord(Some(new_root_box)));
        lemma_rotation_map(tree_map(old_root.left), tree_map(rr.left), tree_map(rr.right), old_root.key, old_root.data, rr.key, rr.data);
        assert(tree_map(Some(Box::new(n2))) == tree_map(old_root.left).union_prefer_right(tree_map(rr.left)).insert(old_root.key, old_root.data));
        assert(tree_map(Some(Box::new(rr))) == tree_map(rr.left).union_prefer_right(tree_map(rr.right)).insert(rr.key, rr.data));
        assert(tree_map(Some(Box::new(old_root))) == tree_map(old_root.left).union_prefer_right(tree_map(Some(Box::new(rr)))).insert(old_root.key, old_root.data));
        assert(tree_map(Some(new_root_box)) == tree_map(Some(Box::new(n2))).union_prefer_right(tree_map(rr.right)).insert(rr.key, rr.data));
    }
    new_root_box
}

/// The height and balance of a node built by `mk`.
proof fn lemma_mk(key: i64, data: usize, left: Option<Box<AVLNode>>, right: Option<Box<AVLNode>>)
    ensures
        ({
            let t = Some(Box::new(mk(key, data, left, right)));
            &&& tree_height(t) == 1 + if tree_height(left) >= tree_height(right) { tree_height(left) } else { tree_height(right) }
            &&& tree_bal(t) == (tree_bal(left) && tree_bal(right) && tree_height(left) <= tree_height(right) + 1
                && tree_height(right) <= tree_height(left) + 1)
        }),
{
}

/// Rebalances a node whose left subtree is two levels higher than its right one.
fn rotate_left_successor(mut root: Box<AVLNode>) -> (r: Box<AVLNode>)
    requires
        parts_ord(*root),
        tree_bal(root.left),
        tree_bal(root.right),
        tree_height(root.left) == tree_height(root.right) + 2,
        tree_height(root.left) <= 200,
    ensures
        tree_wf(Some(r)),
        tree_map(Some(r)) == tree_map(Some(root)),
        tree_height(root.left) <= tree_height(Some(r)) <= tree_height(root.left) + 1,
{
    let ghost old_root = *root;
    let ghost l = *old_root.left.unwrap();
    let ghost hr = tree_height(old_root.right);
    proof {
        assert(tree_ord(Some(Box::new(l))));
        assert(tree_bal(Some(Box::new(l))));
        lemma_cached(l.left);
        lemma_cached(l.right);
        lemma_cached(old_root.right);
    }
    let left = root.left.take().expect("AVL broken");
    if height(&left.left) < height(&left.right) {
        let ghost lr = *l.right.unwrap();
        proof {
            assert(tree_ord(Some(Box::new(lr))));
            assert(tree_bal(Some(Box::new(lr))));
        }
        let rotated = rotate_left(left);
        proof {
            lemma_mk(l.key, l.data, l.left, lr.left);
            lemma_mk(lr.key, lr.data, Some(Box::new(mk(l.key, l.data, l.left, lr.left))), lr.right);
        }
        root.left = Some(rotated);
        proof {
            lemma_cached(root.left);
        }
        update_height(&mut root);
        let ghost r0 = *root;
        let res = rotate_right(root);
        proof {
            lemma_mk(r0.key, r0.data, lr.right, old_root.right);
            lemma_mk(lr.key, lr.data, Some(Box::new(mk(l.key, l.data, l.left, lr.left))), Some(Box::new(mk(r0.key, r0.data, lr.right, old_root.right))));
            assert(tree_map(Some(Box::new(r0))) == tree_map(Some(Box::new(old_root))));
        }
        res
    } else {
        root.left = Some(left);
        let ghost r0 = *root;
        let res = rotate_right(root);
        proof {
            lemma_mk(r0.key, r0.data, l.right, old_root.right);
            lemma_mk(l.key, l.data, l.left, Some(Box::new(mk(r0.key, r0.data, l.right, old_root.right))));
        }
        res
    }
}

/// Rebalances a node whose right subtree is two levels higher than its left one.
fn rotate_right_successor(mut root: Box<AVLNode>) -> (r: Box<AVLNode>)
    requires
        parts_ord(*root),
        tree_bal(root.left),
        tree_bal(root.right),
        tree_height(root.right) == tree_height(root.left) + 2,
        tree_height(root.right) <= 200,
    ensures
        tree_wf(Some(r)),
        tree_map(Some(r)) == tree_map(Some(root)),
        tree_height(root.right) <= tree_height(Some(r)) <= tree_height(root.right) + 1,
{
    let ghost old_root = *root;
    let ghost rt = *old_root.right.unwrap();
    proof {
        assert(tree_ord(Some(Box::new(rt))));
        assert(tree_bal(Some(Box::new(rt))));
        lemma_cached(rt.left);
        lemma_cached(rt.right);
        lemma_cached(old_root.left);
    }
    let right = root.right.take().expect("AVL broken");
    if height(&right.left) > height(&right.right) {
        let ghost rl = *rt.left.unwrap();
        proof {
            assert(tree_ord(Some(Box::new(rl))));
            assert(tree_bal(Some(Box::new(rl))));
        }
        let rotated = rotate_right(right);
        proof {
            lemma_mk(rt.key, rt.data, rl.right, rt.right);
            lemma_mk(rl.key, rl.data, rl.left, Some(Box::new(mk(rt.key, rt.data, rl.right, rt.right))));
        }
        root.right = Some(rotated);
        proof {
            lemma_cached(root.right);
        }
        update_height(&mut root);
        let ghost r0 = *root;
        let res = rotate_left(root);
        proof {
            lemma_mk(r0.key, r0.data, old_root.left, rl.left);
            lemma_mk(rl.key, rl.data, Some(Box::new(mk(r0.key, r0.data, old_root.left, rl.left))), Some(Box::new(mk(rt.key, rt.data, rl.right, rt.right))));
            assert(tree_map(Some(Box::new(r0))) == tree_map(Some(Box::new(old_root))));
        }
        res
    } else {
        root.right = Some(right);
        let ghost r0 = *root;
        let res = rotate_left(root);
        proof {
            lemma_mk(r0.key, r0.data, old_root.left, rt.left);
            lemma_mk(rt.key, rt.data, Some(Box::new(mk(r0.key, r0.data, old_root.left, rt.left))), rt.right);
        }
        res
    }
}

closed spec fn hmax(a: nat, b: nat) -> nat {
    if a >= b { a } else { b }
}

fn diff_of_successors_height(root: &Box<AVLNode>) -> (r: i32)
    requires
        cached(root.left) <= 200,
        cached(root.right) <= 200,
    ensures
        r == cached(root.left) - cached(root.right),
{
    let l = height(&root.left);
    let r = height(&root.right);
    (l as i32) - (r as i32)
}

/// Applies the rotations that restore the balance of `root`, whose subtrees are balanced
/// and differ in height by at most two.
fn rotate_if_necessary(root: Box<AVLNode>) -> (r: Box<AVLNode>)
    requires
        parts_ord(*root),
        tree_bal(root.left),
        tree_bal(root.right),
        tree_height(root.left) <= tree_height(root.right) + 2,
        tree_height(root.right) <= tree_height(root.left) + 2,
        tree_height(root.left) <= 200,
        tree_height(root.right) <= 200,
        root.height == tree_height(Some(root)),
    ensures
        tree_wf(Some(r)),
        tree_map(Some(r)) == tree_map(Some(root)),
        hmax(tree_height(root.left), tree_height(root.right)) <= tree_height(Some(r)),
        tree_height(Some(r)) <= hmax(tree_height(root.left), tree_height(root.right)) + 1,
        tree_height(root.left) <= tree_height(root.right) + 1 && tree_height(root.right) <= tree_height(root.left) + 1
            ==> tree_height(Some(r)) == hmax(tree_height(root.left), tree_height(root.right)) + 1,
{
    proof {
        lemma_cached(root.left);
        lemma_cached(root.right);
    }
    let diff = diff_of_successors_height(&root);
    if -1 <= diff && diff <= 1 {
        return root;
    }
    if diff == 2 {
        rotate_left_successor(root)
    } else {
        rotate_right_successor(root)
    }
}

/// Recomputes the height of `root` and rebalances it.
fn updated_node(mut root: Box<AVLNode>) -> (r: Box<AVLNode>)
    requires
        parts_ord(*root),
        tree_bal(root.left),
        tree_bal(root.right),
        tree_height(root.left) <= tree_height(root.right) + 2,
        tree_height(root.right) <= tree_height(root.left) + 2,
        tree_height(root.left) <= 200,
        tree_height(root.right) <= 200,
    ensures
        tree_wf(Some(r)),
        tree_map(Some(r)) == tree_map(Some(root)),
        hmax(tree_height(root.left), tree_height(root.right)) <= tree_height(Some(r)),
        tree_height(Some(r)) <= hmax(tree_height(root.left), tree_height(root.right)) + 1,
        tree_height(root.left) <= tree_height(root.right) + 1 && tree_height(root.right) <= tree_height(root.left) + 1
            ==> tree_height(Some(r)) == hmax(tree_height(root.left), tree_height(root.right)) + 1,
{
    proof {
        lemma_cached(root.left);
        lemma_cached(root.right);
    }
    update_height(&mut root);
    rotate_if_necessary(root)
}

impl AVLNode {
    /// A single node holding `d` under `k`.
    pub fn new(k: i64, d: usize) -> (r: AVLNode)
        ensures
            tree_wf(Some(Box::new(r))),
            tree_map(Some(Box::new(r))) == Map::<i64, usize>::empty().insert(k, d),
            tree_height(Some(Box::new(r))) == 1,
    {
        let r = AVLNode { key: k, data: d, height: 1, left: None, right: None };
        proof {
            let e: Option<Box<AVLNode>> = None;
            assert(tree_map(e) == Map::<i64, usize>::empty());
            assert(tree_height(e) == 0);
            assert(tree_ord(e));
            assert(tree_bal(e));
            assert(keys_below(e, k));
            assert(keys_above(e, k));
            assert(tree_height(Some(Box::new(r))) == 1);
            assert(tree_map(Some(Box::new(r))) =~= Map::<i64, usize>::empty().insert(k, d));
            assert(tree_ord(Some(Box::new(r))));
            assert(tree_bal(Some(Box::new(r))));
        }
        r
    }
}

/// Inserts into an optional subtree, creating a node when it is empty.
fn insert_in_successor(key: i64, data: usize, successor: Option<Box<AVLNode>>) -> (r: Option<Box<AVLNode>>)
    requires
        tree_wf(successor),
    ensures
        r is Some,
        tree_wf(r),
        tree_map(r) == tree_map(successor).insert(key, data),
        tree_height(successor) <= tree_height(r) <= tree_height(successor) + 1,
    decreases successor,
{
    Some(
        match successor {
            Some(succ) => insert(key, data, succ),
            None => Box::new(AVLNode::new(key, data)),
        },
    )
}

/// Inserts `data` under `key`, replacing what the key held; returns the rebalanced root.
pub fn insert(key: i64, data: usize, mut root: Box<AVLNode>) -> (r: Box<AVLNode>)
    requires
        tree_wf(Some(root)),
    ensures
        tree_wf(Some(r)),
        tree_map(Some(r)) == tree_map(Some(root)).insert(key, data),
        tree_height(Some(root)) <= tree_height(Some(r)) <= tree_height(Some(root)) + 1,
    decreases root,
{
    let ghost old_root = *root;
    proof {
        lemma_height_bound(Some(root));
    }
    if root.key == key {
        root.data = data;
        proof {
            assert(!tree_map(old_root.left).dom().contains(key));
            assert(!tree_map(old_root.right).dom().contains(key));
            assert(tree_map(Some(root)) =~= tree_map(Some(Box::new(old_root))).insert(key, data));
        }
        return root;
    } else if root.key < key {
        root.right = insert_in_successor(key, data, root.right.take());
        proof {
            assert(!tree_map(old_root.left).dom().contains(key));
            assert(tree_map(Some(root)) =~= tree_map(Some(Box::new(old_root))).insert(key, data));
        }
    } else {
        root.left = insert_in_successor(key, data, root.left.take());
        proof {
            assert(!tree_map(old_root.right).dom().contains(key));
            assert(tree_map(Some(root)) =~= tree_map(Some(Box::new(old_root))).insert(key, data));
        }
    }
    updated_node(root)
}

/// `k` is the smallest key of `m` that is `>= key`.
pub open spec fn is_min_at_least(m: Map<i64, usize>, key: i64, k: i64) -> bool {
    &&& m.dom().contains(k)
    &&& k >= key
    &&& forall|k2: i64| #[trigger] m.dom().contains(k2) && k2 >= key ==> k <= k2
}

/// `k` is the largest key of `m` that is `<= key`.
pub open spec fn is_max_at_most(m: Map<i64, usize>, key: i64, k: i64) -> bool {
    &&& m.dom().contains(k)
    &&& k <= key
    &&& forall|k2: i64| #[trigger] m.dom().contains(k2) && k2 <= key ==> k >= k2
}

/// `k` is the smallest key of `m`.
pub open spec fn is_min_key(m: Map<i64, usize>, k: i64) -> bool {
    m.dom().contains(k) && forall|k2: i64| #[trigger] m.dom().contains(k2) ==> k <= k2
}

/// `k` is the largest key of `m`.
pub open spec fn is_max_key(m: Map<i64, usize>, k: i64) -> bool {
    m.dom().contains(k) && forall|k2: i64| #[trigger] m.dom().contains(k2) ==> k >= k2
}

/// The entries of `root` as seen from outside this module.
pub closed spec fn node_map(root: Box<AVLNode>) -> Map<i64, usize> {
    tree_map(Some(root))
}

/// `root` is a well-formed AVL tree.
pub closed spec fn node_wf(root: Box<AVLNode>) -> bool {
    tree_wf(Some(root))
}

proof fn lemma_unfold(root: Box<AVLNode>)
    requires
        tree_wf(Some(root)),
    ensures
        node_map(root) == tree_map(root.left).union_prefer_right(tree_map(root.right)).insert(root.key, root.data),
        node_map(root).dom().contains(root.key),
        node_map(root)[root.key] == root.data,
        tree_wf(root.left),
        tree_wf(root.right),
        keys_below(root.left, root.key),
        keys_above(root.right, root.key),
        forall|k: i64| #[trigger] node_map(root).dom().contains(k) <==> (k == root.key || tree_map(root.left).dom().contains(k) || tree_map(root.right).dom().contains(k)),
        forall|k: i64| #[trigger] tree_map(root.left).dom().contains(k) ==> node_map(root)[k] == tree_map(root.left)[k],
        forall|k: i64| #[trigger] tree_map(root.right).dom().contains(k) ==> node_map(root)[k] == tree_map(root.right)[k],
        match root.left { Some(l) => node_map(l) == tree_map(root.left) && node_wf(l), None => tree_map(root.left) == Map::<i64, usize>::empty() },
        match root.right { Some(r) => node_map(r) == tree_map(root.right) && node_wf(r), None => tree_map(root.right) == Map::<i64, usize>::empty() },
{
    assert forall|k: i64| #[trigger] tree_map(root.left).dom().contains(k) implies node_map(root)[k] == tree_map(root.left)[k] by {
        assert(!tree_map(root.right).dom().contains(k));
    }
}

/// The key and data stored under `key`.
pub fn search_pair<'a>(key: &i64, root: &'a Box<AVLNode>) -> (r: Option<(&'a i64, &'a usize)>)
    requires
        node_wf(*root),
    ensures
        match r {
            Some((k, d)) => node_map(*root).dom().contains(*key) && *k == *key && *d == node_map(*root)[*key],
            None => !node_map(*root).dom().contains(*key),
        },
    decreases root,
{
    proof {
        lemma_unfold(*root);
    }
    if root.key == *key {
        Some((&root.key, &root.data))
    } else if root.key < *key {
        match root.right {
            Some(ref succ) => {
                let r = search_pair(key, succ);
                proof {
                    assert(!tree_map(root.left).dom().contains(*key));
                }
                r
            },
            None => None,
        }
    } else {
        match root.left {
            Some(ref succ) => {
                let r = search_pair(key, succ);
                proof {
                    assert(!tree_map(root.right).dom().contains(*key));
                }
                r
            },
            None => None,
        }
    }
}

/// The data stored under `key`.
pub fn search<'a>(key: &i64, root: &'a Box<AVLNode>) -> (r: Option<&'a usize>)
    requires
        node_wf(*root),
    ensures
        match r {
            Some(d) => node_map(*root).dom().contains(*key) && *d == node_map(*root)[*key],
            None => !node_map(*root).dom().contains(*key),
        },
{
    match search_pair(key, root) {
        Some((_, v)) => Some(v),
        None => None,
    }
}

/// The entry with the smallest key `>= key`.
pub fn min_after<'a>(key: &i64, root: &'a Box<AVLNode>) -> (r: Option<(&'a i64, &'a usize)>)
    requires
        node_wf(*root),
    ensures
        match r {
            Some((k, d)) => is_min_at_least(node_map(*root), *key, *k) && *d == node_map(*root)[*k],
            None => forall|k: i64| #[trigger] node_map(*root).dom().contains(k) ==> k < *key,
        },
    decreases root,
{
    let ghost m = tree_map(Some(*root));
    proof {
        lemma_unfold(*root);
    }
    if root.key == *key {
        Some((&root.key, &root.data))
    } else if root.key < *key {
        match root.right {
            Some(ref succ) => {
                let r = min_after(key, succ);
                proof {
                    assert forall|k2: i64| #[trigger] m.dom().contains(k2) && k2 >= *key implies tree_map(root.right).dom().contains(k2) by {
                        if tree_map(root.left).dom().contains(k2) {
                        }
                    }
                }
                r
            },
            None => None,
        }
    } else {
        match root.left {
            Some(ref succ) => {
                let r = min_after(key, succ);
                match r {
                    Some(p) => {
                        proof {
                            assert(tree_map(root.left).dom().contains(*p.0));
                            assert forall|k2: i64| #[trigger] m.dom().contains(k2) && k2 >= *key implies *p.0 <= k2 by {
                                if tree_map(root.right).dom().contains(k2) {
                                }
                            }
                        }
                        Some(p)
                    },
                    None => {
                        proof {
                            assert forall|k2: i64| #[trigger] m.dom().contains(k2) && k2 >= *key implies root.key <= k2 by {
                                if tree_map(root.right).dom().contains(k2) {
                                }
                            }
                        }
                        Some((&root.key, &root.data))
                    },
                }
            },
            None => {
                proof {
                    assert forall|k2: i64| #[trigger] m.dom().contains(k2) && k2 >= *key implies root.key <= k2 by {
                        if tree_map(root.right).dom().contains(k2) {
                        }
                    }
                }
                Some((&root.key, &root.data))
            },
        }
    }
}

/// The entry with the largest key `<= key`.
pub fn max_before<'a>(key: &i64, root: &'a Box<AVLNode>) -> (r: Option<(&'a i64, &'a usize)>)
    requires
        node_wf(*root),
    ensures
        match r {
            Some((k, d)) => is_max_at_most(node_map(*root), *key, *k) && *d == node_map(*root)[*k],
            None => forall|k: i64| #[trigger] node_map(*root).dom().contains(k) ==> k > *key,
        },
    decreases root,
{
    let ghost m = tree_map(Some(*root));
    proof {
        lemma_unfold(*root);
    }
    if root.key == *key {
        Some((&root.key, &root.data))
    } else if root.key > *key {
        match root.left {
            Some(ref succ) => {
                let r = max_before(key, succ);
                proof {
                    assert forall|k2: i64| #[trigger] m.dom().contains(k2) && k2 <= *key implies tree_map(root.left).dom().contains(k2) by {
                        if tree_map(root.right).dom().contains(k2) {
                        }
                    }
                }
                r
            },
            None => None,
        }
    } else {
        match root.right {
            Some(ref succ) => {
                let r = max_before(key, succ);
                match r {
                    Some(p) => {
                        proof {
                            assert(tree_map(root.right).dom().contains(*p.0));
                            assert forall|k2: i64| #[trigger] m.dom().contains(k2) && k2 <= *key implies *p.0 >= k2 by {
                                if tree_map(root.left).dom().contains(k2) {
                                }
                            }
                        }
                        Some(p)
                    },
                    None => {
                        proof {
                            assert forall|k2: i64| #[trigger] m.dom().contains(k2) && k2 <= *key implies root.key >= k2 by {
                                if tree_map(root.left).dom().contains(k2) {
                                }
                            }
                        }
                        Some((&root.key, &root.data))
                    },
                }
            },
            None => {
                proof {
                    assert forall|k2: i64| #[trigger] m.dom().contains(k2) && k2 <= *key implies root.key >= k2 by {
                        if tree_map(root.left).dom().contains(k2) {
                        }
                    }
                }
                Some((&root.key, &root.data))
            },
        }
    }
}

/// The entry with the smallest key.
pub fn min_pair(root: &Box<AVLNode>) -> (r: (&i64, &usize))
    requires
        node_wf(*root),
    ensures
        is_min_key(node_map(*root), *r.0),
        *r.1 == node_map(*root)[*r.0],
    decreases root,
{
    proof {
        lemma_unfold(*root);
    }
    match root.left {
        Some(ref succ) => {
            let r = min_pair(succ);
            proof {
                assert(tree_map(root.left).dom().contains(*r.0));
            }
            r
        },
        None => (&root.key, &root.data),
    }
}

/// The entry with the largest key.
pub fn max_pair(root: &Box<AVLNode>) -> (r: (&i64, &usize))
    requires
        node_wf(*root),
    ensures
        is_max_key(node_map(*root), *r.0),
        *r.1 == node_map(*root)[*r.0],
    decreases root,
{
    proof {
        lemma_unfold(*root);
    }
    match root.right {
        Some(ref succ) => {
            let r = max_pair(succ);
            proof {
                assert(tree_map(root.right).dom().contains(*r.0));
            }
            r
        },
        None => (&root.key, &root.data),
    }
}

/// The data stored under the smallest key.
pub fn min(root: &Box<AVLNode>) -> (r: &usize)
    requires
        node_wf(*root),
    ensures
        exists|k: i64| is_min_key(node_map(*root), k) && *r == node_map(*root)[k],
    decreases root,
{
    proof {
        lemma_unfold(*root);
    }
    match root.left {
        Some(ref succ) => {
            let r = min(succ);
            proof {
                let k = choose|k: i64| is_min_key(tree_map(root.left), k) && *r == tree_map(root.left)[k];
                assert(tree_map(root.left).dom().contains(k));
                assert(is_min_key(node_map(*root), k));
            }
            r
        },
        None => {
            proof {
                assert(is_min_key(node_map(*root), root.key));
            }
            &root.data
        },
    }
}

/// The data stored under the largest key.
pub fn max(root: &Box<AVLNode>) -> (r: &usize)
    requires
        node_wf(*root),
    ensures
        exists|k: i64| is_max_key(node_map(*root), k) && *r == node_map(*root)[k],
    decreases root,
{
    proof {
        lemma_unfold(*root);
    }
    match root.right {
        Some(ref succ) => {
            let r = max(succ);
            proof {
                let k = choose|k: i64| is_max_key(tree_map(root.right), k) && *r == tree_map(root.right)[k];
                assert(tree_map(root.right).dom().contains(k));
                assert(is_max_key(node_map(*root), k));
            }
            r
        },
        None => {
            proof {
                assert(is_max_key(node_map(*root), root.key));
            }
            &root.data
        },
    }
}

/// The node `root` with `left` put back as its left child.
closed spec fn with_left(root: AVLNode, left: Box<AVLNode>) -> AVLNode {
    AVLNode { key: root.key, data: root.data, height: root.height, left: Some(left), right: root.right }
}

/// What `drop_min` promises for a tree `t`: `rest` holds all of `t` but its smallest entry,
/// which `m` holds alone.
closed spec fn drop_min_post(t: Option<Box<AVLNode>>, rest: Option<Box<AVLNode>>, m: Box<AVLNode>) -> bool {
    &&& tree_wf(rest)
    &&& m.left is None
    &&& m.right is None
    &&& is_min_key(tree_map(t), m.key)
    &&& m.data == tree_map(t)[m.key]
    &&& tree_map(rest) == tree_map(t).remove(m.key)
    &&& tree_height(t) <= tree_height(rest) + 1
    &&& tree_height(rest) <= tree_height(t)
}

/// `drop_min` on the left child of `root`, rebuilding `root` around what is left.
fn drop_min_from_left(mut root: Box<AVLNode>, left: Box<AVLNode>) -> (r: (Option<Box<AVLNode>>, Box<AVLNode>))
    requires
        root.left is None,
        tree_wf(Some(Box::new(with_left(*root, left)))),
    ensures
        drop_min_post(Some(Box::new(with_left(*root, left))), r.0, r.1),
    decreases left, 1nat,
{
    let ghost t = Some(Box::new(with_left(*root, left)));
    let ghost old_root = *root;
    proof {
        lemma_unfold(Box::new(with_left(*root, left)));
        lemma_height_bound(t);
    }
    let (new_left, min) = drop_min(left);
    root.left = new_left;
    proof {
        lemma_unfold(left);
        assert forall|x: i64| #[trigger] tree_map(root.left).dom().contains(x) implies x < root.key by {
            assert(tree_map(Some(left)).dom().contains(x));
        }
        assert(tree_map(Some(left)).dom().contains(min.key));
        assert(is_min_key(tree_map(t), min.key)) by {
            assert forall|k2: i64| #[trigger] tree_map(t).dom().contains(k2) implies min.key <= k2 by {
                if tree_map(Some(left)).dom().contains(k2) {
                } else if k2 == old_root.key {
                } else {
                }
            }
        }
    }
    let ghost r0 = *root;
    let res = updated_node(root);
    proof {
        assert(tree_map(Some(Box::new(r0))) =~= tree_map(t).remove(min.key));
    }
    (Some(res), min)
}

/// Splits off the entry with the smallest key: returns the rest of the tree and that entry's node.
fn drop_min(mut root: Box<AVLNode>) -> (r: (Option<Box<AVLNode>>, Box<AVLNode>))
    requires
        tree_wf(Some(root)),
    ensures
        drop_min_post(Some(root), r.0, r.1),
    decreases root, 0nat,
{
    let ghost old_root = *root;
    proof {
        lemma_unfold(root);
    }
    match root.left.take() {
        Some(left) => {
            proof {
                assert(with_left(*root, left) == old_root);
            }
            drop_min_from_left(root, left)
        },
        None => {
            let rest = root.right.take();
            proof {
                assert(is_min_key(tree_map(Some(Box::new(old_root))), old_root.key)) by {
                    assert forall|k2: i64| #[trigger] tree_map(Some(Box::new(old_root))).dom().contains(k2) implies old_root.key <= k2 by {
                        if tree_map(old_root.right).dom().contains(k2) {
                        }
                    }
                }
                assert(tree_map(rest) =~= tree_map(Some(Box::new(old_root))).remove(old_root.key));
            }
            (rest, root)
        },
    }
}

/// Joins two trees whose keys are all smaller in `l` than in `r` and whose heights differ by at
/// most one.
fn combine_two_subtrees(l: Box<AVLNode>, r: Box<AVLNode>) -> (res: Box<AVLNode>)
    requires
        tree_wf(Some(l)),
        tree_wf(Some(r)),
        forall|x: i64, y: i64| #[trigger] tree_map(Some(l)).dom().contains(x) && #[trigger] tree_map(Some(r)).dom().contains(y) ==> x < y,
        tree_height(Some(l)) <= tree_height(Some(r)) + 1,
        tree_height(Some(r)) <= tree_height(Some(l)) + 1,
    ensures
        tree_wf(Some(res)),
        tree_map(Some(res)) == tree_map(Some(l)).union_prefer_right(tree_map(Some(r))),
        hmax(tree_height(Some(l)), tree_height(Some(r))) <= tree_height(Some(res)),
        tree_height(Some(res)) <= hmax(tree_height(Some(l)), tree_height(Some(r))) + 1,
{
    proof {
        lemma_height_bound(Some(l));
        lemma_height_bound(Some(r));
    }
    let (remaining_tree, min) = drop_min(r);
    let mut new_root = min;
    new_root.left = Some(l);
    new_root.right = remaining_tree;
    let ghost nr = *new_root;
    proof {
        assert(tree_map(Some(r)).dom().contains(min.key));
        assert forall|x: i64| #[trigger] tree_map(nr.left).dom().contains(x) implies x < nr.key by {
        }
        assert forall|x: i64| #[trigger] tree_map(nr.right).dom().contains(x) implies x > nr.key by {
            assert(tree_map(Some(r)).dom().contains(x));
        }
    }
    let res = updated_node(new_root);
    proof {
        assert(tree_map(Some(Box::new(nr))) =~= tree_map(Some(l)).union_prefer_right(tree_map(Some(r)))) by {
            assert forall|x: i64| #[trigger] tree_map(Some(l)).dom().contains(x) implies !tree_map(Some(r)).dom().contains(x) by {
                if tree_map(Some(r)).dom().contains(x) {
                    assert(x < x);
                }
            }
        }
    }
    res
}

/// Removes the root of a tree.
fn delete_root(mut root: Box<AVLNode>) -> (r: Option<Box<AVLNode>>)
    requires
        tree_wf(Some(root)),
    ensures
        tree_wf(r),
        tree_map(r) == tree_map(Some(root)).remove(root.key),
        tree_height(Some(root)) <= tree_height(r) + 1,
        tree_height(r) <= tree_height(Some(root)),
{
    let ghost old_root = *root;
    proof {
        lemma_unfold(root);
    }
    match (root.left.take(), root.right.take()) {
        (None, None) => {
            proof {
                assert(tree_map(None::<Box<AVLNode>>) =~= tree_map(Some(Box::new(old_root))).remove(old_root.key));
            }
            None
        },
        (Some(l), None) => {
            proof {
                assert(tree_map(Some(l)) =~= tree_map(Some(Box::new(old_root))).remove(old_root.key));
            }
            Some(l)
        },
        (None, Some(r)) => {
            proof {
                assert(tree_map(Some(r)) =~= tree_map(Some(Box::new(old_root))).remove(old_root.key));
            }
            Some(r)
        },
        (Some(l), Some(r)) => {
            proof {
                assert forall|x: i64, y: i64| #[trigger] tree_map(Some(l)).dom().contains(x) && #[trigger] tree_map(Some(r)).dom().contains(y) implies x < y by {
                }
            }
            let c = combine_two_subtrees(l, r);
            proof {
                assert(tree_map(Some(c)) =~= tree_map(Some(Box::new(old_root))).remove(old_root.key));
            }
            Some(c)
        },
    }
}

/// A tree with a root holds the root's key.
proof fn lemma_map_has_root(t: Option<Box<AVLNode>>)
    ensures
        t matches Some(n) ==> tree_map(t).dom().contains(n.key),
        t is Some ==> tree_map(t) != Map::<i64, usize>::empty(),
{
    if let Some(n) = t {
        assert(tree_map(t).dom().contains(n.key));
        assert(!Map::<i64, usize>::empty().dom().contains(n.key));
    }
}

/// Removes `key`; returns `None` when the tree becomes empty.
pub fn delete(key: i64, mut root: Box<AVLNode>) -> (r: Option<Box<AVLNode>>)
    requires
        node_wf(root),
    ensures
        match r {
            Some(n) => node_wf(n) && node_map(n) == node_map(root).remove(key),
            None => node_map(root).remove(key) == Map::<i64, usize>::empty(),
        },
        tree_wf(r),
        tree_map(r) == node_map(root).remove(key),
        r is None <==> node_map(root).remove(key) == Map::<i64, usize>::empty(),
        tree_height(Some(root)) <= tree_height(r) + 1,
        tree_height(r) <= tree_height(Some(root)),
    decreases root,
{
    let ghost old_root = *root;
    proof {
        lemma_unfold(root);
        lemma_height_bound(Some(root));
    }
    if root.key == key {
        let d = delete_root(root);
        proof {
            lemma_map_has_root(d);
        }
        return d;
    } else if root.key < key {
        if let Some(succ) = root.right.take() {
            root.right = delete(key, succ);
            proof {
                assert(!tree_map(old_root.left).dom().contains(key));
                assert(tree_map(Some(root)) =~= tree_map(Some(Box::new(old_root))).remove(key));
            }
            let res = updated_node(root);
            proof {
                lemma_map_has_root(Some(res));
            }
            return Some(res);
        }
    } else {
        if let Some(succ) = root.left.take() {
            root.left = delete(key, succ);
            proof {
                assert(!tree_map(old_root.right).dom().contains(key));
                assert(tree_map(Some(root)) =~= tree_map(Some(Box::new(old_root))).remove(key));
            }
            let res = updated_node(root);
            proof {
                lemma_map_has_root(Some(res));
            }
            return Some(res);
        }
    }
    proof {
        assert(tree_map(Some(root)) =~= tree_map(Some(Box::new(old_root))).remove(key));
        lemma_map_has_root(Some(root));
    }
    Some(root)
}

/// `m` with `amount` taken off the data of every key above `threshold`.
pub open spec fn subtract_above(m: Map<i64, usize>, threshold: i64, amount: usize) -> Map<i64, usize> {
    m.map_entries(|k: i64, v: usize| if k > threshold { (v - amount) as usize } else { v })
}

/// Every key above `threshold` holds at least `amount`.
pub open spec fn can_subtract_above(m: Map<i64, usize>, threshold: i64, amount: usize) -> bool {
    forall|k: i64| #[trigger] m.dom().contains(k) && k > threshold ==> m[k] >= amount
}

/// Whether every key `> threshold` of the subtree holds at least `amount`.
fn holds_at_least_above(t: &Option<Box<AVLNode>>, threshold: i64, amount: usize) -> (r: bool)
    requires
        tree_wf(*t),
    ensures
        r == can_subtract_above(tree_map(*t), threshold, amount),
    decreases *t,
{
    match t {
        None => {
            proof {
                assert(tree_map(*t) == Map::<i64, usize>::empty());
            }
            true
        },
        Some(n) => {
            proof {
                lemma_unfold(*n);
            }
            let own = !(n.key > threshold) || n.data >= amount;
            let l = holds_at_least_above(&n.left, threshold, amount);
            let r = holds_at_least_above(&n.right, threshold, amount);
            proof {
                let m = tree_map(*t);
                assert(m == node_map(*n));
                if own && l && r {
                    assert forall|k: i64| #[trigger] m.dom().contains(k) && k > threshold implies m[k] >= amount by {
                        if tree_map(n.left).dom().contains(k) {
                        } else if tree_map(n.right).dom().contains(k) {
                        } else {
                        }
                    }
                } else if !own {
                    assert(m.dom().contains(n.key));
                } else if !l {
                    let k = choose|k: i64| #[trigger] tree_map(n.left).dom().contains(k) && k > threshold && !(tree_map(n.left)[k] >= amount);
                    assert(m.dom().contains(k));
                } else {
                    let k = choose|k: i64| #[trigger] tree_map(n.right).dom().contains(k) && k > threshold && !(tree_map(n.right)[k] >= amount);
                    assert(m.dom().contains(k));
                }
            }
            own && l && r
        },
    }
}

/// The two trees have the same shape: the same keys in the same nodes, with the same heights.
pub closed spec fn same_shape(a: Option<Box<AVLNode>>, b: Option<Box<AVLNode>>) -> bool
    decreases a,
{
    match a {
        None => b is None,
        Some(x) => match b {
            None => false,
            Some(y) => x.key == y.key && x.height == y.height && same_shape(x.left, y.left) && same_shape(x.right, y.right),
        },
    }
}

proof fn lemma_same_shape_refl(a: Option<Box<AVLNode>>)
    ensures
        same_shape(a, a),
    decreases a,
{
    if let Some(x) = a {
        lemma_same_shape_refl(x.left);
        lemma_same_shape_refl(x.right);
    }
}

/// For all keys `> threshold`, subtracts `amount` from their data.
pub fn subtract_where_greater_than(threshold: i64, amount: usize, root: &mut Box<AVLNode>)
    requires
        node_wf(*old(root)),
        can_subtract_above(node_map(*old(root)), threshold, amount),
    ensures
        same_shape(Some(*old(root)), Some(*final(root))),
        node_wf(*final(root)),
        node_map(*final(root)) == subtract_above(node_map(*old(root)), threshold, amount),
        tree_height(Some(*final(root))) == tree_height(Some(*old(root))),
    decreases *old(root),
{
    let ghost old_root = **root;
    proof {
        lemma_unfold(*root);
        assert(*old(root) == Box::new(old_root));
        assert forall|k: i64| #[trigger] tree_map(old_root.left).dom().contains(k) && k > threshold implies tree_map(old_root.left)[k] >= amount by {
            assert(node_map(*old(root)).dom().contains(k));
        }
        assert forall|k: i64| #[trigger] tree_map(old_root.right).dom().contains(k) && k > threshold implies tree_map(old_root.right)[k] >= amount by {
            assert(node_map(*old(root)).dom().contains(k));
        }
    }
    if root.key > threshold {
        root.data = root.data - amount;
        if let Some(mut t) = root.left.take() {
            subtract_where_greater_than(threshold, amount, &mut t);
            root.left = Some(t);
        }
        if let Some(mut t) = root.right.take() {
            subtract_where_greater_than(threshold, amount, &mut t);
            root.right = Some(t);
        }
    } else if root.right.is_some() {
        if let Some(mut t) = root.right.take() {
            subtract_where_greater_than(threshold, amount, &mut t);
            root.right = Some(t);
        }
        proof {
            assert forall|k: i64| #[trigger] tree_map(old_root.left).dom().contains(k) implies !(k > threshold) by {
            }
            assert(tree_map(root.left) =~= subtract_above(tree_map(old_root.left), threshold, amount));
        }
    }
    proof {
        if root.key <= threshold && old_root.right is None {
            lemma_same_shape_refl(old_root.right);
        }
        lemma_same_shape_refl(old_root.left);
        let m0 = tree_map(Some(Box::new(old_root)));
        assert(tree_ord(Some(*root)));
        assert(tree_bal(Some(*root)));
        assert(tree_map(Some(*root)) =~= subtract_above(m0, threshold, amount)) by {
            assert forall|k: i64| #[trigger] tree_map(old_root.left).dom().contains(k) implies !tree_map(old_root.right).dom().contains(k) by {
            }
        }
    }
}

/// An AVL-tree cracker index mapping `i64` values to positions.
pub struct AVLCrackerIndex {
    pub root: Option<Box<AVLNode>>,
}

impl Clone for AVLCrackerIndex {
    fn clone(&self) -> (r: Self)
        ensures
            r == *self,
    {
        AVLCrackerIndex {
            root: match &self.root {
                Some(n) => Some(Box::new((&**n).clone())),
                None => None,
            },
        }
    }
}

impl View for AVLCrackerIndex {
    type V = Map<i64, usize>;

    closed spec fn view(&self) -> Map<i64, usize> {
        tree_map(self.root)
    }
}

impl AVLCrackerIndex {
    /// The tree under `root` is a well-formed AVL tree.
    pub closed spec fn wf(&self) -> bool {
        tree_wf(self.root)
    }

    pub fn new() -> (r: AVLCrackerIndex)
        ensures
            r.wf(),
            r@ == Map::<i64, usize>::empty(),
    {
        let r = AVLCrackerIndex { root: None };
        proof {
            assert(tree_ord(r.root) && tree_bal(r.root));
        }
        r
    }

    pub fn insert(&mut self, key: i64, data: usize)
        requires
            old(self).wf(),
        ensures
            final(self).wf(),
            final(self)@ == old(self)@.insert(key, data),
    {
        match self.root.take() {
            Some(box_to_node) => self.root = Some(insert(key, data, box_to_node)),
            None => {
                self.root = Some(Box::new(AVLNode::new(key, data)));
                proof {
                    assert(tree_map(None::<Box<AVLNode>>) == Map::<i64, usize>::empty());
                }
            },
        }
    }

    pub fn delete(&mut self, key: i64)
        requires
            old(self).wf(),
        ensures
            final(self).wf(),
            final(self)@ == old(self)@.remove(key),
    {
        match self.root.take() {
            Some(box_to_node) => self.root = delete(key, box_to_node),
            None => {
                proof {
                    assert(tree_map(None::<Box<AVLNode>>) =~= tree_map(None::<Box<AVLNode>>).remove(key));
                }
                return;
            },
        }
    }

    pub fn get(&self, key: i64) -> (r: Option<usize>)
        requires
            self.wf(),
        ensures
            r == if self@.dom().contains(key) { Some(self@[key]) } else { None::<usize> },
    {
        match self.root {
            Some(ref box_to_node) => {
                match search(&key, box_to_node) {
                    Some(node) => Some(*node),
                    None => None,
                }
            },
            None => None,
        }
    }

    pub fn get_or(&self, key: i64, default: usize) -> (r: usize)
        requires
            self.wf(),
        ensures
            r == if self@.dom().contains(key) { self@[key] } else { default },
    {
        match self.get(key) {
            Some(data) => data,
            None => default,
        }
    }

    pub fn contains(&self, key: i64) -> (r: bool)
        requires
            self.wf(),
        ensures
            r == self@.dom().contains(key),
    {
        self.get(key).is_some()
    }

    pub fn empty(&self) -> (r: bool)
        requires
            self.wf(),
        ensures
            r == (self@ == Map::<i64, usize>::empty()),
    {
        proof {
            if self.root is Some {
                let n = self.root.unwrap();
                lemma_unfold(n);
                assert(self@.dom().contains(n.key));
            } else {
                assert(self@ == Map::<i64, usize>::empty());
            }
        }
        self.root.is_none()
    }

    /// The data of the smallest key `>= key`.
    pub fn upper_bound(&self, key: &i64) -> (r: Option<usize>)
        requires
            self.wf(),
        ensures
            match r {
                Some(d) => exists|k: i64| is_min_at_least(self@, *key, k) && d == self@[k],
                None => forall|k: i64| #[trigger] self@.dom().contains(k) ==> k < *key,
            },
    {
        match self.root {
            Some(ref tree) => {
                proof {
                    assert(self@ == node_map(*tree));
                }
                match min_after(key, tree) {
                    Some((k, v)) => {
                        proof {
                            assert(is_min_at_least(self@, *key, *k));
                        }
                        Some(*v)
                    },
                    None => None,
                }
            },
            None => None,
        }
    }

    /// The data of the largest key `<= key`.
    pub fn lower_bound(&self, key: &i64) -> (r: Option<usize>)
        requires
            self.wf(),
        ensures
            match r {
                Some(d) => exists|k: i64| is_max_at_most(self@, *key, k) && d == self@[k],
                None => forall|k: i64| #[trigger] self@.dom().contains(k) ==> k > *key,
            },
    {
        match self.root {
            Some(ref tree) => {
                proof {
                    assert(self@ == node_map(*tree));
                }
                match max_before(key, tree) {
                    Some((k, v)) => {
                        proof {
                            assert(is_max_at_most(self@, *key, *k));
                        }
                        Some(*v)
                    },
                    None => None,
                }
            },
            None => None,
        }
    }

    /// Whether every key `> threshold` holds at least `amount`, so that
    /// `subtract_where_greater_than` can take it off.
    pub fn can_subtract_where_greater_than(&self, threshold: i64, amount: usize) -> (r: bool)
        requires
            self.wf(),
        ensures
            r == can_subtract_above(self@, threshold, amount),
    {
        holds_at_least_above(&self.root, threshold, amount)
    }

    /// For all keys `> threshold`, subtracts `amount` from their data.
    pub fn subtract_where_greater_than(&mut self, threshold: i64, amount: usize)
        requires
            old(self).wf(),
            can_subtract_above(old(self)@, threshold, amount),
        ensures
            final(self).wf(),
            final(self)@ == subtract_above(old(self)@, threshold, amount),
    {
        match self.root.take() {
            Some(mut root) => {
                subtract_where_greater_than(threshold, amount, &mut root);
                self.root = Some(root);
            },
            None => {
                proof {
                    assert(self@ =~= subtract_above(old(self)@, threshold, amount));
                }
            },
        }
    }
}

} // verus!
