//! Random graphs for the benchmarks: dealing the node ids in a random order, shuffling edges in
//! pairs, and random connected trees.

use vstd::prelude::*;
use rand::Rng;
use rand::ThreadRng;
use crate::crack::{distinct, all_below, gather, iota, iota_seq};
use crate::graph::bfs::{
    edge_from, reachable, symmetric, same_edges, lemma_reach_extends, lemma_reach_reverse,
    lemma_reach_trans, lemma_reach_step, lemma_reach_start, lemma_same_edges_reach,
};
use crate::laws::{all_rows, law_base_rows_are_a_permutation};

verus! {

#[verifier::external_type_specification]
#[verifier::external_body]
pub struct ExThreadRng(ThreadRng);

/// `rand::thread_rng`: the thread's random number generator.
#[verifier::external_body]
pub(crate) fn new_rng() -> (r: ThreadRng) {
    rand::thread_rng()
}

/// `Rng::gen_range`: a random number from `low` up to, not including, `high`; it panics unless
/// `low < high`.
#[verifier::external_body]
pub(crate) fn gen_index(rng: &mut ThreadRng, low: usize, high: usize) -> (r: usize)
    requires
        low < high,
    ensures
        low <= r < high,
{
    rng.gen_range(low, high)
}

/// `Rng::choose`: a random entry of `values`, or `None` when there is none.
#[verifier::external_body]
fn choose_from(rng: &mut ThreadRng, values: &Vec<i64>) -> (r: Option<i64>)
    ensures
        values@.len() == 0 ==> r is None,
        values@.len() > 0 ==> r is Some,
        r matches Some(x) ==> values@.contains(x),
{
    match rng.choose(values.as_slice()) {
        Some(x) => Some(*x),
        None => None,
    }
}

/// `p` lists each of the numbers `0..n` once: it is a permutation of them.
pub open spec fn is_permutation(p: Seq<usize>, n: nat) -> bool {
    &&& p.len() == n
    &&& distinct(p)
    &&& all_below(p, n as int)
}

/// Moving entry `r` of `b` to the end of `a` keeps the entries of both together.
proof fn lemma_move_entry(a: Seq<usize>, b: Seq<usize>, r: int)
    requires
        0 <= r < b.len(),
    ensures
        a.push(b[r]).to_multiset().add(b.remove(r).to_multiset()) == a.to_multiset().add(b.to_multiset()),
{
    broadcast use vstd::multiset::group_multiset_axioms;
    vstd::seq_lib::to_multiset_build(a, b[r]);
    vstd::seq_lib::to_multiset_remove(b, r);
    vstd::seq_lib::to_multiset_contains(b, b[r]);
    assert(b.contains(b[r]));
    assert(a.push(b[r]).to_multiset().add(b.remove(r).to_multiset()) =~= a.to_multiset().add(b.to_multiset()));
}

/// A sequence with the entries of `0..n`, each once, is a permutation of them.
proof fn lemma_permutation_of_iota(p: Seq<usize>, n: usize)
    requires
        p.to_multiset() == iota_seq(n as nat).to_multiset(),
    ensures
        is_permutation(p, n as nat),
{
    let s = iota_seq(n as nat);
    assert(s.no_duplicates()) by {
        assert forall|i: int, j: int| 0 <= i < s.len() && 0 <= j < s.len() && i != j implies s[i] != s[j] by {
            assert(s[i] == i && s[j] == j);
        }
    }
    s.lemma_multiset_has_no_duplicates();
    p.lemma_multiset_has_no_duplicates_conv();
    p.to_multiset_ensures();
    s.to_multiset_ensures();
    assert(p.len() == n);
    assert forall|i: int, j: int| 0 <= i < p.len() && 0 <= j < p.len() && i != j implies #[trigger] p[i] != #[trigger] p[j] by {
    }
    assert forall|j: int| 0 <= j < p.len() implies (#[trigger] p[j]) < n by {
        assert(p.contains(p[j]));
        vstd::seq_lib::to_multiset_contains(p, p[j]);
        vstd::seq_lib::to_multiset_contains(s, p[j]);
        assert(s.contains(p[j]));
        let k = choose|k: int| 0 <= k < s.len() && s[k] == p[j];
        assert(s[k] == k);
    }
}

/// The numbers `0..n` in a random order; `n` is at least 1.
pub fn deal(n: usize) -> (r: Vec<usize>)
    requires
        n >= 1,
    ensures
        is_permutation(r@, n as nat),
{
    let mut dealing: Vec<usize> = iota(n);
    let mut dealt: Vec<usize> = Vec::with_capacity(n);
    let mut rng = new_rng();
    let mut chosen: usize = 0;
    let ghost whole = iota_seq(n as nat).to_multiset();
    proof {
        assert(dealt@ =~= Seq::<usize>::empty());
        broadcast use vstd::multiset::group_multiset_axioms;
        dealt@.to_multiset_ensures();
        assert(dealt@.to_multiset().add(dealing@.to_multiset()) =~= whole);
    }
    while dealing.len() > 1
        invariant
            dealing@.len() + chosen == n,
            dealt@.len() == chosen,
            dealing@.len() >= 1,
            dealt@.to_multiset().add(dealing@.to_multiset()) == whole,
            whole == iota_seq(n as nat).to_multiset(),
        decreases dealing@.len(),
    {
        let random = gen_index(&mut rng, 0, n - chosen);
        proof {
            lemma_move_entry(dealt@, dealing@, random as int);
        }
        dealt.push(dealing[random]);
        dealing.remove(random);
        chosen = chosen + 1;
    }
    proof {
        lemma_move_entry(dealt@, dealing@, 0);
        assert(dealing@.remove(0) =~= Seq::<usize>::empty());
    }
    dealt.push(dealing[0]);
    proof {
        broadcast use vstd::multiset::group_multiset_axioms;
        Seq::<usize>::empty().to_multiset_ensures();
        assert(dealt@.to_multiset() =~= whole);
        lemma_permutation_of_iota(dealt@, n);
    }
    dealt
}

/// The edges `src[i] -> dst[i]`, moved together into a random order; there is at least one.
pub fn pairwise_shuffle(src: Vec<i64>, dst: Vec<i64>) -> (r: (Vec<i64>, Vec<i64>))
    requires
        src@.len() >= 1,
        dst@.len() >= src@.len(),
    ensures
        exists|p: Seq<usize>| #[trigger] is_permutation(p, src@.len()) && r.0@ == gather(src@, p) && r.1@ == gather(dst@, p),
{
    let n = src.len();
    let order = deal(n);
    let mut src_shuffled: Vec<i64> = Vec::with_capacity(n);
    let mut dst_shuffled: Vec<i64> = Vec::with_capacity(n);
    let mut k: usize = 0;
    while k < order.len()
        invariant
            n == src@.len(),
            n <= dst@.len(),
            is_permutation(order@, n as nat),
            k <= order@.len(),
            src_shuffled@ == gather(src@, order@.subrange(0, k as int)),
            dst_shuffled@ == gather(dst@, order@.subrange(0, k as int)),
        decreases order@.len() - k,
    {
        let i = order[k];
        src_shuffled.push(src[i]);
        dst_shuffled.push(dst[i]);
        k += 1;
        proof {
            assert(src_shuffled@ =~= gather(src@, order@.subrange(0, k as int)));
            assert(dst_shuffled@ =~= gather(dst@, order@.subrange(0, k as int)));
        }
    }
    proof {
        assert(order@.subrange(0, order@.len() as int) =~= order@);
    }
    (src_shuffled, dst_shuffled)
}

/// Where `x` first occurs in `v`, if it does.
fn position_of(v: &Vec<i64>, x: i64) -> (r: Option<usize>)
    ensures
        match r {
            Some(i) => i < v@.len() && v@[i as int] == x,
            None => !v@.contains(x),
        },
{
    let mut k: usize = 0;
    while k < v.len()
        invariant
            k <= v@.len(),
            forall|j: int| 0 <= j < k ==> v@[j] != x,
        decreases v@.len() - k,
    {
        if v[k] == x {
            return Some(k);
        }
        k += 1;
    }
    None
}

/// Every position below `n` appears in a permutation of `0..n`.
proof fn lemma_permutation_onto(p: Seq<usize>, n: nat, i: int)
    requires
        is_permutation(p, n),
        n <= usize::MAX,
        0 <= i < n,
    ensures
        exists|j: int| 0 <= j < p.len() && p[j] == i,
{
    law_base_rows_are_a_permutation(p, n);
    assert(all_rows(n).contains(i as usize));
    assert(p.to_set().contains(i as usize));
}

/// Shuffling edges in pairs keeps the same edges.
proof fn lemma_shuffle_same_edges(src: Seq<i64>, dst: Seq<i64>, p: Seq<usize>, s2: Seq<i64>, d2: Seq<i64>)
    requires
        src.len() == dst.len(),
        src.len() <= usize::MAX,
        is_permutation(p, src.len()),
        s2 == gather(src, p),
        d2 == gather(dst, p),
    ensures
        same_edges(src, dst, s2, d2),
        s2.len() == src.len(),
        d2.len() == src.len(),
{
    assert forall|i: int| 0 <= i < src.len() implies #[trigger] edge_from(s2, d2, src[i], dst[i]) by {
        lemma_permutation_onto(p, src.len(), i);
        let j = choose|j: int| 0 <= j < p.len() && p[j] == i;
        assert(s2[j] == src[i] && d2[j] == dst[i]);
    }
    assert forall|j: int| 0 <= j < s2.len() implies #[trigger] edge_from(src, dst, s2[j], d2[j]) by {
        let i = p[j] as int;
        assert(s2[j] == src[i] && d2[j] == dst[i]);
    }
}

/// The state while a random tree grows: as many sources as targets, ids between 1 and `n`,
/// every edge with its reverse, every source reachable from `root`, and `root` a source.
pub open spec fn growing_tree(sc: Seq<i64>, dc: Seq<i64>, root: i64, n: i64) -> bool {
    &&& sc.len() == dc.len()
    &&& forall|i: int| 0 <= i < sc.len() ==> 1 <= #[trigger] sc[i] <= n && 1 <= dc[i] <= n
    &&& symmetric(sc, dc)
    &&& forall|i: int| 0 <= i < sc.len() ==> reachable(sc, dc, root, #[trigger] sc[i])
    &&& sc.len() > 0 && sc[0] == root
}

/// Adding a node `a` joined both ways to a node `b` already in the tree keeps it growing.
proof fn lemma_grow(sc: Seq<i64>, dc: Seq<i64>, root: i64, n: i64, a: i64, b: i64)
    requires
        growing_tree(sc, dc, root, n),
        1 <= a <= n,
        sc.contains(b),
    ensures
        growing_tree(sc.push(a).push(b), dc.push(b).push(a), root, n),
{
    let sc1 = sc.push(a).push(b);
    let dc1 = dc.push(b).push(a);
    let l = sc.len() as int;
    assert(sc1.subrange(0, l) =~= sc);
    assert(dc1.subrange(0, l) =~= dc);
    let jb = choose|j: int| 0 <= j < sc.len() && sc[j] == b;
    assert forall|i: int| 0 <= i < sc1.len() implies 1 <= #[trigger] sc1[i] <= n && 1 <= dc1[i] <= n by {
        if i < l {
            assert(sc1[i] == sc[i] && dc1[i] == dc[i]);
        }
    }
    assert forall|i: int| 0 <= i < sc1.len() implies #[trigger] edge_from(sc1, dc1, dc1[i], sc1[i]) by {
        if i < l {
            assert(sc1[i] == sc[i] && dc1[i] == dc[i]);
            assert(edge_from(sc, dc, dc[i], sc[i]));
            let e = choose|e: int| 0 <= e < sc.len() && sc[e] == dc[i] && #[trigger] dc[e] == sc[i];
            assert(sc1[e] == sc[e] && dc1[e] == dc[e]);
        } else if i == l {
            assert(sc1[l + 1] == dc1[l] && dc1[l + 1] == sc1[l]);
        } else {
            assert(sc1[l] == dc1[l + 1] && dc1[l] == sc1[l + 1]);
        }
    }
    lemma_reach_extends(sc, dc, sc1, dc1, root, b);
    assert(sc1[l + 1] == b && dc1[l + 1] == a);
    lemma_reach_step(sc1, dc1, root, l + 1);
    assert forall|i: int| 0 <= i < sc1.len() implies reachable(sc1, dc1, root, #[trigger] sc1[i]) by {
        if i < l {
            assert(sc1[i] == sc[i]);
            lemma_reach_extends(sc, dc, sc1, dc1, root, sc[i]);
        }
    }
    assert(sc1[0] == sc[0]);
}

/// The ids `1..=n` in a random order.
fn ids_in_random_order(n: i64) -> (r: Vec<i64>)
    requires
        2 <= n <= usize::MAX,
    ensures
        r@.len() == n,
        forall|v: i64| 1 <= v <= n ==> r@.contains(v),
        forall|j: int| 0 <= j < r@.len() ==> 1 <= #[trigger] r@[j] <= n,
        forall|a: int, b: int| 0 <= a < r@.len() && 0 <= b < r@.len() && a != b ==> #[trigger] r@[a] != #[trigger] r@[b],
{
    let order = deal(n as usize);
    let mut add_order: Vec<i64> = Vec::with_capacity(n as usize);
    let mut k: usize = 0;
    while k < order.len()
        invariant
            is_permutation(order@, n as nat),
            2 <= n <= usize::MAX,
            k <= order@.len(),
            add_order@.len() == k,
            forall|j: int| 0 <= j < k ==> #[trigger] add_order@[j] == order@[j] + 1,
        decreases order@.len() - k,
    {
        add_order.push(1 + order[k] as i64);
        k += 1;
    }
    let ghost full = add_order@;
    proof {
        assert forall|v: i64| 1 <= v <= n implies full.contains(v) by {
            lemma_permutation_onto(order@, n as nat, v - 1);
            let j = choose|j: int| 0 <= j < order@.len() && order@[j] == v - 1;
            assert(full[j] == v);
        }
        assert forall|j: int| 0 <= j < full.len() implies 1 <= #[trigger] full[j] <= n by {
            assert(full[j] == order@[j] + 1);
        }
        lemma_permutation_values(order@, full, n);
    }
    add_order
}

/// A random entry of the ids, taken out of them, with what is left: the entry is one of them,
/// and every other id is still there.
fn take_random(ids: &mut Vec<i64>, Ghost(n): Ghost<i64>) -> (x: i64)
    requires
        old(ids)@.len() > 0,
        forall|j: int| 0 <= j < old(ids)@.len() ==> 1 <= #[trigger] old(ids)@[j] <= n,
        forall|a: int, b: int| 0 <= a < old(ids)@.len() && 0 <= b < old(ids)@.len() && a != b ==> #[trigger] old(ids)@[a] != #[trigger] old(ids)@[b],
    ensures
        old(ids)@.contains(x),
        final(ids)@.len() == old(ids)@.len() - 1,
        forall|v: i64| old(ids)@.contains(v) && v != x ==> final(ids)@.contains(v),
        !final(ids)@.contains(x),
        forall|j: int| 0 <= j < final(ids)@.len() ==> 1 <= #[trigger] final(ids)@[j] <= n,
        forall|a: int, b: int| 0 <= a < final(ids)@.len() && 0 <= b < final(ids)@.len() && a != b ==> #[trigger] final(ids)@[a] != #[trigger] final(ids)@[b],
{
    let ghost before = ids@;
    let mut rng = new_rng();
    let x = match choose_from(&mut rng, ids) {
        Some(x) => x,
        None => {
            proof {
                assert(false);
            }
            0
        },
    };
    let index = match position_of(ids, x) {
        Some(i) => i,
        None => {
            proof {
                assert(false);
            }
            0
        },
    };
    ids.remove(index);
    proof {
        let after = ids@;
        assert(after == before.remove(index as int));
        assert forall|j: int| 0 <= j < after.len() implies after[j] == before[if j < index { j } else { j + 1 }] by {
        }
        assert forall|v: i64| before.contains(v) && v != x implies after.contains(v) by {
            let j = choose|j: int| 0 <= j < before.len() && before[j] == v;
            assert(j != index);
            let j1 = if j < index { j } else { j - 1 };
            assert(after[j1] == v);
        }
        assert(!after.contains(x)) by {
            if after.contains(x) {
                let j = choose|j: int| 0 <= j < after.len() && after[j] == x;
                let j0 = if j < index { j } else { j + 1 };
                assert(before[j0] == x);
                assert(j0 != index);
            }
        }
        assert forall|j: int| 0 <= j < after.len() implies 1 <= #[trigger] after[j] <= n by {
            let j0 = if j < index { j } else { j + 1 };
            assert(after[j] == before[j0]);
        }
        assert forall|a: int, b: int| 0 <= a < after.len() && 0 <= b < after.len() && a != b implies #[trigger] after[a] != #[trigger] after[b] by {
            let a0 = if a < index { a } else { a + 1 };
            let b0 = if b < index { b } else { b + 1 };
            assert(after[a] == before[a0] && after[b] == before[b0]);
        }
    }
    x
}

/// Grows a tree from the edge `node_1 <-> node_2`, joining each node of `rest` both ways to a
/// random node already in the tree.
fn grow_tree(node_1: i64, node_2: i64, rest: &Vec<i64>, Ghost(n): Ghost<i64>) -> (r: (Vec<i64>, Vec<i64>))
    requires
        1 <= node_1 <= n,
        1 <= node_2 <= n,
        forall|j: int| 0 <= j < rest@.len() ==> 1 <= #[trigger] rest@[j] <= n,
    ensures
        growing_tree(r.0@, r.1@, node_1, n),
        r.0@.len() == 2 + 2 * rest@.len(),
        r.0@.contains(node_2),
        forall|v: i64| rest@.contains(v) ==> r.0@.contains(v),
{
    let mut src_col: Vec<i64> = Vec::new();
    src_col.push(node_1);
    src_col.push(node_2);
    let mut dst_col: Vec<i64> = Vec::new();
    dst_col.push(node_2);
    dst_col.push(node_1);
    proof {
        let sc = src_col@;
        let dc = dst_col@;
        lemma_reach_start(sc, dc, node_1);
        assert(sc[0] == node_1 && dc[0] == node_2 && sc[1] == node_2 && dc[1] == node_1);
        lemma_reach_step(sc, dc, node_1, 0);
        assert forall|i: int| 0 <= i < sc.len() implies #[trigger] edge_from(sc, dc, dc[i], sc[i]) by {
            if i == 0 {
                assert(sc[1] == dc[0] && dc[1] == sc[0]);
            } else {
                assert(sc[0] == dc[1] && dc[0] == sc[1]);
            }
        }
        assert forall|i: int| 0 <= i < sc.len() implies reachable(sc, dc, node_1, #[trigger] sc[i]) by {
        }
        assert(sc.contains(node_2)) by {
            assert(sc[1] == node_2);
        }
    }
    let mut t: usize = 0;
    while t < rest.len()
        invariant
            forall|j: int| 0 <= j < rest@.len() ==> 1 <= #[trigger] rest@[j] <= n,
            t <= rest@.len(),
            growing_tree(src_col@, dst_col@, node_1, n),
            src_col@.len() == 2 + 2 * t,
            src_col@.contains(node_2),
            forall|j: int| 0 <= j < t ==> src_col@.contains(#[trigger] rest@[j]),
        decreases rest@.len() - t,
    {
        let src = rest[t];
        let mut rng = new_rng();
        let dst = match choose_from(&mut rng, &src_col) {
            Some(x) => x,
            None => {
                proof {
                    assert(src_col@[0] == node_1);
                    assert(false);
                }
                0
            },
        };
        let ghost sc0 = src_col@;
        let ghost dc0 = dst_col@;
        proof {
            lemma_grow(sc0, dc0, node_1, n, src, dst);
        }
        src_col.push(src);
        dst_col.push(dst);
        src_col.push(dst);
        dst_col.push(src);
        proof {
            let sc1 = src_col@;
            assert(sc1 == sc0.push(src).push(dst));
            assert forall|x: i64| sc0.contains(x) implies sc1.contains(x) by {
                let q = choose|q: int| 0 <= q < sc0.len() && sc0[q] == x;
                assert(sc1[q] == x);
            }
            assert(sc1[sc0.len() as int] == src);
            assert forall|j: int| 0 <= j < t + 1 implies src_col@.contains(#[trigger] rest@[j]) by {
                if j < t {
                    assert(sc0.contains(rest@[j]));
                }
            }
        }
        t += 1;
    }
    proof {
        assert forall|v: i64| rest@.contains(v) implies src_col@.contains(v) by {
            let j = choose|j: int| 0 <= j < rest@.len() && rest@[j] == v;
        }
    }
    (src_col, dst_col)
}

/// A random tree joining the nodes `1..=n` both ways along each of its `n - 1` edges, as a pair
/// of columns of edges in a random order: every node reaches every node.
pub fn randomly_connected_tree(n: i64) -> (r: (Vec<i64>, Vec<i64>))
    requires
        2 <= n <= usize::MAX,
    ensures
        r.0@.len() == 2 * (n - 1),
        r.1@.len() == 2 * (n - 1),
        forall|i: int| 0 <= i < r.0@.len() ==> 1 <= #[trigger] r.0@[i] <= n && 1 <= r.1@[i] <= n,
        symmetric(r.0@, r.1@),
        forall|u: i64, v: i64| 1 <= u <= n && 1 <= v <= n ==> #[trigger] reachable(r.0@, r.1@, u, v),
{
    let mut add_order = ids_in_random_order(n);
    let ghost full = add_order@;
    let node_1 = take_random(&mut add_order, Ghost(n));
    let ghost after_1 = add_order@;
    let node_2 = take_random(&mut add_order, Ghost(n));
    let ghost rest = add_order@;
    proof {
        assert(node_1 != node_2);
        assert(1 <= node_1 <= n) by {
            let j = choose|j: int| 0 <= j < full.len() && full[j] == node_1;
        }
        assert(1 <= node_2 <= n) by {
            let j = choose|j: int| 0 <= j < after_1.len() && after_1[j] == node_2;
        }
    }
    let (src_col, dst_col) = grow_tree(node_1, node_2, &add_order, Ghost(n));
    let ghost sc = src_col@;
    let ghost dc = dst_col@;
    proof {
        assert forall|u: i64, v: i64| 1 <= u <= n && 1 <= v <= n implies #[trigger] reachable(sc, dc, u, v) by {
            assert(sc.contains(u) || u == node_1) by {
                if u != node_1 && u != node_2 {
                    assert(after_1.contains(u));
                    assert(rest.contains(u));
                }
            }
            assert(sc.contains(v) || v == node_1) by {
                if v != node_1 && v != node_2 {
                    assert(after_1.contains(v));
                    assert(rest.contains(v));
                }
            }
            lemma_tree_reaches(sc, dc, node_1, n, u);
            lemma_tree_reaches(sc, dc, node_1, n, v);
            lemma_reach_reverse(sc, dc, node_1, u);
            lemma_reach_trans(sc, dc, u, node_1, v);
        }
    }
    let edges = src_col.len();
    assert(edges == sc.len());
    let r = pairwise_shuffle(src_col, dst_col);
    proof {
        lemma_shuffled_tree(sc, dc, r.0@, r.1@, n);
    }
    r
}

/// Shuffling the edges of a grown tree keeps its ids, its reverse edges and its reachability.
proof fn lemma_shuffled_tree(sc: Seq<i64>, dc: Seq<i64>, s2: Seq<i64>, d2: Seq<i64>, n: i64)
    requires
        sc.len() == dc.len(),
        sc.len() <= usize::MAX,
        forall|i: int| 0 <= i < sc.len() ==> 1 <= #[trigger] sc[i] <= n && 1 <= dc[i] <= n,
        symmetric(sc, dc),
        forall|u: i64, v: i64| 1 <= u <= n && 1 <= v <= n ==> #[trigger] reachable(sc, dc, u, v),
        exists|p: Seq<usize>| #[trigger] is_permutation(p, sc.len()) && s2 == gather(sc, p) && d2 == gather(dc, p),
    ensures
        s2.len() == sc.len(),
        d2.len() == sc.len(),
        forall|i: int| 0 <= i < s2.len() ==> 1 <= #[trigger] s2[i] <= n && 1 <= d2[i] <= n,
        symmetric(s2, d2),
        forall|u: i64, v: i64| 1 <= u <= n && 1 <= v <= n ==> #[trigger] reachable(s2, d2, u, v),
{
    let p = choose|p: Seq<usize>| #[trigger] is_permutation(p, sc.len()) && s2 == gather(sc, p) && d2 == gather(dc, p);
    lemma_shuffle_same_edges(sc, dc, p, s2, d2);
    assert forall|u: i64, v: i64| 1 <= u <= n && 1 <= v <= n implies #[trigger] reachable(s2, d2, u, v) by {
        assert(reachable(sc, dc, u, v));
        lemma_same_edges_reach(sc, dc, s2, d2, u, v);
    }
    assert forall|i: int| 0 <= i < s2.len() implies 1 <= #[trigger] s2[i] <= n && 1 <= d2[i] <= n by {
        let q = p[i] as int;
        assert(s2[i] == sc[q] && d2[i] == dc[q]);
    }
    assert forall|i: int| 0 <= i < s2.len() implies #[trigger] edge_from(s2, d2, d2[i], s2[i]) by {
        let q = p[i] as int;
        assert(s2[i] == sc[q] && d2[i] == dc[q]);
        assert(edge_from(sc, dc, dc[q], sc[q]));
        let e = choose|e: int| 0 <= e < sc.len() && sc[e] == dc[q] && #[trigger] dc[e] == sc[q];
        assert(edge_from(s2, d2, sc[e], dc[e]));
    }
}

/// The ids `1 + p[j]` of a permutation `p` of `0..n` are distinct.
proof fn lemma_permutation_values(p: Seq<usize>, ids: Seq<i64>, n: i64)
    requires
        is_permutation(p, n as nat),
        ids.len() == p.len(),
        forall|j: int| 0 <= j < p.len() ==> #[trigger] ids[j] == p[j] + 1,
    ensures
        forall|a: int, b: int| 0 <= a < ids.len() && 0 <= b < ids.len() && a != b ==> #[trigger] ids[a] != #[trigger] ids[b],
{
    assert forall|a: int, b: int| 0 <= a < ids.len() && 0 <= b < ids.len() && a != b implies #[trigger] ids[a] != #[trigger] ids[b] by {
        assert(p[a] != p[b]);
    }
}

/// In a grown tree, every node that is a source, or the root, is reachable from the root.
proof fn lemma_tree_reaches(sc: Seq<i64>, dc: Seq<i64>, root: i64, n: i64, v: i64)
    requires
        growing_tree(sc, dc, root, n),
        sc.contains(v) || v == root,
    ensures
        reachable(sc, dc, root, v),
{
    if sc.contains(v) {
        let i = choose|i: int| 0 <= i < sc.len() && sc[i] == v;
    } else {
        lemma_reach_start(sc, dc, root);
    }
}

} // verus!
