//! Breadth-first search over adjacency lists given as two columns of node ids, with the visited
//! nodes kept in a bit vector: node `v` (counted from 1) is visited when bit `v - 1` is set.

use vstd::prelude::*;
use bit_vec::BitVec;
use crate::crack::{copy_vec, gather, all_below, distinct};
use crate::db::{
    Table, has_name, first_named, is_selection, uniform_piece, crack_outcome, index_valid,
};
use crate::cracker_index::array_get;
use crate::graph::column::{
    IntCol, col_named, map_index_valid, lemma_col_named, lemma_first_named_unique,
    lemma_first_named_exists,
};
use crate::graph::decomposed_cracking::{self, DeCrackedTable, specific_outcome};
use crate::graph::recognitive_compression::{self, ReCoTable, range_outcome};
use crate::graph::compactive_compression::{self, CoCoTable, base_slice_selection, answers_value, answers_value_exactly};
use crate::laws::{
    all_rows, law_base_rows_are_a_permutation,
    rows_in_range, law_lookup_gives_rows_of_value, law_range_lookup_gives_rows_in_range,
};

verus! {

#[verifier::external_type_specification]
#[verifier::external_body]
#[verifier::reject_recursive_types(B)]
pub struct ExBitVec<B>(BitVec<B>);

/// The bits held by a bit vector, in order.
pub uninterp spec fn bits(b: BitVec<u32>) -> Seq<bool>;

/// `BitVec::from_elem`: a bit vector of `n` bits, each `bit`.
#[verifier::external_body]
fn bv_from_elem(n: usize, bit: bool) -> (r: BitVec<u32>)
    ensures
        bits(r) == Seq::new(n as nat, |i: int| bit),
{
    BitVec::from_elem(n, bit)
}

/// `BitVec::len`: the number of bits.
#[verifier::external_body]
fn bv_len(b: &BitVec<u32>) -> (r: usize)
    ensures
        r == bits(*b).len(),
{
    b.len()
}

/// `BitVec::get`: the bit at `i`, or `None` past the last bit.
#[verifier::external_body]
fn bv_get(b: &BitVec<u32>, i: usize) -> (r: Option<bool>)
    ensures
        r == if i < bits(*b).len() { Some(bits(*b)[i as int]) } else { None::<bool> },
{
    b.get(i)
}

/// `BitVec::set`: sets the bit at `i` to `x`; it panics past the last bit.
#[verifier::external_body]
fn bv_set(b: &mut BitVec<u32>, i: usize, x: bool)
    requires
        i < bits(*old(b)).len(),
    ensures
        bits(*final(b)) == bits(*old(b)).update(i as int, x),
{
    b.set(i, x)
}

/// `BitVec::grow`: appends `n` copies of `value`; it panics when the length would overflow.
#[verifier::external_body]
fn bv_grow(b: &mut BitVec<u32>, n: usize, value: bool)
    requires
        bits(*old(b)).len() + n <= usize::MAX,
    ensures
        bits(*final(b)) == bits(*old(b)) + Seq::new(n as nat, |i: int| value),
{
    b.grow(n, value)
}

/// Node `v`, counted from 1, is marked in the bits.
pub open spec fn marked(b: Seq<bool>, v: i64) -> bool {
    1 <= v && v - 1 < b.len() && b[v - 1]
}

/// The nodes marked in `b`, in increasing order.
pub open spec fn marked_nodes(b: Seq<bool>) -> Seq<i64>
    decreases b.len(),
{
    if b.len() == 0 {
        Seq::empty()
    } else {
        let p = marked_nodes(b.drop_last());
        if b.last() { p.push(b.len() as i64) } else { p }
    }
}

/// The marked nodes are listed in increasing order, each marked node once, and nothing else.
pub proof fn lemma_marked_nodes(b: Seq<bool>)
    requires
        b.len() < i64::MAX,
    ensures
        forall|v: i64| marked_nodes(b).contains(v) <==> marked(b, v),
        forall|i: int, j: int| 0 <= i < j < marked_nodes(b).len() ==> marked_nodes(b)[i] < marked_nodes(b)[j],
        forall|i: int| 0 <= i < marked_nodes(b).len() ==> 1 <= #[trigger] marked_nodes(b)[i] <= b.len(),
    decreases b.len(),
{
    if b.len() > 0 {
        let d = b.drop_last();
        lemma_marked_nodes(d);
        let p = marked_nodes(d);
        assert forall|v: i64| marked(d, v) ==> marked(b, v) by {
            if marked(d, v) {
                assert(b[v - 1] == d[v - 1]);
            }
        }
        assert forall|v: i64| marked(b, v) && v != b.len() ==> marked(d, v) by {
            if marked(b, v) && v != b.len() {
                assert(b[v - 1] == d[v - 1]);
            }
        }
        if b.last() {
            let q = p.push(b.len() as i64);
            assert forall|v: i64| q.contains(v) <==> marked(b, v) by {
                if q.contains(v) {
                    let k = choose|k: int| 0 <= k < q.len() && q[k] == v;
                    if k < p.len() {
                        assert(p.contains(v));
                    }
                }
                if marked(b, v) {
                    if v == b.len() {
                        assert(q[q.len() - 1] == v);
                    } else {
                        let k = choose|k: int| 0 <= k < p.len() && p[k] == v;
                        assert(q[k] == v);
                    }
                }
            }
        } else {
            assert forall|v: i64| p.contains(v) <==> marked(b, v) by {
                if marked(b, v) {
                    assert(v != b.len());
                }
            }
        }
    }
}

/// The nodes whose bits are set, counted from 1, in increasing order.
pub fn bv_where(bv: BitVec<u32>) -> (r: Vec<i64>)
    requires
        bits(bv).len() < i64::MAX,
    ensures
        r@ == marked_nodes(bits(bv)),
{
    let ghost b = bits(bv);
    let n = bv_len(&bv);
    let mut v: Vec<i64> = Vec::with_capacity(n);
    let mut i: usize = 0;
    while i < n
        invariant
            b == bits(bv),
            n == b.len(),
            n < i64::MAX,
            i <= n,
            v@ == marked_nodes(b.subrange(0, i as int)),
        decreases n - i,
    {
        let bit = match bv_get(&bv, i) {
            Some(x) => x,
            None => false,
        };
        proof {
            assert(b.subrange(0, i + 1).drop_last() =~= b.subrange(0, i as int));
        }
        if bit {
            v.push(1 + i as i64);
        }
        i += 1;
    }
    proof {
        assert(b.subrange(0, n as int) =~= b);
    }
    v
}

/// The ids one below those given: the bit positions of the nodes.
pub fn indicise(v: Vec<i64>) -> (r: Vec<i64>)
    requires
        forall|k: int| 0 <= k < v@.len() ==> #[trigger] v@[k] > i64::MIN,
    ensures
        r@.len() == v@.len(),
        forall|k: int| 0 <= k < v@.len() ==> #[trigger] r@[k] == v@[k] - 1,
{
    let mut r: Vec<i64> = Vec::with_capacity(v.len());
    let mut k: usize = 0;
    while k < v.len()
        invariant
            k <= v@.len(),
            r@.len() == k,
            forall|j: int| 0 <= j < v@.len() ==> #[trigger] v@[j] > i64::MIN,
            forall|j: int| 0 <= j < k ==> #[trigger] r@[j] == v@[j] - 1,
        decreases v@.len() - k,
    {
        r.push(v[k] - 1);
        k += 1;
    }
    r
}

/// Some entry of `idx` is `j`.
pub open spec fn holds_pos(idx: Seq<i64>, j: int) -> bool {
    exists|t: int| 0 <= t < idx.len() && idx[t] == j
}

/// How many bits `set_indices` appends for the positions `idx`, starting from a bit vector of
/// length `l`: each position at or past `l` appends the bits up to it, counted from `l`.
pub open spec fn growth(l: int, idx: Seq<i64>) -> int
    decreases idx.len(),
{
    if idx.len() == 0 {
        0
    } else {
        growth(l, idx.drop_last()) + if idx.last() >= l { 1 + idx.last() - l } else { 0 }
    }
}

/// The growth is never negative, and each position is covered by it.
proof fn lemma_growth(l: int, idx: Seq<i64>)
    requires
        l >= 0,
    ensures
        growth(l, idx) >= 0,
        forall|k: int| 0 <= k < idx.len() && idx[k] >= l ==> #[trigger] idx[k] < l + growth(l, idx),
    decreases idx.len(),
{
    if idx.len() > 0 {
        lemma_growth(l, idx.drop_last());
        assert forall|k: int| 0 <= k < idx.len() && idx[k] >= l implies #[trigger] idx[k] < l + growth(l, idx) by {
            if k < idx.len() - 1 {
                assert(idx.drop_last()[k] == idx[k]);
            }
        }
    }
}

/// Sets the bits at the given positions, growing the bit vector (with unset bits) for each
/// position past the length it had on entry.
pub fn set_indices(bv: &mut BitVec<u32>, indices: Vec<i64>)
    requires
        forall|k: int| 0 <= k < indices@.len() ==> 0 <= #[trigger] indices@[k] <= usize::MAX,
        bits(*old(bv)).len() + growth(bits(*old(bv)).len() as int, indices@) <= usize::MAX,
    ensures
        bits(*final(bv)).len() == bits(*old(bv)).len() + growth(bits(*old(bv)).len() as int, indices@),
        forall|j: int| 0 <= j < bits(*final(bv)).len() ==>
            #[trigger] bits(*final(bv))[j] == ((j < bits(*old(bv)).len() && bits(*old(bv))[j]) || holds_pos(indices@, j)),
{
    let ghost b0 = bits(*bv);
    let ghost idx = indices@;
    let l = bv_len(bv);
    proof {
        lemma_growth(l as int, idx);
    }
    let mut k: usize = 0;
    while k < indices.len()
        invariant
            idx == indices@,
            l == b0.len(),
            b0 == bits(*old(bv)),
            k <= idx.len(),
            forall|j: int| 0 <= j < idx.len() ==> 0 <= #[trigger] idx[j] <= usize::MAX,
            l + growth(l as int, idx) <= usize::MAX,
            bits(*bv).len() == l + growth(l as int, idx.subrange(0, k as int)),
            forall|j: int| 0 <= j < bits(*bv).len() ==>
                #[trigger] bits(*bv)[j] == ((j < l && b0[j]) || holds_pos(idx.subrange(0, k as int), j)),
        decreases idx.len() - k,
    {
        let ghost pre = bits(*bv);
        let ghost sub = idx.subrange(0, k as int);
        let ghost sub1 = idx.subrange(0, k + 1);
        let i = indices[k];
        let i_usize = i as usize;
        proof {
            assert(sub1.drop_last() =~= sub);
            assert(sub1.last() == i);
            lemma_growth_prefix(l as int, idx, k + 1);
            lemma_growth(l as int, sub1);
            assert(sub1[k as int] == i);
        }
        if i_usize >= l {
            bv_grow(bv, 1 + i_usize - l, false);
        }
        bv_set(bv, i_usize, true);
        proof {
            let now = bits(*bv);
            lemma_growth(l as int, sub);
            assert forall|j: int| 0 <= j < now.len() implies
                #[trigger] now[j] == ((j < l && b0[j]) || holds_pos(sub1, j)) by {
                if j != i {
                    if j < pre.len() {
                        assert(now[j] == pre[j]);
                    } else {
                        assert(now[j] == false);
                        if holds_pos(sub, j) {
                            let t = choose|t: int| 0 <= t < sub.len() && sub[t] == j;
                            assert(sub[t] < l + growth(l as int, sub));
                        }
                    }
                }
                if holds_pos(sub, j) {
                    let t = choose|t: int| 0 <= t < sub.len() && sub[t] == j;
                    assert(sub1[t] == sub[t]);
                }
                if holds_pos(sub1, j) && j != i {
                    let t = choose|t: int| 0 <= t < sub1.len() && sub1[t] == j;
                    assert(t != k);
                    assert(sub[t] == sub1[t]);
                }
                if j == i {
                    assert(sub1[k as int] == i);
                }
            }
        }
        k += 1;
    }
    proof {
        assert(idx.subrange(0, idx.len() as int) =~= idx);
    }
}

/// The growth for a prefix never exceeds the growth for the whole.
proof fn lemma_growth_prefix(l: int, idx: Seq<i64>, k: int)
    requires
        l >= 0,
        0 <= k <= idx.len(),
    ensures
        growth(l, idx.subrange(0, k)) <= growth(l, idx),
    decreases idx.len() - k,
{
    if k < idx.len() {
        lemma_growth_prefix(l, idx, k + 1);
        assert(idx.subrange(0, k + 1).drop_last() =~= idx.subrange(0, k));
    } else {
        assert(idx.subrange(0, k) =~= idx);
    }
}

/// Adds `dst` to the frontier unless it is visited already or in the frontier.
fn discover(dst: i64, visited: &BitVec<u32>, frontier: &mut Vec<i64>)
    requires
        1 <= dst <= usize::MAX,
    ensures
        final(frontier)@ == if !marked(bits(*visited), dst) && !old(frontier)@.contains(dst) {
            old(frontier)@.push(dst)
        } else {
            old(frontier)@
        },
{
    let seen = match bv_get(visited, (dst as usize) - 1) {
        Some(x) => x,
        None => false,
    };
    if !seen && !contains_i64(frontier, dst) {
        frontier.push(dst);
    }
}

/// Whether `v` holds `x`.
fn contains_i64(v: &Vec<i64>, x: i64) -> (r: bool)
    ensures
        r == v@.contains(x),
{
    let mut k: usize = 0;
    while k < v.len()
        invariant
            k <= v@.len(),
            forall|j: int| 0 <= j < k ==> v@[j] != x,
        decreases v@.len() - k,
    {
        if v[k] == x {
            return true;
        }
        k += 1;
    }
    false
}

/// `p` lists the rows of a path of edges `src[i] -> dst[i]` from `s` to `v`: each edge starts
/// where the one before it ends; the empty path goes from `s` to `s`.
pub open spec fn is_path(src: Seq<i64>, dst: Seq<i64>, s: i64, p: Seq<int>, v: i64) -> bool {
    &&& forall|j: int| 0 <= j < p.len() ==> 0 <= #[trigger] p[j] < src.len() && p[j] < dst.len()
    &&& forall|j: int| 0 < j < p.len() ==> #[trigger] src[p[j]] == dst[p[j - 1]]
    &&& p.len() == 0 ==> v == s
    &&& p.len() > 0 ==> src[p[0]] == s && dst[p[p.len() - 1]] == v
}

/// Node `v` is reachable from `s` along the edges `src[i] -> dst[i]`, for the rows `i` of `src`.
pub open spec fn reachable(src: Seq<i64>, dst: Seq<i64>, s: i64, v: i64) -> bool {
    exists|p: Seq<int>| #[trigger] is_path(src, dst, s, p, v)
}

/// The nodes a search from `s` can meet: `s` and the targets of the edges.
pub open spec fn nodes(src: Seq<i64>, dst: Seq<i64>, s: i64) -> Set<i64> {
    dst.subrange(0, src.len() as int).push(s).to_set()
}

/// The nodes of `nodes(..)` marked in `b`.
pub open spec fn marks(src: Seq<i64>, dst: Seq<i64>, s: i64, b: Seq<bool>) -> Set<i64> {
    nodes(src, dst, s).filter(|v: i64| marked(b, v))
}

/// The node ids are at least 1, and `k` times the number of rows plus two bounds the bits the
/// search needs for every id `k`: the bit vector of visited nodes stays addressable.
pub open spec fn ids_fit(src: Seq<i64>, dst: Seq<i64>, s: i64) -> bool {
    let n = src.len() as int;
    &&& src.len() <= dst.len()
    &&& 1 <= s && s * (n + 2) < i64::MAX && s * (n + 2) <= usize::MAX
    &&& forall|i: int| 0 <= i < n ==> 1 <= #[trigger] dst[i] && dst[i] * (n + 2) < i64::MAX && dst[i] * (n + 2) <= usize::MAX
}

/// The state of the search at the top of a round, with `top` the largest node id: every marked
/// node and every frontier node is reachable, the frontier holds unmarked nodes once each, `s`
/// is marked or in the frontier, every edge out of a marked node ends at a marked node or in the
/// frontier, and the bits stay within `top` bits per marked node, plus `top`.
pub open spec fn search_state(src: Seq<i64>, dst: Seq<i64>, s: i64, top: int, b: Seq<bool>, f: Seq<i64>) -> bool {
    &&& forall|v: i64| marked(b, v) ==> reachable(src, dst, s, v)
    &&& forall|k: int| 0 <= k < f.len() ==> reachable(src, dst, s, #[trigger] f[k]) && !marked(b, f[k])
    &&& f.no_duplicates()
    &&& marked(b, s) || f.contains(s)
    &&& forall|i: int| 0 <= i < src.len() && marked(b, #[trigger] src[i]) ==> marked(b, dst[i]) || f.contains(dst[i])
    &&& b.len() <= top * (marks(src, dst, s, b).len() + 1)
}

/// The frontier `f1` found from the nodes of `prev`, with the bits `b1`: each node once, none
/// marked, each at the end of an edge out of `prev`, and every edge out of `prev` ends at a
/// marked node or in `f1`.
pub open spec fn next_frontier(src: Seq<i64>, dst: Seq<i64>, b1: Seq<bool>, prev: Seq<i64>, f1: Seq<i64>) -> bool {
    &&& f1.no_duplicates()
    &&& forall|x: i64| f1.contains(x) ==> !marked(b1, x)
    &&& forall|x: i64| f1.contains(x) ==> exists|i: int| 0 <= i < src.len() && prev.contains(#[trigger] src[i]) && dst[i] == x
    &&& forall|i: int| 0 <= i < src.len() && prev.contains(#[trigger] src[i]) ==> marked(b1, dst[i]) || f1.contains(dst[i])
}

/// Every reachable node is one of `nodes(..)`, lies between 1 and `top`, and `top` times the
/// number of rows plus two fits the bounds of `ids_fit`.
proof fn lemma_reachable_node(src: Seq<i64>, dst: Seq<i64>, s: i64, top: i64, v: i64)
    requires
        ids_fit(src, dst, s),
        is_top(src, dst, s, top),
        reachable(src, dst, s, v),
    ensures
        nodes(src, dst, s).contains(v),
        1 <= v <= top,
{
    let p = choose|p: Seq<int>| #[trigger] is_path(src, dst, s, p, v);
    let d = dst.subrange(0, src.len() as int).push(s);
    if p.len() == 0 {
        assert(d[d.len() - 1] == s);
    } else {
        let i = p[p.len() - 1];
        assert(d[i] == dst[i]);
    }
}

/// `top` is the largest of `s` and the edge targets.
pub open spec fn is_top(src: Seq<i64>, dst: Seq<i64>, s: i64, top: i64) -> bool {
    &&& s <= top
    &&& forall|i: int| 0 <= i < src.len() ==> #[trigger] dst[i] <= top
    &&& (top == s || exists|i: int| 0 <= i < src.len() && #[trigger] dst[i] == top)
}

/// The largest of `s` and the targets of the first `n` edges.
proof fn lemma_top_exists(src: Seq<i64>, dst: Seq<i64>, s: i64, n: int) -> (top: i64)
    requires
        0 <= n <= src.len() <= dst.len(),
    ensures
        s <= top,
        forall|i: int| 0 <= i < n ==> #[trigger] dst[i] <= top,
        top == s || exists|i: int| 0 <= i < n && #[trigger] dst[i] == top,
    decreases n,
{
    if n == 0 {
        s
    } else {
        let t = lemma_top_exists(src, dst, s, n - 1);
        if dst[n - 1] > t {
            dst[n - 1]
        } else {
            t
        }
    }
}

/// A reachable node with an edge out of it to `w` makes `w` reachable.
pub proof fn lemma_reach_step(src: Seq<i64>, dst: Seq<i64>, s: i64, i: int)
    requires
        0 <= i < src.len(),
        i < dst.len(),
        reachable(src, dst, s, src[i]),
    ensures
        reachable(src, dst, s, dst[i]),
{
    let p = choose|p: Seq<int>| #[trigger] is_path(src, dst, s, p, src[i]);
    let q = p.push(i);
    assert forall|j: int| 0 < j < q.len() implies #[trigger] src[q[j]] == dst[q[j - 1]] by {
        if j < p.len() {
            assert(q[j] == p[j] && q[j - 1] == p[j - 1]);
        }
    }
    assert(is_path(src, dst, s, q, dst[i]));
}

/// `s` is reachable from itself.
pub proof fn lemma_reach_start(src: Seq<i64>, dst: Seq<i64>, s: i64)
    ensures
        reachable(src, dst, s, s),
{
    assert(is_path(src, dst, s, Seq::<int>::empty(), s));
}

/// When the marked nodes include `s` and every edge out of a marked node ends at a marked node,
/// the end of every path is marked.
proof fn lemma_closed_marks_path(src: Seq<i64>, dst: Seq<i64>, s: i64, b: Seq<bool>, p: Seq<int>, v: i64)
    requires
        marked(b, s),
        forall|i: int| 0 <= i < src.len() && marked(b, #[trigger] src[i]) ==> marked(b, dst[i]),
        is_path(src, dst, s, p, v),
    ensures
        marked(b, v),
    decreases p.len(),
{
    if p.len() > 0 {
        let q = p.drop_last();
        let u = if q.len() == 0 { s } else { dst[q[q.len() - 1]] };
        assert forall|j: int| 0 < j < q.len() implies #[trigger] src[q[j]] == dst[q[j - 1]] by {
            assert(q[j] == p[j] && q[j - 1] == p[j - 1]);
        }
        assert(is_path(src, dst, s, q, u));
        lemma_closed_marks_path(src, dst, s, b, q, u);
        let i = p[p.len() - 1];
        if q.len() > 0 {
            assert(src[p[p.len() - 1]] == dst[p[p.len() - 2]]);
        }
        assert(src[i] == u);
    }
}

/// Each position of `idx` adds at most `top` bits when it is below `top`.
proof fn lemma_growth_bound(l: int, idx: Seq<i64>, top: int)
    requires
        l >= 0,
        top >= 0,
        forall|k: int| 0 <= k < idx.len() ==> #[trigger] idx[k] < top,
    ensures
        growth(l, idx) <= idx.len() * top,
    decreases idx.len(),
{
    if idx.len() > 0 {
        let d = idx.drop_last();
        assert forall|k: int| 0 <= k < d.len() implies #[trigger] d[k] < top by {
            assert(d[k] == idx[k]);
        }
        lemma_growth_bound(l, d, top);
        assert(idx.last() == idx[idx.len() - 1]);
        let t = if idx.last() >= l { 1 + idx.last() - l } else { 0 };
        assert(t <= top);
        assert(growth(l, idx) == growth(l, d) + t);
        let n = idx.len() as int;
        assert((n - 1) * top + top == n * top) by (nonlinear_arith);
    }
}

/// The nodes of a search are finitely many, at most one per row plus `s`, and so are the marked
/// ones among them.
proof fn lemma_nodes_finite(src: Seq<i64>, dst: Seq<i64>, s: i64, b: Seq<bool>)
    requires
        src.len() <= dst.len(),
    ensures
        nodes(src, dst, s).finite(),
        nodes(src, dst, s).len() <= src.len() + 1,
        marks(src, dst, s, b).finite(),
        marks(src, dst, s, b).len() <= nodes(src, dst, s).len(),
{
    let d = dst.subrange(0, src.len() as int).push(s);
    vstd::seq_lib::seq_to_set_is_finite(d);
    d.lemma_cardinality_of_set();
    nodes(src, dst, s).lemma_len_filter(|v: i64| marked(b, v));
}

/// One round of the search: marking the frontier `f0` into `b1` and finding the next frontier
/// `f1` from it keeps the state of the search, with the frontier's nodes added to the marked ones.
proof fn lemma_round(
    src: Seq<i64>,
    dst: Seq<i64>,
    s: i64,
    top: i64,
    b0: Seq<bool>,
    f0: Seq<i64>,
    b1: Seq<bool>,
    f1: Seq<i64>,
)
    requires
        ids_fit(src, dst, s),
        is_top(src, dst, s, top),
        search_state(src, dst, s, top as int, b0, f0),
        forall|v: i64| marked(b1, v) <==> (marked(b0, v) || f0.contains(v)),
        b1.len() <= b0.len() + f0.len() * top,
        next_frontier(src, dst, b1, f0, f1),
    ensures
        search_state(src, dst, s, top as int, b1, f1),
        marks(src, dst, s, b1).len() == marks(src, dst, s, b0).len() + f0.len(),
{
    let m0 = marks(src, dst, s, b0);
    let m1 = marks(src, dst, s, b1);
    let fs = f0.to_set();
    lemma_nodes_finite(src, dst, s, b0);
    lemma_nodes_finite(src, dst, s, b1);
    assert forall|v: i64| marked(b1, v) implies reachable(src, dst, s, v) by {
        if f0.contains(v) {
            let k = choose|k: int| 0 <= k < f0.len() && f0[k] == v;
        }
    }
    assert forall|k: int| 0 <= k < f1.len() implies reachable(src, dst, s, #[trigger] f1[k]) && !marked(b1, f1[k]) by {
        let x = f1[k];
        assert(f1.contains(x));
        let i = choose|i: int| 0 <= i < src.len() && f0.contains(#[trigger] src[i]) && dst[i] == x;
        let j = choose|j: int| 0 <= j < f0.len() && f0[j] == src[i];
        lemma_reach_step(src, dst, s, i);
    }
    assert forall|i: int| 0 <= i < src.len() && marked(b1, #[trigger] src[i]) implies marked(b1, dst[i]) || f1.contains(dst[i]) by {
        if marked(b0, src[i]) {
            if f0.contains(dst[i]) {
            }
        }
    }
    assert(fs.finite()) by {
        vstd::seq_lib::seq_to_set_is_finite(f0);
    }
    f0.unique_seq_to_set();
    assert forall|v: i64| fs.contains(v) implies nodes(src, dst, s).contains(v) by {
        let k = choose|k: int| 0 <= k < f0.len() && f0[k] == v;
        lemma_reachable_node(src, dst, s, top, v);
    }
    assert(m1 =~= m0 + fs) by {
        assert forall|v: i64| m1.contains(v) <==> (m0 + fs).contains(v) by {
            if fs.contains(v) {
                assert(nodes(src, dst, s).contains(v));
            }
        }
    }
    assert(m0.disjoint(fs)) by {
        assert forall|v: i64| !(m0.contains(v) && fs.contains(v)) by {
            if fs.contains(v) {
                let k = choose|k: int| 0 <= k < f0.len() && f0[k] == v;
            }
        }
    }
    vstd::set_lib::lemma_set_disjoint_lens(m0, fs);
    let a = m0.len() as int;
    let c = f0.len() as int;
    let t = top as int;
    assert(t * (a + 1) + c * t == t * (a + c + 1)) by (nonlinear_arith);
}

/// After `set_indices` with the positions one below the frontier's nodes, the marked nodes are
/// the old ones and the frontier's, and the bits grew by at most `top` per frontier node.
proof fn lemma_marks_after(b0: Seq<bool>, b1: Seq<bool>, f0: Seq<i64>, idx: Seq<i64>, top: i64)
    requires
        top >= 1,
        idx.len() == f0.len(),
        forall|k: int| 0 <= k < f0.len() ==> 1 <= #[trigger] f0[k] <= top,
        forall|k: int| 0 <= k < f0.len() ==> #[trigger] idx[k] == f0[k] - 1,
        b1.len() == b0.len() + growth(b0.len() as int, idx),
        forall|j: int| 0 <= j < b1.len() ==> #[trigger] b1[j] == ((j < b0.len() && b0[j]) || holds_pos(idx, j)),
    ensures
        forall|v: i64| marked(b1, v) <==> (marked(b0, v) || f0.contains(v)),
        b1.len() <= b0.len() + f0.len() * top,
{
    let l = b0.len() as int;
    lemma_growth(l, idx);
    assert forall|k: int| 0 <= k < idx.len() implies #[trigger] idx[k] < top by {
        assert(idx[k] == f0[k] - 1);
    }
    lemma_growth_bound(l, idx, top as int);
    assert forall|v: i64| marked(b1, v) <==> (marked(b0, v) || f0.contains(v)) by {
        if f0.contains(v) {
            let k = choose|k: int| 0 <= k < f0.len() && f0[k] == v;
            assert(idx[k] == v - 1);
            assert(holds_pos(idx, v - 1));
            assert(v - 1 < b1.len());
        }
        if marked(b0, v) {
            assert(b1[v - 1] == ((v - 1 < b0.len() && b0[v - 1]) || holds_pos(idx, v - 1)));
        }
        if marked(b1, v) && !marked(b0, v) {
            assert(holds_pos(idx, v - 1));
            let k = choose|k: int| 0 <= k < idx.len() && idx[k] == v - 1;
            assert(f0[k] == v);
        }
    }
}

/// The search part-way through a round: the frontier `f` found so far has each node once, none
/// marked in `b1`, each at the end of an edge out of `prev`; the edges out of the first `k` nodes
/// of `prev` end at marked nodes or in `f`.
pub open spec fn expanding(src: Seq<i64>, dst: Seq<i64>, b1: Seq<bool>, prev: Seq<i64>, k: int, f: Seq<i64>) -> bool {
    &&& f.no_duplicates()
    &&& forall|x: i64| f.contains(x) ==> !marked(b1, x)
    &&& forall|x: i64| f.contains(x) ==> exists|e: int| 0 <= e < src.len() && prev.contains(#[trigger] src[e]) && dst[e] == x
    &&& forall|e: int| 0 <= e < src.len() && prev.subrange(0, k).contains(#[trigger] src[e]) ==> marked(b1, dst[e]) || f.contains(dst[e])
}

/// Discovering `w`, the end of the edge `e` out of the node `prev[k]`, keeps the search
/// part-way through its round.
proof fn lemma_discover_step(
    src: Seq<i64>,
    dst: Seq<i64>,
    b1: Seq<bool>,
    prev: Seq<i64>,
    k: int,
    f: Seq<i64>,
    f2: Seq<i64>,
    e: int,
)
    requires
        expanding(src, dst, b1, prev, k, f),
        0 <= k < prev.len(),
        0 <= e < src.len(),
        src[e] == prev[k],
        f2 == if !marked(b1, dst[e]) && !f.contains(dst[e]) { f.push(dst[e]) } else { f },
    ensures
        expanding(src, dst, b1, prev, k, f2),
        forall|x: i64| f.contains(x) ==> f2.contains(x),
        marked(b1, dst[e]) || f2.contains(dst[e]),
{
    assert(prev.contains(src[e]));
    let w = dst[e];
    if !marked(b1, w) && !f.contains(w) {
        assert(f2 == f.push(w));
        assert(f2[f2.len() - 1] == w);
        assert(f2.contains(w));
        assert forall|x: i64| f.contains(x) implies f2.contains(x) by {
            let t = choose|t: int| 0 <= t < f.len() && f[t] == x;
            assert(f2[t] == x);
        }
        assert forall|x: i64| f2.contains(x) implies f.contains(x) || x == w by {
            let t = choose|t: int| 0 <= t < f2.len() && f2[t] == x;
            if t < f.len() {
                assert(f[t] == x);
            }
        }
        assert forall|a: int, c: int| 0 <= a < f2.len() && 0 <= c < f2.len() && a != c implies f2[a] != f2[c] by {
            if a < f.len() && c < f.len() {
            } else if a < f.len() {
                assert(f.contains(f2[a]));
            } else {
                assert(f.contains(f2[c]));
            }
        }
    } else {
        assert(f2 == f);
    }
}

/// When the edges out of `prev[k]` all end at marked nodes or in `f`, the search has handled the
/// first `k + 1` nodes of `prev`.
proof fn lemma_node_done(src: Seq<i64>, dst: Seq<i64>, b1: Seq<bool>, prev: Seq<i64>, k: int, f: Seq<i64>)
    requires
        expanding(src, dst, b1, prev, k, f),
        0 <= k < prev.len(),
        forall|e: int| 0 <= e < src.len() && #[trigger] src[e] == prev[k] ==> marked(b1, dst[e]) || f.contains(dst[e]),
    ensures
        expanding(src, dst, b1, prev, k + 1, f),
{
    assert forall|e: int| 0 <= e < src.len() && prev.subrange(0, k + 1).contains(#[trigger] src[e])
        implies marked(b1, dst[e]) || f.contains(dst[e]) by {
        let sub = prev.subrange(0, k + 1);
        let t = choose|t: int| 0 <= t < sub.len() && #[trigger] sub[t] == src[e];
        if t < k {
            assert(prev.subrange(0, k)[t] == src[e]);
        }
    }
}

/// Breadth-first search from `start_node` over the edges `src_node[i] -> dst_node[i]`, finding
/// each node's neighbours by a scan of all edges. Answers with the reachable nodes, in increasing
/// order.
pub fn unoptimised_bfs(src_node: Vec<i64>, dst_node: Vec<i64>, start_node: i64) -> (r: Vec<i64>)
    requires
        ids_fit(src_node@, dst_node@, start_node),
    ensures
        forall|v: i64| r@.contains(v) <==> reachable(src_node@, dst_node@, start_node, v),
        forall|i: int, j: int| 0 <= i < j < r@.len() ==> r@[i] < r@[j],
{
    let ghost src = src_node@;
    let ghost dst = dst_node@;
    let ghost s = start_node;
    let ghost top = lemma_top_exists(src, dst, s, src.len() as int);
    proof {
        lemma_top_fits(src, dst, s, top);
        lemma_reach_start(src, dst, s);
    }
    let mut frontier: Vec<i64> = Vec::new();
    frontier.push(start_node);
    let mut visited = bv_from_elem(start_node as usize, false);
    proof {
        lemma_initial_state(src, dst, s, top, bits(visited), frontier@);
    }
    loop
        invariant
            src == src_node@,
            dst == dst_node@,
            ids_fit(src, dst, s),
            is_top(src, dst, s, top),
            1 <= top,
            top * (src.len() + 2) < i64::MAX,
            top * (src.len() + 2) <= usize::MAX,
            top <= usize::MAX,
            search_state(src, dst, s, top as int, bits(visited), frontier@),
        ensures
            frontier@.len() == 0,
        decreases nodes(src, dst, s).len() - marks(src, dst, s, bits(visited)).len(),
    {
        let ghost b0 = bits(visited);
        let ghost f0 = frontier@;
        proof {
            lemma_nodes_finite(src, dst, s, b0);
        }
        if frontier.len() == 0 {
            break;
        }
        proof {
            lemma_search_room(src, dst, s, top, b0, f0);
        }
        mark_frontier(&mut visited, &frontier, Ghost(src), Ghost(dst), Ghost(s), Ghost(top));
        let ghost b1 = bits(visited);
        let prev = frontier;
        frontier = Vec::new();
        let mut k: usize = 0;
        proof {
            assert(prev@.subrange(0, 0) =~= Seq::<i64>::empty());
        }
        while k < prev.len()
            invariant
                src == src_node@,
                dst == dst_node@,
                ids_fit(src, dst, s),
                is_top(src, dst, s, top),
                top <= usize::MAX,
                b1 == bits(visited),
                prev@ == f0,
                forall|v: i64| marked(b1, v) <==> (marked(b0, v) || f0.contains(v)),
                b1.len() <= b0.len() + f0.len() * top,
                k <= prev@.len(),
                expanding(src, dst, b1, prev@, k as int, frontier@),
            decreases prev@.len() - k,
        {
            let u = prev[k];
            let mut i: usize = 0;
            let ghost fk = frontier@;
            while i < src_node.len()
                invariant
                    src == src_node@,
                    dst == dst_node@,
                    ids_fit(src, dst, s),
                    is_top(src, dst, s, top),
                    top <= usize::MAX,
                    b1 == bits(visited),
                    prev@ == f0,
                    k < prev@.len(),
                    u == prev@[k as int],
                    i <= src.len(),
                    expanding(src, dst, b1, prev@, k as int, frontier@),
                    forall|e: int| 0 <= e < i && #[trigger] src[e] == u ==> marked(b1, dst[e]) || frontier@.contains(dst[e]),
                decreases src.len() - i,
            {
                if src_node[i] == u {
                    let ghost f = frontier@;
                    discover(dst_node[i], &visited, &mut frontier);
                    proof {
                        lemma_discover_step(src, dst, b1, prev@, k as int, f, frontier@, i as int);
                    }
                }
                i += 1;
            }
            proof {
                lemma_node_done(src, dst, b1, prev@, k as int, frontier@);
            }
            k += 1;
        }
        proof {
            assert(prev@.subrange(0, prev@.len() as int) =~= prev@);
            lemma_round(src, dst, s, top, b0, f0, b1, frontier@);
            lemma_nodes_finite(src, dst, s, b1);
        }
    }
    proof {
        let b = bits(visited);
        assert(frontier@ =~= Seq::<i64>::empty());
        lemma_nodes_finite(src, dst, s, b);
        lemma_search_done(src, dst, s, top, b);
    }
    let r = bv_where(visited);
    r
}

/// The search starts with no node marked, `top` bits at most, and `s` alone in the frontier.
proof fn lemma_initial_state(src: Seq<i64>, dst: Seq<i64>, s: i64, top: i64, b: Seq<bool>, f: Seq<i64>)
    requires
        src.len() <= dst.len(),
        1 <= s <= top,
        b == Seq::new(s as nat, |i: int| false),
        f == seq![s],
    ensures
        search_state(src, dst, s, top as int, b, f),
{
    lemma_nodes_finite(src, dst, s, b);
    lemma_reach_start(src, dst, s);
    assert(marks(src, dst, s, b) =~= Set::<i64>::empty());
    assert(f[0] == s);
    assert(f.contains(s));
    assert forall|v: i64| marked(b, v) implies reachable(src, dst, s, v) by {
        assert(!b[v - 1]);
    }
    assert(!marked(b, s));
    assert forall|k: int| 0 <= k < f.len() implies reachable(src, dst, s, #[trigger] f[k]) && !marked(b, f[k]) by {
        assert(f[k] == s);
    }
    assert(f.no_duplicates());
    assert forall|i: int| 0 <= i < src.len() && marked(b, #[trigger] src[i]) implies marked(b, dst[i]) || f.contains(dst[i]) by {
        assert(!b[src[i] - 1]);
    }
    assert(marks(src, dst, s, b).len() == 0);
    assert(top * (0 + 1) == top);
}

/// The largest id times the number of rows plus two fits the bounds of `ids_fit`.
proof fn lemma_top_fits(src: Seq<i64>, dst: Seq<i64>, s: i64, top: i64)
    requires
        ids_fit(src, dst, s),
        s <= top,
        forall|i: int| 0 <= i < src.len() ==> #[trigger] dst[i] <= top,
        top == s || exists|i: int| 0 <= i < src.len() && #[trigger] dst[i] == top,
    ensures
        is_top(src, dst, s, top),
        1 <= top,
        top * (src.len() + 2) < i64::MAX,
        top * (src.len() + 2) <= usize::MAX,
        top <= usize::MAX,
{
    if top != s {
        let i = choose|i: int| 0 <= i < src.len() && #[trigger] dst[i] == top;
    }
    let n = src.len() as int;
    let t = top as int;
    assert(t <= t * (n + 2)) by (nonlinear_arith)
        requires
            t >= 1,
            n >= 0;
    if top != s {
        let i = choose|i: int| 0 <= i < src.len() && #[trigger] dst[i] == top;
    }
}

/// What marking a frontier needs of the state: the frontier holds nodes of the search, unmarked,
/// each once, and the bits stay within `top` bits per marked node, plus `top`.
pub open spec fn room_state(src: Seq<i64>, dst: Seq<i64>, s: i64, top: int, b: Seq<bool>, f: Seq<i64>) -> bool {
    &&& forall|k: int| 0 <= k < f.len() ==> nodes(src, dst, s).contains(#[trigger] f[k]) && !marked(b, f[k])
    &&& f.no_duplicates()
    &&& b.len() <= top * (marks(src, dst, s, b).len() + 1)
}

/// The state of a full search leaves room for its frontier.
proof fn lemma_search_room(src: Seq<i64>, dst: Seq<i64>, s: i64, top: i64, b: Seq<bool>, f: Seq<i64>)
    requires
        ids_fit(src, dst, s),
        is_top(src, dst, s, top),
        search_state(src, dst, s, top as int, b, f),
    ensures
        room_state(src, dst, s, top as int, b, f),
{
    assert forall|k: int| 0 <= k < f.len() implies nodes(src, dst, s).contains(#[trigger] f[k]) && !marked(b, f[k]) by {
        lemma_reachable_node(src, dst, s, top, f[k]);
    }
}

/// The nodes of a search lie between 1 and `top`.
proof fn lemma_node_bounds(src: Seq<i64>, dst: Seq<i64>, s: i64, top: i64, v: i64)
    requires
        ids_fit(src, dst, s),
        is_top(src, dst, s, top),
        nodes(src, dst, s).contains(v),
    ensures
        1 <= v <= top,
{
    let d = dst.subrange(0, src.len() as int).push(s);
    let t = choose|t: int| 0 <= t < d.len() && d[t] == v;
    if t < src.len() {
        assert(d[t] == dst[t]);
    }
}

/// The frontier's nodes lie between 1 and `top`.
proof fn lemma_frontier_bounds(src: Seq<i64>, dst: Seq<i64>, s: i64, top: i64, b: Seq<bool>, f: Seq<i64>)
    requires
        ids_fit(src, dst, s),
        is_top(src, dst, s, top),
        room_state(src, dst, s, top as int, b, f),
    ensures
        forall|k: int| 0 <= k < f.len() ==> 1 <= #[trigger] f[k] <= top,
{
    assert forall|k: int| 0 <= k < f.len() implies 1 <= #[trigger] f[k] <= top by {
        lemma_node_bounds(src, dst, s, top, f[k]);
    }
}

/// With the frontier empty, the marked nodes are exactly the reachable ones, and the bits are
/// few enough to list.
proof fn lemma_search_done(src: Seq<i64>, dst: Seq<i64>, s: i64, top: i64, b: Seq<bool>)
    requires
        ids_fit(src, dst, s),
        is_top(src, dst, s, top),
        1 <= top,
        top * (src.len() + 2) < i64::MAX,
        search_state(src, dst, s, top as int, b, Seq::<i64>::empty()),
    ensures
        forall|v: i64| marked(b, v) <==> reachable(src, dst, s, v),
        b.len() < i64::MAX,
        forall|v: i64| marked_nodes(b).contains(v) <==> reachable(src, dst, s, v),
        forall|i: int, j: int| 0 <= i < j < marked_nodes(b).len() ==> marked_nodes(b)[i] < marked_nodes(b)[j],
{
    assert forall|v: i64| #[trigger] reachable(src, dst, s, v) implies marked(b, v) by {
        let p = choose|p: Seq<int>| #[trigger] is_path(src, dst, s, p, v);
        lemma_closed_marks_path(src, dst, s, b, p, v);
    }
    lemma_nodes_finite(src, dst, s, b);
    let m = marks(src, dst, s, b).len() as int;
    let n = src.len() as int;
    let t = top as int;
    assert(t * (m + 1) <= t * (n + 2)) by (nonlinear_arith)
        requires
            t >= 1,
            m + 1 <= n + 2;
    lemma_marked_nodes(b);
    assert forall|v: i64| marked_nodes(b).contains(v) <==> reachable(src, dst, s, v) by {
        assert(marked_nodes(b).contains(v) == marked(b, v));
        if reachable(src, dst, s, v) {
            assert(marked(b, v));
        }
        if marked(b, v) {
            assert(reachable(src, dst, s, v));
        }
    }
}

/// Before a round, the bits and the room the frontier's marks take stay within `top` times the
/// number of rows plus two.
proof fn lemma_room(src: Seq<i64>, dst: Seq<i64>, s: i64, top: i64, b: Seq<bool>, f: Seq<i64>)
    requires
        ids_fit(src, dst, s),
        is_top(src, dst, s, top),
        1 <= top,
        room_state(src, dst, s, top as int, b, f),
    ensures
        b.len() + f.len() * top <= top * (src.len() + 2),
{
    let m = marks(src, dst, s, b);
    let fs = f.to_set();
    lemma_nodes_finite(src, dst, s, b);
    vstd::seq_lib::seq_to_set_is_finite(f);
    f.unique_seq_to_set();
    assert forall|v: i64| fs.contains(v) implies nodes(src, dst, s).contains(v) by {
        let k = choose|k: int| 0 <= k < f.len() && f[k] == v;
    }
    assert(m.disjoint(fs)) by {
        assert forall|v: i64| !(m.contains(v) && fs.contains(v)) by {
            if fs.contains(v) {
                let k = choose|k: int| 0 <= k < f.len() && f[k] == v;
            }
        }
    }
    vstd::set_lib::lemma_set_disjoint_lens(m, fs);
    assert((m + fs).subset_of(nodes(src, dst, s)));
    vstd::set_lib::lemma_len_subset(m + fs, nodes(src, dst, s));
    let a = m.len() as int;
    let c = f.len() as int;
    let n = src.len() as int;
    let t = top as int;
    assert(t * (a + 1) + c * t <= t * (n + 2)) by (nonlinear_arith)
        requires
            t >= 1,
            a + c <= n + 1;
}

/// Some edge goes from `u` to `w`.
pub open spec fn edge_from(src: Seq<i64>, dst: Seq<i64>, u: i64, w: i64) -> bool {
    exists|e: int| 0 <= e < src.len() && src[e] == u && #[trigger] dst[e] == w
}

/// Marks the frontier's nodes as visited, at the start of a round.
fn mark_frontier(
    visited: &mut BitVec<u32>,
    frontier: &Vec<i64>,
    Ghost(src): Ghost<Seq<i64>>,
    Ghost(dst): Ghost<Seq<i64>>,
    Ghost(s): Ghost<i64>,
    Ghost(top): Ghost<i64>,
)
    requires
        ids_fit(src, dst, s),
        is_top(src, dst, s, top),
        1 <= top,
        top <= usize::MAX,
        top * (src.len() + 2) <= usize::MAX,
        room_state(src, dst, s, top as int, bits(*old(visited)), frontier@),
    ensures
        forall|v: i64| #[trigger] marked(bits(*final(visited)), v) <==> (marked(bits(*old(visited)), v) || frontier@.contains(v)),
        bits(*final(visited)).len() <= bits(*old(visited)).len() + frontier@.len() * top,
{
    let ghost b0 = bits(*visited);
    let ghost f0 = frontier@;
    proof {
        lemma_frontier_bounds(src, dst, s, top, b0, f0);
    }
    let idx = indicise(copy_vec(frontier));
    proof {
        lemma_room(src, dst, s, top, b0, f0);
        assert forall|k: int| 0 <= k < idx@.len() implies #[trigger] idx@[k] < top by {
            assert(idx@[k] == f0[k] - 1);
        }
        lemma_growth_bound(b0.len() as int, idx@, top as int);
        let c = f0.len() as int;
        let t = top as int;
        assert(c * t == idx@.len() * t);
    }
    set_indices(visited, idx);
    proof {
        lemma_marks_after(b0, bits(*visited), f0, idx@, top);
    }
}

/// Discovers each of the neighbours `nb` of the node `prev[k]`.
fn expand_neighbours(
    nb: &Vec<i64>,
    visited: &BitVec<u32>,
    frontier: &mut Vec<i64>,
    Ghost(src): Ghost<Seq<i64>>,
    Ghost(dst): Ghost<Seq<i64>>,
    Ghost(prev): Ghost<Seq<i64>>,
    Ghost(k): Ghost<int>,
)
    requires
        expanding(src, dst, bits(*visited), prev, k, old(frontier)@),
        0 <= k < prev.len(),
        forall|j: int| 0 <= j < nb@.len() ==> edge_from(src, dst, prev[k], #[trigger] nb@[j]),
        forall|j: int| 0 <= j < nb@.len() ==> 1 <= #[trigger] nb@[j] <= usize::MAX,
    ensures
        expanding(src, dst, bits(*visited), prev, k, final(frontier)@),
        forall|j: int| 0 <= j < nb@.len() ==> marked(bits(*visited), #[trigger] nb@[j]) || final(frontier)@.contains(nb@[j]),
{
    let ghost b1 = bits(*visited);
    let mut j: usize = 0;
    while j < nb.len()
        invariant
            b1 == bits(*visited),
            0 <= k < prev.len(),
            j <= nb@.len(),
            forall|t: int| 0 <= t < nb@.len() ==> edge_from(src, dst, prev[k], #[trigger] nb@[t]),
            forall|t: int| 0 <= t < nb@.len() ==> 1 <= #[trigger] nb@[t] <= usize::MAX,
            expanding(src, dst, b1, prev, k, frontier@),
            forall|t: int| 0 <= t < j ==> marked(b1, #[trigger] nb@[t]) || frontier@.contains(nb@[t]),
        decreases nb@.len() - j,
    {
        let w = nb[j];
        let ghost f = frontier@;
        proof {
            assert(edge_from(src, dst, prev[k], nb@[j as int]));
        }
        let ghost e = choose|e: int| 0 <= e < src.len() && src[e] == prev[k] && #[trigger] dst[e] == w;
        discover(w, visited, frontier);
        proof {
            lemma_discover_step(src, dst, b1, prev, k, f, frontier@, e);
        }
        j += 1;
    }
}

/// A lookup of `u` on a decomposed adjacency list over `src` and `dst` with a valid index
/// answers with the targets of exactly the edges out of `u`.
proof fn lemma_decracked_neighbours(
    pre: DeCrackedTable,
    post: DeCrackedTable,
    nb: Seq<i64>,
    u: i64,
    a: int,
    b: int,
    src: Seq<i64>,
    dst: Seq<i64>,
)
    requires
        post.select_ready(),
        specific_outcome(pre, post, nb, u, "dst"@, a, b),
        map_index_valid(pre.crk_col.crk_idx@, pre.crk_col.crk@),
        post.crk_col.v@ == src,
        col_named(post.columns@, "dst"@).v@ == dst,
        src.len() == dst.len(),
    ensures
        forall|j: int| 0 <= j < nb.len() ==> edge_from(src, dst, u, #[trigger] nb[j]),
        forall|e: int| 0 <= e < src.len() && #[trigger] src[e] == u ==> nb.contains(dst[e]),
{
    law_lookup_gives_rows_of_value(pre, post, nb, u, "dst"@, a, b);
    let sel = post.crk_col.base_idx@.subrange(a, b);
    lemma_selected_rows(sel, nb, src, dst, u);
}

/// A lookup of `u` on an adjacency list with recognitive compression over `src` and `dst`, with
/// a valid index, answers with the targets of exactly the edges out of `u`.
proof fn lemma_reco_neighbours(
    pre: ReCoTable,
    post: ReCoTable,
    nb: Seq<i64>,
    u: i64,
    a: int,
    b: int,
    src: Seq<i64>,
    dst: Seq<i64>,
)
    requires
        post.select_ready(),
        range_outcome(pre, post, nb, u as int, u as int, "dst"@, a, b),
        map_index_valid(pre.crk_col.crk_idx@, pre.crk_col.crk@),
        post.crk_col.v@ == src,
        col_named(post.int_columns@, "dst"@).v@ == dst,
        src.len() == dst.len(),
    ensures
        forall|j: int| 0 <= j < nb.len() ==> edge_from(src, dst, u, #[trigger] nb[j]),
        forall|e: int| 0 <= e < src.len() && #[trigger] src[e] == u ==> nb.contains(dst[e]),
{
    law_range_lookup_gives_rows_in_range(pre, post, nb, u as int, u as int, "dst"@, a, b);
    let sel = post.crk_col.base_idx@.subrange(a, b);
    lemma_selected_rows(sel, nb, src, dst, u);
}

/// The values of `dst` at the rows `sel`, which are exactly the rows where `src` holds `u`, are
/// the targets of exactly the edges out of `u`.
proof fn lemma_selected_rows(sel: Seq<usize>, nb: Seq<i64>, src: Seq<i64>, dst: Seq<i64>, u: i64)
    requires
        sel.to_set() == rows_in_range(src, u as int, u as int),
        nb == gather(dst, sel),
        src.len() == dst.len(),
        src.len() <= usize::MAX,
    ensures
        forall|j: int| 0 <= j < nb.len() ==> edge_from(src, dst, u, #[trigger] nb[j]),
        forall|e: int| 0 <= e < src.len() && #[trigger] src[e] == u ==> nb.contains(dst[e]),
{
    assert forall|j: int| 0 <= j < nb.len() implies edge_from(src, dst, u, #[trigger] nb[j]) by {
        let r = sel[j];
        assert(sel.to_set().contains(r));
        assert(rows_in_range(src, u as int, u as int).contains(r));
        assert(nb[j] == dst[r as int]);
    }
    assert forall|e: int| 0 <= e < src.len() && #[trigger] src[e] == u implies nb.contains(dst[e]) by {
        let r = e as usize;
        assert(r as int == e);
        assert(rows_in_range(src, u as int, u as int).contains(r));
        assert(sel.to_set().contains(r));
        let t = choose|t: int| 0 <= t < sel.len() && sel[t] == r;
        assert(nb[t] == dst[e]);
    }
}

/// The facts a round of a search keeps about `u`, the node a lookup was made for, once all its
/// neighbours are discovered.
proof fn lemma_neighbours_done(
    src: Seq<i64>,
    dst: Seq<i64>,
    b1: Seq<bool>,
    prev: Seq<i64>,
    k: int,
    f: Seq<i64>,
    nb: Seq<i64>,
)
    requires
        expanding(src, dst, b1, prev, k, f),
        0 <= k < prev.len(),
        forall|e: int| 0 <= e < src.len() && #[trigger] src[e] == prev[k] ==> nb.contains(dst[e]),
        forall|j: int| 0 <= j < nb.len() ==> marked(b1, #[trigger] nb[j]) || f.contains(nb[j]),
    ensures
        expanding(src, dst, b1, prev, k + 1, f),
{
    assert forall|e: int| 0 <= e < src.len() && #[trigger] src[e] == prev[k] implies marked(b1, dst[e]) || f.contains(dst[e]) by {
        assert(nb.contains(dst[e]));
        let j = choose|j: int| 0 <= j < nb.len() && nb[j] == dst[e];
        assert(marked(b1, nb[j]) || f.contains(nb[j]));
    }
    lemma_node_done(src, dst, b1, prev, k, f);
}

/// Breadth-first search from `start_node` over the edges `src_node[i] -> dst_node[i]`, finding
/// each node's neighbours by a lookup on an adjacency list with decomposed cracking. Answers with
/// the reachable nodes, in increasing order.
pub fn decracked_bfs(src_node: Vec<i64>, dst_node: Vec<i64>, start_node: i64) -> (r: Vec<i64>)
    requires
        src_node@.len() == dst_node@.len(),
        ids_fit(src_node@, dst_node@, start_node),
    ensures
        forall|v: i64| r@.contains(v) <==> reachable(src_node@, dst_node@, start_node, v),
        forall|i: int, j: int| 0 <= i < j < r@.len() ==> r@[i] < r@[j],
{
    let ghost src = src_node@;
    let ghost dst = dst_node@;
    let ghost s = start_node;
    let ghost top = lemma_top_exists(src, dst, s, src.len() as int);
    proof {
        lemma_top_fits(src, dst, s, top);
        lemma_reach_start(src, dst, s);
    }
    let mut adjacency_list = decomposed_cracking::from_adjacency_vectors(src_node, dst_node, "src");
    let ghost cols = adjacency_list.columns;
    proof {
        let t = adjacency_list;
        assert(t.crk_col.crk_idx@ =~= Map::<i64, usize>::empty());
        assert(t.crk_col.v@ =~= src) by {
            assert forall|i: int| 0 <= i < src.len() implies t.crk_col.v@[i] == src[i] by {
                assert(t.crk_col.base_idx@[i] == i);
            }
        }
    }
    let mut frontier: Vec<i64> = Vec::new();
    frontier.push(start_node);
    let mut visited = bv_from_elem(start_node as usize, false);
    proof {
        lemma_initial_state(src, dst, s, top, bits(visited), frontier@);
    }
    loop
        invariant
            ids_fit(src, dst, s),
            src.len() == dst.len(),
            is_top(src, dst, s, top),
            1 <= top,
            top * (src.len() + 2) < i64::MAX,
            top * (src.len() + 2) <= usize::MAX,
            top <= usize::MAX,
            search_state(src, dst, s, top as int, bits(visited), frontier@),
            adjacency_list.select_ready(),
            map_index_valid(adjacency_list.crk_col.crk_idx@, adjacency_list.crk_col.crk@),
            adjacency_list.crk_col.v@ == src,
            adjacency_list.columns == cols,
            has_name(cols@, "dst"@),
            col_named(cols@, "dst"@).v@ == dst,
        ensures
            frontier@.len() == 0,
        decreases nodes(src, dst, s).len() - marks(src, dst, s, bits(visited)).len(),
    {
        let ghost b0 = bits(visited);
        let ghost f0 = frontier@;
        proof {
            lemma_nodes_finite(src, dst, s, b0);
        }
        if frontier.len() == 0 {
            break;
        }
        proof {
            lemma_search_room(src, dst, s, top, b0, f0);
        }
        mark_frontier(&mut visited, &frontier, Ghost(src), Ghost(dst), Ghost(s), Ghost(top));
        let ghost b1 = bits(visited);
        let prev = frontier;
        frontier = Vec::new();
        let mut k: usize = 0;
        proof {
            assert(prev@.subrange(0, 0) =~= Seq::<i64>::empty());
            lemma_frontier_bounds(src, dst, s, top, b0, f0);
        }
        while k < prev.len()
            invariant
                ids_fit(src, dst, s),
                src.len() == dst.len(),
                is_top(src, dst, s, top),
                top * (src.len() + 2) < i64::MAX,
                top <= usize::MAX,
                b1 == bits(visited),
                prev@ == f0,
                forall|t: int| 0 <= t < f0.len() ==> 1 <= #[trigger] f0[t] <= top,
                forall|v: i64| #[trigger] marked(b1, v) <==> (marked(b0, v) || f0.contains(v)),
                b1.len() <= b0.len() + f0.len() * top,
                k <= prev@.len(),
                expanding(src, dst, b1, prev@, k as int, frontier@),
                adjacency_list.select_ready(),
                map_index_valid(adjacency_list.crk_col.crk_idx@, adjacency_list.crk_col.crk@),
                adjacency_list.crk_col.v@ == src,
                adjacency_list.columns == cols,
                has_name(cols@, "dst"@),
                col_named(cols@, "dst"@).v@ == dst,
            decreases prev@.len() - k,
        {
            let u = prev[k];
            let ghost pre = adjacency_list;
            proof {
                assert(1 <= f0[k as int] <= top);
                lemma_top_below_max(src, top);
            }
            let nb = adjacency_list.cracker_select_specific(u, "dst");
            proof {
                let (a, b) = choose|a: int, b: int| specific_outcome(pre, adjacency_list, nb@, u, "dst"@, a, b);
                lemma_decracked_neighbours(pre, adjacency_list, nb@, u, a, b, src, dst);
                lemma_neighbour_bounds(src, dst, s, top, u, nb@);
            }
            let ghost f = frontier@;
            expand_neighbours(&nb, &visited, &mut frontier, Ghost(src), Ghost(dst), Ghost(prev@), Ghost(k as int));
            proof {
                lemma_neighbours_done(src, dst, b1, prev@, k as int, frontier@, nb@);
            }
            k += 1;
        }
        proof {
            assert(prev@.subrange(0, prev@.len() as int) =~= prev@);
            lemma_round(src, dst, s, top, b0, f0, b1, frontier@);
            lemma_nodes_finite(src, dst, s, b1);
        }
    }
    proof {
        let b = bits(visited);
        assert(frontier@ =~= Seq::<i64>::empty());
        lemma_nodes_finite(src, dst, s, b);
        lemma_search_done(src, dst, s, top, b);
    }
    bv_where(visited)
}

/// Breadth-first search from `start_node` over the edges `src_node[i] -> dst_node[i]`, finding
/// each node's neighbours by a lookup on an adjacency list with recognitive compression. Answers
/// with the reachable nodes, in increasing order; there must be an edge to look up in.
pub fn reco_bfs(src_node: Vec<i64>, dst_node: Vec<i64>, start_node: i64) -> (r: Vec<i64>)
    requires
        src_node@.len() == dst_node@.len(),
        src_node@.len() > 0,
        ids_fit(src_node@, dst_node@, start_node),
    ensures
        forall|v: i64| r@.contains(v) <==> reachable(src_node@, dst_node@, start_node, v),
        forall|i: int, j: int| 0 <= i < j < r@.len() ==> r@[i] < r@[j],
{
    let ghost src = src_node@;
    let ghost dst = dst_node@;
    let ghost s = start_node;
    let ghost top = lemma_top_exists(src, dst, s, src.len() as int);
    proof {
        lemma_top_fits(src, dst, s, top);
        lemma_reach_start(src, dst, s);
    }
    let mut adjacency_list = recognitive_compression::from_adjacency_vectors(src_node, dst_node, "src");
    let ghost cols = adjacency_list.int_columns;
    proof {
        let t = adjacency_list;
        reveal_strlit("src");
        reveal_strlit("dst");
        assert("src"@ != "dst"@) by {
            assert("src"@[0] != "dst"@[0]);
        }
        assert(first_named(cols@, "src"@, 0));
        assert(first_named(cols@, "dst"@, 1));
        lemma_col_named(cols@, "src"@, 0);
        lemma_col_named(cols@, "dst"@, 1);
        assert(has_name(cols@, "dst"@)) by {
            assert(cols@[1].0@ == "dst"@);
        }
        assert(t.crk_col.crk_idx@ =~= Map::<i64, usize>::empty());
        assert(t.crk_col.v@ =~= src) by {
            assert forall|i: int| 0 <= i < src.len() implies t.crk_col.v@[i] == src[i] by {
                assert(t.crk_col.base_idx@[i] == i);
            }
        }
    }
    let mut frontier: Vec<i64> = Vec::new();
    frontier.push(start_node);
    let mut visited = bv_from_elem(start_node as usize, false);
    proof {
        lemma_initial_state(src, dst, s, top, bits(visited), frontier@);
    }
    loop
        invariant
            ids_fit(src, dst, s),
            src.len() == dst.len(),
            is_top(src, dst, s, top),
            1 <= top,
            top * (src.len() + 2) < i64::MAX,
            top * (src.len() + 2) <= usize::MAX,
            top <= usize::MAX,
            search_state(src, dst, s, top as int, bits(visited), frontier@),
            adjacency_list.select_ready(),
            map_index_valid(adjacency_list.crk_col.crk_idx@, adjacency_list.crk_col.crk@),
            adjacency_list.crk_col.v@ == src,
            adjacency_list.int_columns == cols,
            has_name(cols@, "dst"@),
            col_named(cols@, "dst"@).v@ == dst,
        ensures
            frontier@.len() == 0,
        decreases nodes(src, dst, s).len() - marks(src, dst, s, bits(visited)).len(),
    {
        let ghost b0 = bits(visited);
        let ghost f0 = frontier@;
        proof {
            lemma_nodes_finite(src, dst, s, b0);
        }
        if frontier.len() == 0 {
            break;
        }
        proof {
            lemma_search_room(src, dst, s, top, b0, f0);
        }
        mark_frontier(&mut visited, &frontier, Ghost(src), Ghost(dst), Ghost(s), Ghost(top));
        let ghost b1 = bits(visited);
        let prev = frontier;
        frontier = Vec::new();
        let mut k: usize = 0;
        proof {
            assert(prev@.subrange(0, 0) =~= Seq::<i64>::empty());
            lemma_frontier_bounds(src, dst, s, top, b0, f0);
        }
        while k < prev.len()
            invariant
                ids_fit(src, dst, s),
                src.len() == dst.len(),
                is_top(src, dst, s, top),
                top * (src.len() + 2) < i64::MAX,
                top <= usize::MAX,
                b1 == bits(visited),
                prev@ == f0,
                forall|t: int| 0 <= t < f0.len() ==> 1 <= #[trigger] f0[t] <= top,
                forall|v: i64| #[trigger] marked(b1, v) <==> (marked(b0, v) || f0.contains(v)),
                b1.len() <= b0.len() + f0.len() * top,
                k <= prev@.len(),
                expanding(src, dst, b1, prev@, k as int, frontier@),
                adjacency_list.select_ready(),
                map_index_valid(adjacency_list.crk_col.crk_idx@, adjacency_list.crk_col.crk@),
                adjacency_list.crk_col.v@ == src,
                adjacency_list.int_columns == cols,
                has_name(cols@, "dst"@),
                col_named(cols@, "dst"@).v@ == dst,
            decreases prev@.len() - k,
        {
            let u = prev[k];
            let ghost pre = adjacency_list;
            proof {
                assert(1 <= f0[k as int] <= top);
                lemma_top_below_max(src, top);
            }
            let nb = adjacency_list.cracker_select_specific(u, "dst");
            proof {
                let (a, b) = choose|a: int, b: int| range_outcome(pre, adjacency_list, nb@, u as int, u as int, "dst"@, a, b);
                lemma_reco_neighbours(pre, adjacency_list, nb@, u, a, b, src, dst);
                lemma_neighbour_bounds(src, dst, s, top, u, nb@);
            }
            let ghost f = frontier@;
            expand_neighbours(&nb, &visited, &mut frontier, Ghost(src), Ghost(dst), Ghost(prev@), Ghost(k as int));
            proof {
                lemma_neighbours_done(src, dst, b1, prev@, k as int, frontier@, nb@);
            }
            k += 1;
        }
        proof {
            assert(prev@.subrange(0, prev@.len() as int) =~= prev@);
            lemma_round(src, dst, s, top, b0, f0, b1, frontier@);
            lemma_nodes_finite(src, dst, s, b1);
        }
    }
    proof {
        let b = bits(visited);
        assert(frontier@ =~= Seq::<i64>::empty());
        lemma_nodes_finite(src, dst, s, b);
        lemma_search_done(src, dst, s, top, b);
    }
    bv_where(visited)
}

/// `top`, bounded by `ids_fit`, is below the largest `i64`.
proof fn lemma_top_below_max(src: Seq<i64>, top: i64)
    requires
        1 <= top,
        top * (src.len() + 2) < i64::MAX,
    ensures
        top < i64::MAX,
{
    let n = src.len() as int;
    let t = top as int;
    assert(t <= t * (n + 2)) by (nonlinear_arith)
        requires
            t >= 1,
            n >= 0;
}

/// The targets of edges lie between 1 and `top`.
proof fn lemma_neighbour_bounds(src: Seq<i64>, dst: Seq<i64>, s: i64, top: i64, u: i64, nb: Seq<i64>)
    requires
        ids_fit(src, dst, s),
        is_top(src, dst, s, top),
        top <= usize::MAX,
        forall|j: int| 0 <= j < nb.len() ==> edge_from(src, dst, u, #[trigger] nb[j]),
    ensures
        forall|j: int| 0 <= j < nb.len() ==> 1 <= #[trigger] nb[j] <= usize::MAX,
{
    assert forall|j: int| 0 <= j < nb.len() implies 1 <= #[trigger] nb[j] <= usize::MAX by {
        assert(edge_from(src, dst, u, nb[j]));
        let e = choose|e: int| 0 <= e < src.len() && src[e] == u && #[trigger] dst[e] == nb[j];
    }
}

/// The entries of `s` do not decrease.
pub open spec fn sorted_ids(s: Seq<i64>) -> bool {
    forall|i: int, j: int| 0 <= i <= j < s.len() ==> #[trigger] s[i] <= #[trigger] s[j]
}

/// The rows of `s` whose first component is `k`, in their order.
pub open spec fn rows_with_src(s: Seq<(i64, i64)>, k: i64) -> Seq<(i64, i64)> {
    s.filter(|e: (i64, i64)| e.0 == k)
}

/// `slice::sort_by_key` on the first component: the rows, reordered so that their first
/// components do not decrease; the sort is stable, so rows with equal first components keep
/// their order.
#[verifier::external_body]
fn sort_rows_by_src(rows: &mut Vec<(i64, i64)>)
    ensures
        final(rows)@.len() == old(rows)@.len(),
        final(rows)@.to_multiset() == old(rows)@.to_multiset(),
        forall|i: int, j: int| 0 <= i <= j < final(rows)@.len() ==> #[trigger] final(rows)@[i].0 <= #[trigger] final(rows)@[j].0,
        forall|k: i64| #[trigger] rows_with_src(final(rows)@, k) == rows_with_src(old(rows)@, k),
{
    rows.sort_by_key(|k| k.0)
}

/// `slice::binary_search` on a sorted column: the position of an entry equal to `x`, if there
/// is one.
#[verifier::external_body]
fn find_sorted(s: &Vec<i64>, x: i64) -> (r: Option<usize>)
    requires
        sorted_ids(s@),
    ensures
        match r {
            Some(i) => i < s@.len() && s@[i as int] == x,
            None => !s@.contains(x),
        },
{
    match s.binary_search(&x) {
        Ok(i) => Some(i),
        Err(_) => None,
    }
}

/// The same edges, as pairs of source and target, occur in both pairs of columns.
pub open spec fn same_edges(src1: Seq<i64>, dst1: Seq<i64>, src2: Seq<i64>, dst2: Seq<i64>) -> bool {
    &&& forall|i: int| 0 <= i < src1.len() ==> #[trigger] edge_from(src2, dst2, src1[i], dst1[i])
    &&& forall|j: int| 0 <= j < src2.len() ==> #[trigger] edge_from(src1, dst1, src2[j], dst2[j])
}

/// Columns with the same edges reach the same nodes.
pub proof fn lemma_same_edges_reach(src1: Seq<i64>, dst1: Seq<i64>, src2: Seq<i64>, dst2: Seq<i64>, s: i64, v: i64)
    requires
        same_edges(src1, dst1, src2, dst2),
        src1.len() <= dst1.len(),
        src2.len() <= dst2.len(),
        reachable(src1, dst1, s, v),
    ensures
        reachable(src2, dst2, s, v),
{
    let p = choose|p: Seq<int>| #[trigger] is_path(src1, dst1, s, p, v);
    let q = Seq::new(p.len(), |j: int| choose|e: int| 0 <= e < src2.len() && src2[e] == src1[p[j]] && #[trigger] dst2[e] == dst1[p[j]]);
    assert forall|j: int| 0 <= j < p.len() implies 0 <= #[trigger] q[j] < src2.len() && src2[q[j]] == src1[p[j]] && dst2[q[j]] == dst1[p[j]] by {
        assert(0 <= p[j] < src1.len());
        assert(edge_from(src2, dst2, src1[p[j]], dst1[p[j]]));
    }
    assert forall|j: int| 0 < j < q.len() implies #[trigger] src2[q[j]] == dst2[q[j - 1]] by {
        assert(src2[q[j]] == src1[p[j]]);
        assert(dst2[q[j - 1]] == dst1[p[j - 1]]);
        assert(src1[p[j]] == dst1[p[j - 1]]);
    }
    if q.len() > 0 {
        assert(src2[q[0]] == src1[p[0]]);
        assert(dst2[q[q.len() - 1]] == dst1[p[p.len() - 1]]);
    }
    assert(is_path(src2, dst2, s, q, v));
}

/// Sequences with the same multiset of entries contain the same entries.
proof fn lemma_same_contents<A>(a: Seq<A>, b: Seq<A>)
    requires
        a.to_multiset() == b.to_multiset(),
    ensures
        forall|x: A| a.contains(x) <==> b.contains(x),
{
    assert forall|x: A| a.contains(x) <==> b.contains(x) by {
        vstd::seq_lib::to_multiset_contains(a, x);
        vstd::seq_lib::to_multiset_contains(b, x);
    }
}

/// Rows reordered as a whole, then split into columns, carry the same edges, and the sources
/// of rows sorted on them do not decrease.
proof fn lemma_cluster_edges(
    src: Seq<i64>,
    dst: Seq<i64>,
    before: Seq<(i64, i64)>,
    after: Seq<(i64, i64)>,
    sc: Seq<i64>,
    dc: Seq<i64>,
)
    requires
        before.len() == src.len(),
        src.len() <= dst.len(),
        forall|t: int| 0 <= t < before.len() ==> #[trigger] before[t] == (src[t], dst[t]),
        after.to_multiset() == before.to_multiset(),
        forall|i: int, j: int| 0 <= i <= j < after.len() ==> #[trigger] after[i].0 <= #[trigger] after[j].0,
        sc.len() == after.len(),
        dc.len() == after.len(),
        forall|t: int| 0 <= t < after.len() ==> #[trigger] sc[t] == after[t].0 && dc[t] == after[t].1,
    ensures
        same_edges(src, dst, sc, dc),
        sorted_ids(sc),
{
    lemma_same_contents(before, after);
    assert forall|i: int| 0 <= i < src.len() implies #[trigger] edge_from(sc, dc, src[i], dst[i]) by {
        assert(before[i] == (src[i], dst[i]));
        assert(before.contains(before[i]));
        let u = choose|u: int| 0 <= u < after.len() && after[u] == before[i];
        assert(sc[u] == after[u].0 && dc[u] == after[u].1);
    }
    assert forall|j: int| 0 <= j < sc.len() implies #[trigger] edge_from(src, dst, sc[j], dc[j]) by {
        assert(after.contains(after[j]));
        let t = choose|t: int| 0 <= t < before.len() && before[t] == after[j];
        assert(before[t] == (src[t], dst[t]));
        assert(sc[j] == after[j].0 && dc[j] == after[j].1);
    }
    assert forall|a: int, b: int| 0 <= a <= b < sc.len() implies #[trigger] sc[a] <= #[trigger] sc[b] by {
        assert(after[a].0 <= after[b].0);
    }
    assert(same_edges(src, dst, sc, dc));
}

/// The edges `src[i] -> dst[i]`, reordered so that the sources do not decrease.
pub fn cluster(src: &Vec<i64>, dst: &Vec<i64>) -> (r: (Vec<i64>, Vec<i64>))
    requires
        src@.len() <= dst@.len(),
    ensures
        r.0@.len() == src@.len(),
        r.1@.len() == src@.len(),
        sorted_ids(r.0@),
        same_edges(src@, dst@, r.0@, r.1@),
{
    let e = src.len();
    let mut row_store: Vec<(i64, i64)> = Vec::with_capacity(e);
    let mut i: usize = 0;
    while i < e
        invariant
            e == src@.len(),
            e <= dst@.len(),
            i <= e,
            row_store@.len() == i,
            forall|t: int| 0 <= t < i ==> #[trigger] row_store@[t] == (src@[t], dst@[t]),
        decreases e - i,
    {
        row_store.push((src[i], dst[i]));
        i += 1;
    }
    let ghost before = row_store@;
    sort_rows_by_src(&mut row_store);
    let ghost after = row_store@;
    let mut src_col: Vec<i64> = Vec::with_capacity(e);
    let mut dst_col: Vec<i64> = Vec::with_capacity(e);
    let mut j: usize = 0;
    while j < e
        invariant
            after == row_store@,
            after.len() == e,
            j <= e,
            src_col@.len() == j,
            dst_col@.len() == j,
            forall|t: int| 0 <= t < j ==> #[trigger] src_col@[t] == after[t].0 && dst_col@[t] == after[t].1,
        decreases e - j,
    {
        let (a, b) = row_store[j];
        src_col.push(a);
        dst_col.push(b);
        j += 1;
    }
    proof {
        lemma_cluster_edges(src@, dst@, before, after, src_col@, dst_col@);
    }
    (src_col, dst_col)
}

/// The edge `e` is handled in a round: it ends at a marked node or in the frontier.
pub open spec fn handled(dst: Seq<i64>, b: Seq<bool>, f: Seq<i64>, e: int) -> bool {
    marked(b, dst[e]) || f.contains(dst[e])
}

/// Discovers the targets of the edges out of `u = prev[k]` in columns clustered by source: a
/// binary search finds one of them, and the scans up and down from it find the rest.
fn expand_sorted(
    u: i64,
    src_col: &Vec<i64>,
    dst_col: &Vec<i64>,
    visited: &BitVec<u32>,
    frontier: &mut Vec<i64>,
    Ghost(prev): Ghost<Seq<i64>>,
    Ghost(k): Ghost<int>,
)
    requires
        sorted_ids(src_col@),
        src_col@.len() == dst_col@.len(),
        forall|e: int| 0 <= e < dst_col@.len() ==> 1 <= #[trigger] dst_col@[e] <= usize::MAX,
        0 <= k < prev.len(),
        prev[k] == u,
        expanding(src_col@, dst_col@, bits(*visited), prev, k, old(frontier)@),
    ensures
        expanding(src_col@, dst_col@, bits(*visited), prev, k + 1, final(frontier)@),
{
    let ghost sc = src_col@;
    let ghost dc = dst_col@;
    let ghost b1 = bits(*visited);
    let n = src_col.len();
    match find_sorted(src_col, u) {
        None => {
            proof {
                assert forall|e: int| 0 <= e < sc.len() && #[trigger] sc[e] == prev[k] implies handled(dc, b1, frontier@, e) by {
                    assert(sc.contains(sc[e]));
                }
                lemma_node_done(sc, dc, b1, prev, k, frontier@);
            }
        },
        Some(i) => {
            let mut inc = i;
            loop
                invariant_except_break
                    inc < n,
                    sc[inc as int] == u,
                invariant
                    sc == src_col@,
                    dc == dst_col@,
                    b1 == bits(*visited),
                    n == sc.len(),
                    sc.len() == dc.len(),
                    forall|e: int| 0 <= e < dc.len() ==> 1 <= #[trigger] dc[e] <= usize::MAX,
                    0 <= k < prev.len(),
                    prev[k] == u,
                    i <= inc <= n,
                    sc[i as int] == u,
                    expanding(sc, dc, b1, prev, k, frontier@),
                    forall|e: int| i <= e < inc ==> #[trigger] handled(dc, b1, frontier@, e),
                ensures
                    i < inc <= n,
                    inc == n || sc[inc as int] != u,
                    expanding(sc, dc, b1, prev, k, frontier@),
                    forall|e: int| i <= e < inc ==> #[trigger] handled(dc, b1, frontier@, e),
                decreases n - inc,
            {
                let ghost f = frontier@;
                discover(dst_col[inc], visited, frontier);
                proof {
                    lemma_discover_step(sc, dc, b1, prev, k, f, frontier@, inc as int);
                    assert forall|e: int| i <= e < inc + 1 implies #[trigger] handled(dc, b1, frontier@, e) by {
                        if e < inc {
                            assert(handled(dc, b1, f, e));
                        }
                    }
                }
                inc += 1;
                if inc >= n {
                    break;
                } else if src_col[inc] != u {
                    break;
                }
            }
            let mut dec = i;
            let ghost mut bottom = false;
            loop
                invariant_except_break
                    !bottom,
                invariant
                    sc == src_col@,
                    dc == dst_col@,
                    b1 == bits(*visited),
                    n == sc.len(),
                    sc.len() == dc.len(),
                    forall|e: int| 0 <= e < dc.len() ==> 1 <= #[trigger] dc[e] <= usize::MAX,
                    0 <= k < prev.len(),
                    prev[k] == u,
                    dec <= i < inc <= n,
                    expanding(sc, dc, b1, prev, k, frontier@),
                    forall|e: int| dec < e < inc ==> #[trigger] handled(dc, b1, frontier@, e),
                ensures
                    dec <= i < inc <= n,
                    expanding(sc, dc, b1, prev, k, frontier@),
                    bottom ==> forall|e: int| 0 <= e < inc ==> #[trigger] handled(dc, b1, frontier@, e),
                    !bottom ==> sc[dec as int] != u && forall|e: int| dec < e < inc ==> #[trigger] handled(dc, b1, frontier@, e),
                decreases dec,
            {
                if src_col[dec] != u {
                    break;
                }
                let ghost f = frontier@;
                discover(dst_col[dec], visited, frontier);
                proof {
                    lemma_discover_step(sc, dc, b1, prev, k, f, frontier@, dec as int);
                    assert forall|e: int| dec <= e < inc implies #[trigger] handled(dc, b1, frontier@, e) by {
                        if e > dec {
                            assert(handled(dc, b1, f, e));
                        }
                    }
                }
                if dec == 0 {
                    proof {
                        bottom = true;
                    }
                    break;
                }
                dec -= 1;
            }
            proof {
                assert forall|e: int| 0 <= e < sc.len() && #[trigger] sc[e] == prev[k] implies handled(dc, b1, frontier@, e) by {
                    if e >= inc {
                        assert(sc[i as int] <= sc[inc as int]);
                        assert(sc[inc as int] <= sc[e]);
                    }
                    if !bottom && e <= dec {
                        assert(sc[dec as int] <= sc[i as int]);
                        assert(sc[e] <= sc[dec as int]);
                    }
                }
                lemma_node_done(sc, dc, b1, prev, k, frontier@);
            }
        },
    }
}

/// Columns with the same edges as columns whose ids fit keep the bounds of `ids_fit`.
proof fn lemma_same_edges_fit(src: Seq<i64>, dst: Seq<i64>, sc: Seq<i64>, dc: Seq<i64>, s: i64)
    requires
        ids_fit(src, dst, s),
        same_edges(src, dst, sc, dc),
        sc.len() == src.len(),
        dc.len() == sc.len(),
    ensures
        ids_fit(sc, dc, s),
{
    assert forall|j: int| 0 <= j < sc.len() implies 1 <= #[trigger] dc[j] && dc[j] * (sc.len() + 2) < i64::MAX && dc[j] * (sc.len() + 2) <= usize::MAX by {
        assert(edge_from(src, dst, sc[j], dc[j]));
        let e = choose|e: int| 0 <= e < src.len() && src[e] == sc[j] && #[trigger] dst[e] == dc[j];
    }
}

/// Breadth-first search from `start_node` over the edges `src_node[i] -> dst_node[i]`, with the
/// edges first clustered by source, so that each node's neighbours are found by a binary search
/// and a scan. Answers with the reachable nodes, in increasing order.
pub fn preclustered_bfs(src_node: Vec<i64>, dst_node: Vec<i64>, start_node: i64) -> (r: Vec<i64>)
    requires
        ids_fit(src_node@, dst_node@, start_node),
    ensures
        forall|v: i64| r@.contains(v) <==> reachable(src_node@, dst_node@, start_node, v),
        forall|i: int, j: int| 0 <= i < j < r@.len() ==> r@[i] < r@[j],
{
    let ghost s = start_node;
    let (src_col, dst_col) = cluster(&src_node, &dst_node);
    let ghost src = src_col@;
    let ghost dst = dst_col@;
    proof {
        lemma_same_edges_fit(src_node@, dst_node@, src, dst, s);
    }
    let ghost top = lemma_top_exists(src, dst, s, src.len() as int);
    proof {
        lemma_top_fits(src, dst, s, top);
        lemma_reach_start(src, dst, s);
    }
    let mut frontier: Vec<i64> = Vec::new();
    frontier.push(start_node);
    let mut visited = bv_from_elem(start_node as usize, false);
    proof {
        lemma_initial_state(src, dst, s, top, bits(visited), frontier@);
    }
    loop
        invariant
            src == src_col@,
            dst == dst_col@,
            sorted_ids(src),
            src.len() == dst.len(),
            ids_fit(src, dst, s),
            is_top(src, dst, s, top),
            1 <= top,
            top * (src.len() + 2) < i64::MAX,
            top * (src.len() + 2) <= usize::MAX,
            top <= usize::MAX,
            search_state(src, dst, s, top as int, bits(visited), frontier@),
        ensures
            frontier@.len() == 0,
        decreases nodes(src, dst, s).len() - marks(src, dst, s, bits(visited)).len(),
    {
        let ghost b0 = bits(visited);
        let ghost f0 = frontier@;
        proof {
            lemma_nodes_finite(src, dst, s, b0);
        }
        if frontier.len() == 0 {
            break;
        }
        proof {
            lemma_search_room(src, dst, s, top, b0, f0);
        }
        mark_frontier(&mut visited, &frontier, Ghost(src), Ghost(dst), Ghost(s), Ghost(top));
        let ghost b1 = bits(visited);
        let prev = frontier;
        frontier = Vec::new();
        let mut k: usize = 0;
        proof {
            assert(prev@.subrange(0, 0) =~= Seq::<i64>::empty());
            assert forall|e: int| 0 <= e < dst.len() implies 1 <= #[trigger] dst[e] <= usize::MAX by {
                assert(dst[e] <= top);
            }
        }
        while k < prev.len()
            invariant
                src == src_col@,
                dst == dst_col@,
                sorted_ids(src),
                src.len() == dst.len(),
                forall|e: int| 0 <= e < dst.len() ==> 1 <= #[trigger] dst[e] <= usize::MAX,
                b1 == bits(visited),
                prev@ == f0,
                forall|v: i64| #[trigger] marked(b1, v) <==> (marked(b0, v) || f0.contains(v)),
                b1.len() <= b0.len() + f0.len() * top,
                k <= prev@.len(),
                expanding(src, dst, b1, prev@, k as int, frontier@),
            decreases prev@.len() - k,
        {
            let u = prev[k];
            expand_sorted(u, &src_col, &dst_col, &visited, &mut frontier, Ghost(prev@), Ghost(k as int));
            k += 1;
        }
        proof {
            assert(prev@.subrange(0, prev@.len() as int) =~= prev@);
            lemma_round(src, dst, s, top, b0, f0, b1, frontier@);
            lemma_nodes_finite(src, dst, s, b1);
        }
    }
    proof {
        let b = bits(visited);
        assert(frontier@ =~= Seq::<i64>::empty());
        lemma_nodes_finite(src, dst, s, b);
        lemma_search_done(src, dst, s, top, b);
        assert forall|v: i64| reachable(src, dst, s, v) <==> reachable(src_node@, dst_node@, s, v) by {
            if reachable(src, dst, s, v) {
                lemma_same_edges_reach(src, dst, src_node@, dst_node@, s, v);
            }
            if reachable(src_node@, dst_node@, s, v) {
                lemma_same_edges_reach(src_node@, dst_node@, src, dst, s, v);
            }
        }
    }
    bv_where(visited)
}

/// Entry `u` of `enc` lists the targets of the edges out of `u` among the first `i` rows, in
/// order, and every source among them has an entry.
pub open spec fn encoded_upto(src: Seq<i64>, dst: Seq<i64>, enc: Seq<Vec<i64>>, i: int) -> bool {
    &&& forall|u: int, j: int| 0 <= u < enc.len() && 0 <= j < enc[u]@.len() ==> #[trigger] edge_before(src, dst, i, u, enc[u]@[j])
    &&& forall|e: int| 0 <= e < i ==> 0 <= #[trigger] src[e] < enc.len() && enc[src[e] as int]@.contains(dst[e])
}

/// One of the first `i` rows is an edge from `u` to `w`.
pub open spec fn edge_before(src: Seq<i64>, dst: Seq<i64>, i: int, u: int, w: i64) -> bool {
    exists|e: int| 0 <= e < i && src[e] == u && #[trigger] dst[e] == w
}

/// The edges as lists of targets indexed by source.
fn encode_by_source(src_node: &Vec<i64>, dst_node: &Vec<i64>) -> (enc: Vec<Vec<i64>>)
    requires
        src_node@.len() <= dst_node@.len(),
        forall|i: int| 0 <= i < src_node@.len() ==> 0 <= #[trigger] src_node@[i] < usize::MAX,
    ensures
        encoded_upto(src_node@, dst_node@, enc@, src_node@.len() as int),
{
    let ghost src = src_node@;
    let ghost dst = dst_node@;
    let mut encoded_col: Vec<Vec<i64>> = Vec::new();
    let n = src_node.len();
    let mut i: usize = 0;
    while i < n
        invariant
            src == src_node@,
            dst == dst_node@,
            n == src.len(),
            n <= dst.len(),
            forall|t: int| 0 <= t < n ==> 0 <= #[trigger] src[t] < usize::MAX,
            i <= n,
            encoded_upto(src, dst, encoded_col@, i as int),
        decreases n - i,
    {
        let src_as_usize = src_node[i] as usize;
        let target = dst_node[i];
        let ghost e0 = encoded_col@;
        while encoded_col.len() <= src_as_usize
            invariant
                src == src_node@,
                dst == dst_node@,
                src_as_usize < usize::MAX,
                encoded_col@.len() >= e0.len(),
                forall|u: int| 0 <= u < e0.len() ==> #[trigger] encoded_col@[u] == e0[u],
                forall|u: int| e0.len() <= u < encoded_col@.len() ==> (#[trigger] encoded_col@[u])@.len() == 0,
            decreases src_as_usize + 1 - encoded_col@.len(),
        {
            encoded_col.push(Vec::new());
        }
        let ghost e1 = encoded_col@;
        proof {
            assert forall|u: int, j: int| 0 <= u < e1.len() && 0 <= j < e1[u]@.len() implies
                #[trigger] edge_before(src, dst, i as int, u, e1[u]@[j]) by {
                assert(u < e0.len());
                assert(e1[u] == e0[u]);
            }
            assert forall|e: int| 0 <= e < i implies 0 <= #[trigger] src[e] < e1.len() && e1[src[e] as int]@.contains(dst[e]) by {
                assert(e1[src[e] as int] == e0[src[e] as int]);
            }
        }
        if encoded_col[src_as_usize].len() == 0 {
            encoded_col.set(src_as_usize, vec![target]);
        } else {
            let mut inner = copy_vec(&encoded_col[src_as_usize]);
            inner.push(target);
            encoded_col.set(src_as_usize, inner);
        }
        proof {
            let e2 = encoded_col@;
            let u0 = src_as_usize as int;
            assert(u0 == src[i as int]);
            assert(e2[u0]@ == e1[u0]@.push(dst[i as int])) by {
                if e1[u0]@.len() == 0 {
                    assert(e2[u0]@ =~= e1[u0]@.push(dst[i as int]));
                }
            }
            assert forall|u: int, j: int| 0 <= u < e2.len() && 0 <= j < e2[u]@.len() implies
                #[trigger] edge_before(src, dst, i + 1, u, e2[u]@[j]) by {
                if u != u0 {
                    assert(e2[u] == e1[u]);
                    assert(edge_before(src, dst, i as int, u, e1[u]@[j]));
                } else if j < e1[u]@.len() {
                    assert(e2[u]@[j] == e1[u]@[j]);
                    assert(edge_before(src, dst, i as int, u, e1[u]@[j]));
                } else {
                    assert(dst[i as int] == e2[u]@[j]);
                }
            }
            assert forall|e: int| 0 <= e < i + 1 implies 0 <= #[trigger] src[e] < e2.len() && e2[src[e] as int]@.contains(dst[e]) by {
                if e < i {
                    let w = src[e] as int;
                    assert(e1[w]@.contains(dst[e]));
                    let t = choose|t: int| 0 <= t < e1[w]@.len() && e1[w]@[t] == dst[e];
                    if w == u0 {
                        assert(e2[w]@[t] == dst[e]);
                    } else {
                        assert(e2[w] == e1[w]);
                    }
                } else {
                    assert(e2[u0]@[e2[u0]@.len() - 1] == dst[e]);
                }
            }
        }
        i += 1;
    }
    encoded_col
}

/// Every reachable node is at most some source id, so that a list of targets indexed by source
/// has an entry for it.
pub open spec fn sources_cover(src: Seq<i64>, dst: Seq<i64>, s: i64) -> bool {
    forall|v: i64| #[trigger] reachable(src, dst, s, v) ==> exists|i: int| 0 <= i < src.len() && v <= src[i]
}

/// The entries of a list of targets indexed by source are the targets of the edges out of each
/// source, and they lie between 1 and `top`.
proof fn lemma_encoded_neighbours(src: Seq<i64>, dst: Seq<i64>, s: i64, top: i64, enc: Seq<Vec<i64>>, u: int)
    requires
        ids_fit(src, dst, s),
        is_top(src, dst, s, top),
        top <= usize::MAX,
        encoded_upto(src, dst, enc, src.len() as int),
        0 <= u < enc.len(),
    ensures
        forall|j: int| 0 <= j < enc[u]@.len() ==> edge_from(src, dst, u as i64, #[trigger] enc[u]@[j]),
        forall|j: int| 0 <= j < enc[u]@.len() ==> 1 <= #[trigger] enc[u]@[j] <= usize::MAX,
        forall|e: int| 0 <= e < src.len() && #[trigger] src[e] == u ==> enc[u]@.contains(dst[e]),
{
    assert forall|j: int| 0 <= j < enc[u]@.len() implies edge_from(src, dst, u as i64, #[trigger] enc[u]@[j])
        && 1 <= enc[u]@[j] <= usize::MAX by {
        assert(edge_before(src, dst, src.len() as int, u, enc[u]@[j]));
        let e = choose|e: int| 0 <= e < src.len() && src[e] == u && #[trigger] dst[e] == enc[u]@[j];
    }
    assert forall|e: int| 0 <= e < src.len() && #[trigger] src[e] == u implies enc[u]@.contains(dst[e]) by {
        assert(0 <= src[e] < enc.len());
    }
}

/// Breadth-first search from `start_node` over the edges `src_node[i] -> dst_node[i]`, with the
/// edges first gathered into a list of targets per source id. Answers with the reachable nodes,
/// in increasing order. The source ids are not negative, and every reachable node is at most
/// some source id.
pub fn preclustered_rle_bfs(src_node: Vec<i64>, dst_node: Vec<i64>, start_node: i64) -> (r: Vec<i64>)
    requires
        ids_fit(src_node@, dst_node@, start_node),
        forall|i: int| 0 <= i < src_node@.len() ==> 0 <= #[trigger] src_node@[i] < usize::MAX,
        sources_cover(src_node@, dst_node@, start_node),
    ensures
        forall|v: i64| r@.contains(v) <==> reachable(src_node@, dst_node@, start_node, v),
        forall|i: int, j: int| 0 <= i < j < r@.len() ==> r@[i] < r@[j],
{
    let ghost src = src_node@;
    let ghost dst = dst_node@;
    let ghost s = start_node;
    let encoded_col = encode_by_source(&src_node, &dst_node);
    let ghost enc = encoded_col@;
    let ghost top = lemma_top_exists(src, dst, s, src.len() as int);
    proof {
        lemma_top_fits(src, dst, s, top);
        lemma_reach_start(src, dst, s);
    }
    let mut frontier: Vec<i64> = Vec::new();
    frontier.push(start_node);
    let mut visited = bv_from_elem(start_node as usize, false);
    proof {
        lemma_initial_state(src, dst, s, top, bits(visited), frontier@);
    }
    loop
        invariant
            src == src_node@,
            dst == dst_node@,
            enc == encoded_col@,
            encoded_upto(src, dst, enc, src.len() as int),
            sources_cover(src, dst, s),
            ids_fit(src, dst, s),
            is_top(src, dst, s, top),
            1 <= top,
            top * (src.len() + 2) < i64::MAX,
            top * (src.len() + 2) <= usize::MAX,
            top <= usize::MAX,
            search_state(src, dst, s, top as int, bits(visited), frontier@),
        ensures
            frontier@.len() == 0,
        decreases nodes(src, dst, s).len() - marks(src, dst, s, bits(visited)).len(),
    {
        let ghost b0 = bits(visited);
        let ghost f0 = frontier@;
        proof {
            lemma_nodes_finite(src, dst, s, b0);
        }
        if frontier.len() == 0 {
            break;
        }
        proof {
            lemma_search_room(src, dst, s, top, b0, f0);
        }
        mark_frontier(&mut visited, &frontier, Ghost(src), Ghost(dst), Ghost(s), Ghost(top));
        let ghost b1 = bits(visited);
        let prev = frontier;
        frontier = Vec::new();
        let mut k: usize = 0;
        proof {
            assert(prev@.subrange(0, 0) =~= Seq::<i64>::empty());
            lemma_frontier_bounds(src, dst, s, top, b0, f0);
        }
        while k < prev.len()
            invariant
                src == src_node@,
                dst == dst_node@,
                enc == encoded_col@,
                encoded_upto(src, dst, enc, src.len() as int),
                sources_cover(src, dst, s),
                ids_fit(src, dst, s),
                is_top(src, dst, s, top),
                top <= usize::MAX,
                b1 == bits(visited),
                prev@ == f0,
                search_state(src, dst, s, top as int, b0, f0),
                forall|t: int| 0 <= t < f0.len() ==> 1 <= #[trigger] f0[t] <= top,
                forall|v: i64| #[trigger] marked(b1, v) <==> (marked(b0, v) || f0.contains(v)),
                b1.len() <= b0.len() + f0.len() * top,
                k <= prev@.len(),
                expanding(src, dst, b1, prev@, k as int, frontier@),
            decreases prev@.len() - k,
        {
            let u = prev[k];
            proof {
                assert(reachable(src, dst, s, f0[k as int]));
                let i = choose|i: int| 0 <= i < src.len() && u <= src[i];
                assert(0 <= src[i] < enc.len());
                lemma_encoded_neighbours(src, dst, s, top, enc, u as int);
            }
            let nb = &encoded_col[u as usize];
            expand_neighbours(nb, &visited, &mut frontier, Ghost(src), Ghost(dst), Ghost(prev@), Ghost(k as int));
            proof {
                lemma_neighbours_done(src, dst, b1, prev@, k as int, frontier@, nb@);
            }
            k += 1;
        }
        proof {
            assert(prev@.subrange(0, prev@.len() as int) =~= prev@);
            lemma_round(src, dst, s, top, b0, f0, b1, frontier@);
            lemma_nodes_finite(src, dst, s, b1);
        }
    }
    proof {
        let b = bits(visited);
        assert(frontier@ =~= Seq::<i64>::empty());
        lemma_nodes_finite(src, dst, s, b);
        lemma_search_done(src, dst, s, top, b);
    }
    bv_where(visited)
}

/// The state of a search whose lookups are known only to answer with targets of some edges:
/// marked nodes and frontier nodes are nodes of the search, `s` is marked or in the frontier, and
/// the frontier leaves room to be marked.
pub open spec fn visit_state(src: Seq<i64>, dst: Seq<i64>, s: i64, top: int, b: Seq<bool>, f: Seq<i64>) -> bool {
    &&& room_state(src, dst, s, top, b, f)
    &&& forall|v: i64| #[trigger] marked(b, v) ==> nodes(src, dst, s).contains(v)
    &&& marked(b, s) || f.contains(s)
}

/// One round of such a search keeps its state, with the frontier's nodes added to the marked ones.
proof fn lemma_visit_round(
    src: Seq<i64>,
    dst: Seq<i64>,
    s: i64,
    top: i64,
    b0: Seq<bool>,
    f0: Seq<i64>,
    b1: Seq<bool>,
    f1: Seq<i64>,
)
    requires
        src.len() <= dst.len(),
        1 <= top,
        visit_state(src, dst, s, top as int, b0, f0),
        forall|v: i64| #[trigger] marked(b1, v) <==> (marked(b0, v) || f0.contains(v)),
        b1.len() <= b0.len() + f0.len() * top,
        f1.no_duplicates(),
        forall|k: int| 0 <= k < f1.len() ==> nodes(src, dst, s).contains(#[trigger] f1[k]) && !marked(b1, f1[k]),
    ensures
        visit_state(src, dst, s, top as int, b1, f1),
        marks(src, dst, s, b1).len() == marks(src, dst, s, b0).len() + f0.len(),
{
    let m0 = marks(src, dst, s, b0);
    let m1 = marks(src, dst, s, b1);
    let fs = f0.to_set();
    lemma_nodes_finite(src, dst, s, b0);
    lemma_nodes_finite(src, dst, s, b1);
    assert forall|v: i64| #[trigger] marked(b1, v) implies nodes(src, dst, s).contains(v) by {
        if f0.contains(v) {
            let k = choose|k: int| 0 <= k < f0.len() && f0[k] == v;
        }
    }
    vstd::seq_lib::seq_to_set_is_finite(f0);
    f0.unique_seq_to_set();
    assert forall|v: i64| fs.contains(v) implies nodes(src, dst, s).contains(v) by {
        let k = choose|k: int| 0 <= k < f0.len() && f0[k] == v;
    }
    assert(m1 =~= m0 + fs);
    assert(m0.disjoint(fs)) by {
        assert forall|v: i64| !(m0.contains(v) && fs.contains(v)) by {
            if fs.contains(v) {
                let k = choose|k: int| 0 <= k < f0.len() && f0[k] == v;
            }
        }
    }
    vstd::set_lib::lemma_set_disjoint_lens(m0, fs);
    let a = m0.len() as int;
    let c = f0.len() as int;
    let t = top as int;
    assert(t * (a + 1) + c * t == t * (a + c + 1)) by (nonlinear_arith);
}

/// Discovers the nodes `nb`, each a node of the search, keeping the frontier's nodes unmarked,
/// once each, and nodes of the search.
fn discover_nodes(
    nb: &Vec<i64>,
    visited: &BitVec<u32>,
    frontier: &mut Vec<i64>,
    Ghost(src): Ghost<Seq<i64>>,
    Ghost(dst): Ghost<Seq<i64>>,
    Ghost(s): Ghost<i64>,
)
    requires
        old(frontier)@.no_duplicates(),
        forall|k: int| 0 <= k < old(frontier)@.len() ==> nodes(src, dst, s).contains(#[trigger] old(frontier)@[k]) && !marked(bits(*visited), old(frontier)@[k]),
        forall|j: int| 0 <= j < nb@.len() ==> nodes(src, dst, s).contains(#[trigger] nb@[j]),
        forall|j: int| 0 <= j < nb@.len() ==> 1 <= #[trigger] nb@[j] <= usize::MAX,
    ensures
        final(frontier)@.no_duplicates(),
        forall|k: int| 0 <= k < final(frontier)@.len() ==> nodes(src, dst, s).contains(#[trigger] final(frontier)@[k]) && !marked(bits(*visited), final(frontier)@[k]),
        forall|j: int| 0 <= j < nb@.len() ==> marked(bits(*visited), #[trigger] nb@[j]) || final(frontier)@.contains(nb@[j]),
        forall|x: i64| old(frontier)@.contains(x) ==> final(frontier)@.contains(x),
        forall|x: i64| #[trigger] final(frontier)@.contains(x) ==> old(frontier)@.contains(x) || nb@.contains(x),
{
    let ghost b = bits(*visited);
    let ghost f_start = frontier@;
    let mut j: usize = 0;
    while j < nb.len()
        invariant
            b == bits(*visited),
            j <= nb@.len(),
            forall|t: int| 0 <= t < nb@.len() ==> nodes(src, dst, s).contains(#[trigger] nb@[t]),
            forall|t: int| 0 <= t < nb@.len() ==> 1 <= #[trigger] nb@[t] <= usize::MAX,
            frontier@.no_duplicates(),
            forall|k: int| 0 <= k < frontier@.len() ==> nodes(src, dst, s).contains(#[trigger] frontier@[k]) && !marked(b, frontier@[k]),
            forall|t: int| 0 <= t < j ==> marked(b, #[trigger] nb@[t]) || frontier@.contains(nb@[t]),
            forall|x: i64| f_start.contains(x) ==> frontier@.contains(x),
            forall|x: i64| frontier@.contains(x) ==> f_start.contains(x) || exists|t: int| 0 <= t < j && nb@[t] == x,
        decreases nb@.len() - j,
    {
        let w = nb[j];
        let ghost f = frontier@;
        discover(w, visited, frontier);
        proof {
            assert forall|x: i64| frontier@.contains(x) implies f_start.contains(x) || exists|t: int| 0 <= t < j + 1 && nb@[t] == x by {
                if f.contains(x) {
                    if !f_start.contains(x) {
                        let t = choose|t: int| 0 <= t < j && nb@[t] == x;
                        assert(0 <= t < j + 1 && nb@[t] == x);
                    }
                } else {
                    let k = choose|k: int| 0 <= k < frontier@.len() && frontier@[k] == x;
                    assert(k == f.len());
                    assert(nb@[j as int] == x);
                }
            }
        }
        proof {
            assert forall|x: i64| f.contains(x) implies frontier@.contains(x) by {
                if !marked(b, w) && !f.contains(w) {
                    let k = choose|k: int| 0 <= k < f.len() && f[k] == x;
                    assert(frontier@[k] == x);
                }
            }
            if !marked(b, w) && !f.contains(w) {
                assert(frontier@[f.len() as int] == w);
            }
            assert(marked(b, w) || frontier@.contains(w));
        }
        proof {
            if !marked(b, w) && !f.contains(w) {
                assert(frontier@ == f.push(w));
                assert forall|a: int, c: int| 0 <= a < frontier@.len() && 0 <= c < frontier@.len() && a != c implies frontier@[a] != frontier@[c] by {
                    if a < f.len() && c < f.len() {
                    } else if a < f.len() {
                        assert(f.contains(frontier@[a]));
                    } else {
                        assert(f.contains(frontier@[c]));
                    }
                }
                assert forall|k: int| 0 <= k < frontier@.len() implies nodes(src, dst, s).contains(#[trigger] frontier@[k]) && !marked(b, frontier@[k]) by {
                    if k < f.len() {
                        assert(frontier@[k] == f[k]);
                    }
                }
            }
        }
        j += 1;
    }
    proof {
        assert forall|x: i64| frontier@.contains(x) implies f_start.contains(x) || nb@.contains(x) by {
            if !f_start.contains(x) {
                let t = choose|t: int| 0 <= t < j && nb@[t] == x;
            }
        }
    }
}

/// Breadth-first search from `start_node` over the edges `src_node[i] -> dst_node[i]`, finding
/// each node's neighbours by a lookup on an adjacency list with compactive compression. The
/// lookups of that table answer with the targets at some stretch of its base rows, so the answer
/// is known to hold `start_node` and only nodes that are `start_node` or the target of an edge,
/// in increasing order. There must be an edge to look up in.
pub fn coco_bfs(src_node: Vec<i64>, dst_node: Vec<i64>, start_node: i64) -> (r: Vec<i64>)
    requires
        src_node@.len() == dst_node@.len(),
        src_node@.len() > 0,
        ids_fit(src_node@, dst_node@, start_node),
    ensures
        r@.contains(start_node),
        forall|v: i64| r@.contains(v) ==> nodes(src_node@, dst_node@, start_node).contains(v),
        forall|i: int, j: int| 0 <= i < j < r@.len() ==> r@[i] < r@[j],
        forall|v: i64| r@.contains(v) <==> reachable(src_node@, dst_node@, start_node, v),
{
    let ghost src = src_node@;
    let ghost dst = dst_node@;
    let ghost s = start_node;
    let ghost top = lemma_top_exists(src, dst, s, src.len() as int);
    proof {
        lemma_top_fits(src, dst, s, top);
        lemma_reach_start(src, dst, s);
    }
    let mut adjacency_list = compactive_compression::from_adjacency_vectors(src_node, dst_node, "src");
    let ghost cols = adjacency_list.int_columns;
    proof {
        reveal_strlit("src");
        reveal_strlit("dst");
        assert("src"@ != "dst"@) by {
            assert("src"@[0] != "dst"@[0]);
        }
        assert(first_named(cols@, "dst"@, 1));
        lemma_col_named(cols@, "dst"@, 1);
        assert(first_named(cols@, "src"@, 0));
        lemma_col_named(cols@, "src"@, 0);
    }
    let mut frontier: Vec<i64> = Vec::new();
    frontier.push(start_node);
    let mut visited = bv_from_elem(start_node as usize, false);
    proof {
        lemma_initial_state(src, dst, s, top, bits(visited), frontier@);
        lemma_search_room(src, dst, s, top, bits(visited), frontier@);
        assert forall|v: i64| #[trigger] marked(bits(visited), v) implies nodes(src, dst, s).contains(v) by {
            assert(!bits(visited)[v - 1]);
        }
        assert forall|i: int| 0 <= i < src.len() && marked(bits(visited), #[trigger] src[i]) implies false by {
            assert(!bits(visited)[src[i] - 1]);
        }
    }
    loop
        invariant
            ids_fit(src, dst, s),
            src.len() == dst.len(),
            is_top(src, dst, s, top),
            1 <= top,
            top * (src.len() + 2) < i64::MAX,
            top * (src.len() + 2) <= usize::MAX,
            top <= usize::MAX,
            visit_state(src, dst, s, top as int, bits(visited), frontier@),
            adjacency_list.select_ready(),
            adjacency_list.coherent(),
            adjacency_list.crk_col.v@ == src,
            adjacency_list.count == src.len(),
            adjacency_list.int_columns == cols,
            first_named(cols@, "dst"@, 1),
            cols@[1].1.v@ == dst,
            forall|v: i64| #[trigger] marked(bits(visited), v) ==> reachable(src, dst, s, v),
            forall|k: int| 0 <= k < frontier@.len() ==> reachable(src, dst, s, #[trigger] frontier@[k]),
            frontier_closed(src, dst, bits(visited), frontier@),
        ensures
            frontier@.len() == 0,
        decreases nodes(src, dst, s).len() - marks(src, dst, s, bits(visited)).len(),
    {
        let ghost b0 = bits(visited);
        let ghost f0 = frontier@;
        proof {
            lemma_nodes_finite(src, dst, s, b0);
        }
        if frontier.len() == 0 {
            break;
        }
        mark_frontier(&mut visited, &frontier, Ghost(src), Ghost(dst), Ghost(s), Ghost(top));
        let ghost b1 = bits(visited);
        let prev = frontier;
        frontier = Vec::new();
        let mut k: usize = 0;
        proof {
            lemma_frontier_bounds(src, dst, s, top, b0, f0);
            assert forall|i: int| 0 <= i < src.len() && marked(b0, #[trigger] src[i]) implies marked(b1, dst[i]) by {
                assert(marked(b0, dst[i]) || f0.contains(dst[i]));
            }
        }
        while k < prev.len()
            invariant
                ids_fit(src, dst, s),
                src.len() == dst.len(),
                is_top(src, dst, s, top),
                top * (src.len() + 2) < i64::MAX,
                top <= usize::MAX,
                b1 == bits(visited),
                prev@ == f0,
                forall|t: int| 0 <= t < f0.len() ==> 1 <= #[trigger] f0[t] <= top,
                forall|v: i64| #[trigger] marked(b1, v) <==> (marked(b0, v) || f0.contains(v)),
                b1.len() <= b0.len() + f0.len() * top,
                k <= prev@.len(),
                frontier@.no_duplicates(),
                forall|t: int| 0 <= t < frontier@.len() ==> nodes(src, dst, s).contains(#[trigger] frontier@[t]) && !marked(b1, frontier@[t]),
                adjacency_list.select_ready(),
                adjacency_list.coherent(),
                adjacency_list.crk_col.v@ == src,
                adjacency_list.count == src.len(),
                adjacency_list.int_columns == cols,
                first_named(cols@, "dst"@, 1),
                cols@[1].1.v@ == dst,
                forall|t: int| 0 <= t < f0.len() ==> reachable(src, dst, s, #[trigger] f0[t]),
                forall|v: i64| #[trigger] marked(b1, v) ==> reachable(src, dst, s, v),
                forall|t: int| 0 <= t < frontier@.len() ==> reachable(src, dst, s, #[trigger] frontier@[t]),
                forall|i: int| 0 <= i < src.len() && marked(b0, #[trigger] src[i]) ==> marked(b1, dst[i]),
                forall|i: int, t: int| #![trigger src[i], f0[t]]
                    0 <= t < k && 0 <= i < src.len() && src[i] == f0[t] ==> marked(b1, dst[i]) || frontier@.contains(dst[i]),
            decreases prev@.len() - k,
        {
            let u = prev[k];
            proof {
                assert(1 <= f0[k as int] <= top);
                lemma_top_below_max(src, top);
            }
            let selection = adjacency_list.cracker_select_specific(u);
            let ghost base = adjacency_list.crk_col.base_idx@;
            proof {
                let (a, b) = choose|a: int, b: int| base_slice_selection(selection, cols@, base, a, b);
                lemma_coco_neighbours(selection, cols@, base, a, b, src, dst, s, top);
                lemma_col_named(selection.int_columns@, "dst"@, 1);
                assert(reachable(src, dst, s, f0[k as int]));
                lemma_coco_reach(selection, cols@, base, src, dst, s, u);
                lemma_coco_neighbours_complete(selection, cols@, base, src, dst, u);
            }
            let nb = &selection.get_i64_col("dst").v;
            let ghost fr = frontier@;
            discover_nodes(nb, &visited, &mut frontier, Ghost(src), Ghost(dst), Ghost(s));
            proof {
                assert forall|i: int, t: int| #![trigger src[i], f0[t]]
                    0 <= t < k + 1 && 0 <= i < src.len() && src[i] == f0[t] implies marked(b1, dst[i]) || frontier@.contains(dst[i]) by {
                    if t < k {
                        if fr.contains(dst[i]) {
                            assert(frontier@.contains(dst[i]));
                        }
                    } else {
                        assert(src[i] == u);
                        assert(nb@ == selection.int_columns@[1].1.v@);
                        assert(nb@.contains(dst[i]));
                        let j = choose|j: int| 0 <= j < nb@.len() && nb@[j] == dst[i];
                        assert(marked(b1, nb@[j]) || frontier@.contains(nb@[j]));
                    }
                }
                assert forall|t: int| 0 <= t < frontier@.len() implies reachable(src, dst, s, #[trigger] frontier@[t]) by {
                    let x = frontier@[t];
                    assert(frontier@.contains(x));
                    if fr.contains(x) {
                        let q = choose|q: int| 0 <= q < fr.len() && fr[q] == x;
                    } else {
                        let q = choose|q: int| 0 <= q < nb@.len() && nb@[q] == x;
                        assert(nb@ == selection.int_columns@[1].1.v@);
                        assert(reachable(src, dst, s, selection.int_columns@[1].1.v@[q]));
                    }
                }
            }
            k += 1;
        }
        proof {
            lemma_visit_round(src, dst, s, top, b0, f0, b1, frontier@);
            lemma_nodes_finite(src, dst, s, b1);
            assert forall|i: int| 0 <= i < src.len() && marked(b1, #[trigger] src[i]) implies marked(b1, dst[i]) || frontier@.contains(dst[i]) by {
                if !marked(b0, src[i]) {
                    assert(f0.contains(src[i]));
                    let t = choose|t: int| 0 <= t < f0.len() && f0[t] == src[i];
                    assert(src[i] == f0[t]);
                }
            }
        }
    }
    proof {
        let b = bits(visited);
        assert(frontier@ =~= Seq::<i64>::empty());
        lemma_nodes_finite(src, dst, s, b);
        let m = marks(src, dst, s, b).len() as int;
        let n = src.len() as int;
        let t = top as int;
        assert(t * (m + 1) <= t * (n + 2)) by (nonlinear_arith)
            requires
                t >= 1,
                m + 1 <= n + 2;
        lemma_marked_nodes(b);
        assert forall|v: i64| marked_nodes(b).contains(v) implies nodes(src, dst, s).contains(v) && reachable(src, dst, s, v) by {
            assert(marked(b, v));
        }
        assert(marked(b, s));
        assert forall|i: int| 0 <= i < src.len() && marked(b, #[trigger] src[i]) implies marked(b, dst[i]) by {
            assert(!frontier@.contains(dst[i]));
        }
        assert forall|v: i64| reachable(src, dst, s, v) implies marked_nodes(b).contains(v) by {
            let p = choose|p: Seq<int>| #[trigger] is_path(src, dst, s, p, v);
            lemma_closed_marks_path(src, dst, s, b, p, v);
        }
    }
    bv_where(visited)
}

/// A lookup of `u` that answers exactly the rows holding `u` answers the target of every edge
/// out of `u`.
proof fn lemma_coco_neighbours_complete(
    t: CoCoTable,
    cols: Seq<(String, IntCol)>,
    base: Seq<usize>,
    src: Seq<i64>,
    dst: Seq<i64>,
    u: i64,
)
    requires
        answers_value_exactly(t, cols, base, src, u),
        first_named(cols, "dst"@, 1),
        cols[1].1.v@ == dst,
        src.len() == dst.len(),
        base.len() == src.len(),
        src.len() <= usize::MAX,
        distinct(base),
        all_below(base, src.len() as int),
    ensures
        forall|i: int| 0 <= i < src.len() && #[trigger] src[i] == u ==> t.int_columns@[1].1.v@.contains(dst[i]),
{
    let (a, b) = choose|a: int, b: int| base_slice_selection(t, cols, base, a, b) && forall|j: int| 0 <= j < base.len() ==> ((a <= j < b) <==> #[trigger] crate::graph::compaction::row_is(base, src, j, u));
    let n = src.len() as nat;
    let rows = base.subrange(a, b);
    let vs = t.int_columns@[1].1.v@;
    assert(vs == gather(dst, rows));
    crate::laws::law_base_rows_are_a_permutation(base, n);
    assert forall|i: int| 0 <= i < src.len() && #[trigger] src[i] == u implies vs.contains(dst[i]) by {
        let x = i as usize;
        assert(crate::laws::all_rows(n).contains(x));
        assert(base.to_set().contains(x));
        let j = choose|j: int| 0 <= j < base.len() && base[j] == x;
        assert(crate::graph::compaction::row_is(base, src, j, u));
        assert(vs[j - a] == dst[i]);
    }
}

/// The targets a lookup of the value `u` answers with on a coherent adjacency list cracked on
/// its sources are reachable when `u` is: each is the target of an edge out of `u`.
proof fn lemma_coco_reach(
    t: CoCoTable,
    cols: Seq<(String, IntCol)>,
    base: Seq<usize>,
    src: Seq<i64>,
    dst: Seq<i64>,
    s: i64,
    u: i64,
)
    requires
        answers_value(t, cols, base, src, u),
        first_named(cols, "dst"@, 1),
        cols[1].1.v@ == dst,
        src.len() == dst.len(),
        reachable(src, dst, s, u),
    ensures
        forall|j: int| 0 <= j < t.int_columns@[1].1.v@.len() ==> reachable(src, dst, s, #[trigger] t.int_columns@[1].1.v@[j]),
{
    let (a, b) = choose|a: int, b: int| base_slice_selection(t, cols, base, a, b) && forall|j: int| a <= j < b ==> #[trigger] crate::graph::compaction::row_is(base, src, j, u);
    let rows = base.subrange(a, b);
    let vs = t.int_columns@[1].1.v@;
    assert(vs == gather(dst, rows));
    assert forall|j: int| 0 <= j < vs.len() implies reachable(src, dst, s, #[trigger] vs[j]) by {
        assert(crate::graph::compaction::row_is(base, src, a + j, u));
        let r = base[a + j] as int;
        assert(rows[j] == base[a + j]);
        assert(vs[j] == dst[r]);
        lemma_reach_step(src, dst, s, r);
    }
}

/// The targets a lookup on an adjacency list with compactive compression answers with are
/// targets of edges, between 1 and `top`.
proof fn lemma_coco_neighbours(
    t: CoCoTable,
    cols: Seq<(String, IntCol)>,
    base: Seq<usize>,
    a: int,
    b: int,
    src: Seq<i64>,
    dst: Seq<i64>,
    s: i64,
    top: i64,
)
    requires
        base_slice_selection(t, cols, base, a, b),
        all_below(base, src.len() as int),
        first_named(cols, "dst"@, 1),
        cols[1].1.v@ == dst,
        src.len() == dst.len(),
        ids_fit(src, dst, s),
        is_top(src, dst, s, top),
        top <= usize::MAX,
    ensures
        first_named(t.int_columns@, "dst"@, 1),
        has_name(t.int_columns@, "dst"@),
        forall|j: int| 0 <= j < t.int_columns@[1].1.v@.len() ==> nodes(src, dst, s).contains(#[trigger] t.int_columns@[1].1.v@[j]),
        forall|j: int| 0 <= j < t.int_columns@[1].1.v@.len() ==> 1 <= #[trigger] t.int_columns@[1].1.v@[j] <= usize::MAX,
{
    let now = t.int_columns@;
    let rows = base.subrange(a, b);
    assert(now[1].0@ == cols[1].0@);
    assert(now[0].0@ == cols[0].0@);
    assert(has_name(now, "dst"@));
    let vs = now[1].1.v@;
    assert(vs == gather(dst, rows));
    let d = dst.subrange(0, src.len() as int).push(s);
    assert forall|j: int| 0 <= j < vs.len() implies nodes(src, dst, s).contains(#[trigger] vs[j]) && 1 <= vs[j] <= usize::MAX by {
        let r = rows[j] as int;
        assert(base[a + j] == rows[j]);
        assert(r < src.len());
        assert(vs[j] == dst[r]);
        assert(d[r] == dst[r]);
    }
}

/// The id `x` is at least 1 and `x` times `n + 2` stays below the bounds of `ids_fit`.
fn id_fits(x: i64, n: usize) -> (r: bool)
    ensures
        r == (1 <= x && x * (n + 2) < i64::MAX && x * (n + 2) <= usize::MAX),
{
    if x < 1 {
        return false;
    }
    let m: u128 = (n as u128) + 2;
    let xv: u128 = x as u128;
    assert(xv * m < 0x1_0000_0000_0000_0000_0000_0000_0000_0000) by (nonlinear_arith)
        requires
            xv < 0x8000_0000_0000_0000,
            m <= 0x1_0000_0000_0000_0001;
    let p: u128 = xv * m;
    p < (i64::MAX as u128) && p <= (usize::MAX as u128)
}

/// Whether the ids of a search fit: `ids_fit` computed.
pub fn ids_fit_check(src: &Vec<i64>, dst: &Vec<i64>, start: i64) -> (r: bool)
    ensures
        r == ids_fit(src@, dst@, start),
{
    let n = src.len();
    if n > dst.len() || !id_fits(start, n) {
        return false;
    }
    let mut i: usize = 0;
    while i < n
        invariant
            n == src@.len(),
            n <= dst@.len(),
            i <= n,
            forall|t: int| 0 <= t < i ==> 1 <= #[trigger] dst@[t] && dst@[t] * (n + 2) < i64::MAX && dst@[t] * (n + 2) <= usize::MAX,
        decreases n - i,
    {
        if !id_fits(dst[i], n) {
            return false;
        }
        i += 1;
    }
    true
}

/// Whether a search over lists of targets indexed by source can run: the source ids are not
/// negative, stay below the largest `usize`, and every reachable node is at most some source id.
pub fn rle_lookups_fit(src: &Vec<i64>, dst: &Vec<i64>, start: i64) -> (r: bool)
    requires
        ids_fit(src@, dst@, start),
    ensures
        r == ((forall|i: int| 0 <= i < src@.len() ==> 0 <= #[trigger] src@[i] < usize::MAX) && sources_cover(src@, dst@, start)),
{
    let n = src.len();
    let mut max_src: i64 = 0;
    let mut i: usize = 0;
    while i < n
        invariant
            n == src@.len(),
            i <= n,
            forall|t: int| 0 <= t < i ==> 0 <= #[trigger] src@[t] < usize::MAX && src@[t] <= max_src,
            i > 0 ==> exists|t: int| 0 <= t < i && src@[t] == max_src,
            i == 0 ==> max_src == 0,
            max_src >= 0,
        decreases n - i,
    {
        if src[i] < 0 || (src[i] as i128) >= (usize::MAX as i128) {
            return false;
        }
        if src[i] > max_src {
            max_src = src[i];
        }
        proof {
            if src@[i as int] == max_src {
                assert(0 <= i < i + 1 && src@[i as int] == max_src);
            } else {
                assert(i > 0);
                let t = choose|t: int| 0 <= t < i && src@[t] == max_src;
                assert(0 <= t < i + 1 && src@[t] == max_src);
            }
        }
        i += 1;
    }
    let reached = unoptimised_bfs(copy_vec(src), copy_vec(dst), start);
    proof {
        lemma_reach_start(src@, dst@, start);
    }
    if n == 0 {
        proof {
            assert(reached@.contains(start));
        }
        return false;
    }
    let mut j: usize = 0;
    while j < reached.len()
        invariant
            n == src@.len(),
            n > 0,
            exists|t: int| 0 <= t < n && src@[t] == max_src,
            forall|t: int| 0 <= t < n ==> #[trigger] src@[t] <= max_src,
            j <= reached@.len(),
            forall|v: i64| reached@.contains(v) <==> reachable(src@, dst@, start, v),
            forall|t: int| 0 <= t < j ==> #[trigger] reached@[t] <= max_src,
        decreases reached@.len() - j,
    {
        if reached[j] > max_src {
            proof {
                assert(reached@.contains(reached@[j as int]));
                let v = reached@[j as int];
                assert(reachable(src@, dst@, start, v));
            }
            return false;
        }
        j += 1;
    }
    proof {
        assert forall|v: i64| #[trigger] reachable(src@, dst@, start, v) implies exists|t: int| 0 <= t < src@.len() && v <= src@[t] by {
            assert(reached@.contains(v));
            let q = choose|q: int| 0 <= q < reached@.len() && reached@[q] == v;
            let t = choose|t: int| 0 <= t < n && src@[t] == max_src;
        }
    }
    true
}

/// Every edge has its reverse among the edges.
pub open spec fn symmetric(src: Seq<i64>, dst: Seq<i64>) -> bool {
    forall|i: int| 0 <= i < src.len() ==> #[trigger] edge_from(src, dst, dst[i], src[i])
}

/// A path stays a path when edges are appended to the columns.
pub proof fn lemma_path_extends(src: Seq<i64>, dst: Seq<i64>, src2: Seq<i64>, dst2: Seq<i64>, s: i64, p: Seq<int>, v: i64)
    requires
        is_path(src, dst, s, p, v),
        src.len() <= src2.len(),
        dst.len() <= dst2.len(),
        src2.subrange(0, src.len() as int) == src,
        dst2.subrange(0, dst.len() as int) == dst,
    ensures
        is_path(src2, dst2, s, p, v),
{
    assert forall|j: int| 0 <= j < p.len() implies src2[p[j]] == src[p[j]] && dst2[p[j]] == dst[p[j]] by {
        assert(0 <= p[j] < src.len() && p[j] < dst.len());
        assert(src2.subrange(0, src.len() as int)[p[j]] == src2[p[j]]);
        assert(dst2.subrange(0, dst.len() as int)[p[j]] == dst2[p[j]]);
    }
    assert forall|j: int| 0 < j < p.len() implies #[trigger] src2[p[j]] == dst2[p[j - 1]] by {
        assert(src2[p[j]] == src[p[j]] && dst2[p[j]] == dst[p[j]]);
        assert(src2[p[j - 1]] == src[p[j - 1]] && dst2[p[j - 1]] == dst[p[j - 1]]);
    }
    if p.len() > 0 {
        assert(src2[p[0]] == src[p[0]] && dst2[p[0]] == dst[p[0]]);
        let l = p.len() - 1;
        assert(src2[p[l]] == src[p[l]] && dst2[p[l]] == dst[p[l]]);
    }
}

/// Reachability survives appending edges to the columns.
pub proof fn lemma_reach_extends(src: Seq<i64>, dst: Seq<i64>, src2: Seq<i64>, dst2: Seq<i64>, s: i64, v: i64)
    requires
        reachable(src, dst, s, v),
        src.len() <= src2.len(),
        dst.len() <= dst2.len(),
        src2.subrange(0, src.len() as int) == src,
        dst2.subrange(0, dst.len() as int) == dst,
    ensures
        reachable(src2, dst2, s, v),
{
    let p = choose|p: Seq<int>| #[trigger] is_path(src, dst, s, p, v);
    lemma_path_extends(src, dst, src2, dst2, s, p, v);
}

/// Over edges that come with their reverses, a node reachable from `s` reaches `s`.
pub proof fn lemma_reach_reverse(src: Seq<i64>, dst: Seq<i64>, s: i64, v: i64)
    requires
        symmetric(src, dst),
        src.len() <= dst.len(),
        reachable(src, dst, s, v),
    ensures
        reachable(src, dst, v, s),
{
    let p = choose|p: Seq<int>| #[trigger] is_path(src, dst, s, p, v);
    let l = p.len() as int;
    let q = Seq::new(p.len(), |j: int| choose|e: int| 0 <= e < src.len() && src[e] == dst[p[l - 1 - j]] && #[trigger] dst[e] == src[p[l - 1 - j]]);
    assert forall|j: int| 0 <= j < q.len() implies 0 <= #[trigger] q[j] < src.len() && q[j] < dst.len()
        && src[q[j]] == dst[p[l - 1 - j]] && dst[q[j]] == src[p[l - 1 - j]] by {
        let i = p[l - 1 - j];
        assert(0 <= i < src.len());
        assert(edge_from(src, dst, dst[i], src[i]));
    }
    assert forall|j: int| 0 < j < q.len() implies #[trigger] src[q[j]] == dst[q[j - 1]] by {
        assert(src[q[j]] == dst[p[l - 1 - j]]);
        assert(dst[q[j - 1]] == src[p[l - 1 - (j - 1)]]);
        assert(src[p[l - j]] == dst[p[l - j - 1]]);
    }
    if l > 0 {
        assert(src[q[0]] == dst[p[l - 1]]);
        assert(dst[q[l - 1]] == src[p[0]]);
    }
    assert(is_path(src, dst, v, q, s));
}

/// A node reachable from `m`, with `m` reachable from `u`, is reachable from `u`.
pub proof fn lemma_reach_trans(src: Seq<i64>, dst: Seq<i64>, u: i64, m: i64, v: i64)
    requires
        reachable(src, dst, u, m),
        reachable(src, dst, m, v),
    ensures
        reachable(src, dst, u, v),
{
    let p1 = choose|p: Seq<int>| #[trigger] is_path(src, dst, u, p, m);
    let p2 = choose|p: Seq<int>| #[trigger] is_path(src, dst, m, p, v);
    let p = p1 + p2;
    assert forall|j: int| 0 <= j < p.len() implies 0 <= #[trigger] p[j] < src.len() && p[j] < dst.len() by {
        if j < p1.len() {
            assert(p[j] == p1[j]);
        } else {
            assert(p[j] == p2[j - p1.len()]);
        }
    }
    assert forall|j: int| 0 < j < p.len() implies #[trigger] src[p[j]] == dst[p[j - 1]] by {
        if j < p1.len() {
            assert(p[j] == p1[j] && p[j - 1] == p1[j - 1]);
        } else if j == p1.len() {
            assert(p[j] == p2[0] && p[j - 1] == p1[p1.len() - 1]);
        } else {
            assert(p[j] == p2[j - p1.len()] && p[j - 1] == p2[j - 1 - p1.len()]);
        }
    }
    if p.len() > 0 {
        if p1.len() > 0 {
            assert(p[0] == p1[0]);
        } else {
            assert(p[0] == p2[0]);
        }
        if p2.len() > 0 {
            assert(p[p.len() - 1] == p2[p2.len() - 1]);
        } else {
            assert(p[p.len() - 1] == p1[p1.len() - 1]);
        }
    } else {
        assert(p1.len() == 0 && p2.len() == 0);
    }
    assert(is_path(src, dst, u, p, v));
}

/// The values of the first integer column named `n`.
pub open spec fn table_col(cols: Seq<(String, crate::db::CrackableCol)>, n: Seq<char>) -> Seq<i64> {
    cols[choose|i: int| first_named(cols, n, i)].1.v@
}

/// The targets a lookup on an adjacency list held in a table answers with are targets of
/// edges, between 1 and `top`: the answer holds the `"dst"` values of rows of the table.
proof fn lemma_table_neighbours(
    r: Table,
    t: Table,
    rows: Seq<usize>,
    di: int,
    src: Seq<i64>,
    dst: Seq<i64>,
    s: i64,
    top: i64,
)
    requires
        is_selection(r, t, rows),
        all_below(rows, src.len() as int),
        first_named(t.i64_columns@, "dst"@, di),
        t.i64_columns@[di].1.v@ == dst,
        src.len() == dst.len(),
        ids_fit(src, dst, s),
        is_top(src, dst, s, top),
        top <= usize::MAX,
    ensures
        first_named(r.i64_columns@, "dst"@, di),
        has_name(r.i64_columns@, "dst"@),
        forall|j: int| 0 <= j < r.i64_columns@[di].1.v@.len() ==> nodes(src, dst, s).contains(#[trigger] r.i64_columns@[di].1.v@[j]),
        forall|j: int| 0 <= j < r.i64_columns@[di].1.v@.len() ==> 1 <= #[trigger] r.i64_columns@[di].1.v@[j] <= usize::MAX,
{
    let now = r.i64_columns@;
    assert forall|j: int| 0 <= j < di implies (#[trigger] now[j]).0@ != "dst"@ by {
        assert(now[j].0@ == t.i64_columns@[j].0@);
    }
    assert(now[di].0@ == t.i64_columns@[di].0@);
    let vs = now[di].1.v@;
    assert(vs == gather(dst, rows));
    let d = dst.subrange(0, src.len() as int).push(s);
    assert forall|j: int| 0 <= j < vs.len() implies nodes(src, dst, s).contains(#[trigger] vs[j]) && 1 <= vs[j] <= usize::MAX by {
        let k = rows[j] as int;
        assert(k < src.len());
        assert(vs[j] == dst[k]);
        assert(d[k] == dst[k]);
    }
}

/// The targets at rows whose source is a reachable `u` are reachable.
proof fn lemma_table_reach(r: Table, t: Table, rows: Seq<usize>, di: int, src: Seq<i64>, dst: Seq<i64>, s: i64, u: i64)
    requires
        is_selection(r, t, rows),
        all_below(rows, src.len() as int),
        0 <= di < t.i64_columns@.len(),
        t.i64_columns@[di].1.v@ == dst,
        src.len() == dst.len(),
        forall|j: int| 0 <= j < rows.len() ==> src[#[trigger] rows[j] as int] == u,
        reachable(src, dst, s, u),
    ensures
        forall|j: int| 0 <= j < r.i64_columns@[di].1.v@.len() ==> reachable(src, dst, s, #[trigger] r.i64_columns@[di].1.v@[j]),
{
    let vs = r.i64_columns@[di].1.v@;
    assert(vs == gather(dst, rows));
    assert forall|j: int| 0 <= j < vs.len() implies reachable(src, dst, s, #[trigger] vs[j]) by {
        let k = rows[j] as int;
        assert(src[k] == u);
        assert(vs[j] == dst[k]);
        lemma_reach_step(src, dst, s, k);
    }
}

/// The rows a lookup of `u` on a ready table answers with are rows of the table, and the table
/// keeps its columns; with a valid index they are exactly the rows holding `u`.
proof fn lemma_table_lookup_rows(pre: Table, post: Table, r: Table, u: i64) -> (rows: Seq<usize>)
    requires
        pre.select_ready(),
        post.select_ready(),
        post.count == pre.count,
        post.i64_columns == pre.i64_columns,
        post.crk_col.v == pre.crk_col.v,
        exists|a: int, b: int| crack_outcome(pre, post, r, u as int, u as int, a, b),
    ensures
        is_selection(r, post, rows),
        all_below(rows, pre.count as int),
        index_valid(pre.crk_col.crk_idx@, pre.crk_col.crk@) ==> forall|x: usize| #![trigger pre.crk_col.v@[x as int]]
            x < pre.count && pre.crk_col.v@[x as int] == u ==> rows.contains(x),
        index_valid(pre.crk_col.crk_idx@, pre.crk_col.crk@) ==> forall|j: int| 0 <= j < rows.len() ==> pre.crk_col.v@[#[trigger] rows[j] as int] == u,
{
    let n = pre.count;
    let (a, b) = choose|a: int, b: int| crack_outcome(pre, post, r, u as int, u as int, a, b);
    let base = post.crk_col.base_idx@;
    let rows = base.subrange(a, b);
    assert forall|j: int| 0 <= j < rows.len() implies (#[trigger] rows[j]) < pre.count by {
        assert(rows[j] == base[a + j]);
    }
    if index_valid(pre.crk_col.crk_idx@, pre.crk_col.crk@) {
        law_base_rows_are_a_permutation(base, n as nat);
        assert forall|x: usize| #![trigger pre.crk_col.v@[x as int]] x < n && pre.crk_col.v@[x as int] == u implies rows.contains(x) by {
            assert(all_rows(n as nat).contains(x));
            assert(base.to_set().contains(x));
            let i = choose|i: int| 0 <= i < base.len() && base[i] == x;
            assert(post.crk_col.crk@[i] == post.crk_col.v@[x as int]);
            assert(crate::crack::in_range(post.crk_col.crk@[i], u as int, u as int));
            assert(rows[i - a] == x);
        }
        assert forall|j: int| 0 <= j < rows.len() implies pre.crk_col.v@[#[trigger] rows[j] as int] == u by {
            assert(rows[j] == base[a + j]);
            assert(crate::crack::in_range(post.crk_col.crk@[a + j], u as int, u as int));
            assert(post.crk_col.crk@[a + j] == post.crk_col.v@[base[a + j] as int]);
        }
    }
    rows
}

/// The answer of a lookup of `u`, whose rows include every row holding `u` in the cracker
/// column, holds the target of every edge out of `u`.
proof fn lemma_table_neighbours_complete(r: Table, t: Table, rows: Seq<usize>, di: int, src: Seq<i64>, dst: Seq<i64>, u: i64)
    requires
        is_selection(r, t, rows),
        0 <= di < t.i64_columns@.len(),
        t.i64_columns@[di].1.v@ == dst,
        src.len() <= dst.len(),
        src.len() <= usize::MAX,
        forall|x: usize| #![trigger src[x as int]] x < src.len() && src[x as int] == u ==> rows.contains(x),
    ensures
        forall|i: int| 0 <= i < src.len() && #[trigger] src[i] == u ==> r.i64_columns@[di].1.v@.contains(dst[i]),
{
    let vs = r.i64_columns@[di].1.v@;
    assert(vs == gather(dst, rows));
    assert forall|i: int| 0 <= i < src.len() && #[trigger] src[i] == u implies vs.contains(dst[i]) by {
        let x = i as usize;
        assert(src[x as int] == u);
        assert(rows.contains(x));
        let j = choose|j: int| 0 <= j < rows.len() && rows[j] == x;
        assert(vs[j] == dst[i]);
    }
}

/// Every edge out of a marked node ends at a marked node or in the frontier.
pub open spec fn frontier_closed(src: Seq<i64>, dst: Seq<i64>, b: Seq<bool>, f: Seq<i64>) -> bool {
    forall|i: int| 0 <= i < src.len() && marked(b, #[trigger] src[i]) ==> marked(b, dst[i]) || f.contains(dst[i])
}

/// Breadth-first search over an adjacency list held in a table whose cracker column holds the
/// sources of the edges and whose column `"dst"` holds their targets: each node is looked up by
/// cracking the table. The lookups answer with the targets at some of the table's rows, so the
/// answer holds `start_node` and only nodes that are `start_node` or the target of an edge, in
/// increasing order; when the table's cracker index is valid, a lookup's rows include every row
/// of the node looked up, so the answer holds every node reachable from `start_node` (a lookup
/// of a piece the index already delimits answers with the rows at both of its ends, so nodes
/// beyond may come too), and the index stays valid. The table keeps its rows and columns.
pub fn adaptive_bfs(adjacency_list: &mut Table, start_node: i64) -> (r: Vec<i64>)
    requires
        old(adjacency_list).select_ready(),
        has_name(old(adjacency_list).i64_columns@, "dst"@),
        ids_fit(old(adjacency_list).crk_col.v@, table_col(old(adjacency_list).i64_columns@, "dst"@), start_node),
    ensures
        final(adjacency_list).select_ready(),
        final(adjacency_list).count == old(adjacency_list).count,
        final(adjacency_list).i64_columns == old(adjacency_list).i64_columns,
        final(adjacency_list).f64_columns == old(adjacency_list).f64_columns,
        final(adjacency_list).crk_col.v == old(adjacency_list).crk_col.v,
        r@.contains(start_node),
        forall|v: i64| r@.contains(v) ==> nodes(old(adjacency_list).crk_col.v@, table_col(old(adjacency_list).i64_columns@, "dst"@), start_node).contains(v),
        forall|i: int, j: int| 0 <= i < j < r@.len() ==> r@[i] < r@[j],
        index_valid(old(adjacency_list).crk_col.crk_idx@, old(adjacency_list).crk_col.crk@) ==> {
            &&& index_valid(final(adjacency_list).crk_col.crk_idx@, final(adjacency_list).crk_col.crk@)
            &&& forall|v: i64| reachable(old(adjacency_list).crk_col.v@, table_col(old(adjacency_list).i64_columns@, "dst"@), start_node, v) <==> r@.contains(v)
        },
{
    let ghost cols = adjacency_list.i64_columns;
    let ghost fcols = adjacency_list.f64_columns;
    let ghost cv = adjacency_list.crk_col.v;
    let ghost src = cv@;
    let ghost iv = index_valid(adjacency_list.crk_col.crk_idx@, adjacency_list.crk_col.crk@);
    proof {
        lemma_first_named_exists(cols@, "dst"@);
    }
    let ghost di = choose|i: int| first_named(cols@, "dst"@, i);
    let ghost dst = table_col(cols@, "dst"@);
    let ghost s = start_node;
    proof {
        assert(cols@[di].1.v@ == dst);
        assert(dst.len() == src.len());
    }
    let ghost top = lemma_top_exists(src, dst, s, src.len() as int);
    proof {
        lemma_top_fits(src, dst, s, top);
    }
    let mut frontier: Vec<i64> = Vec::new();
    frontier.push(start_node);
    let mut visited = bv_from_elem(start_node as usize, false);
    proof {
        lemma_initial_state(src, dst, s, top, bits(visited), frontier@);
        lemma_search_room(src, dst, s, top, bits(visited), frontier@);
        assert forall|v: i64| #[trigger] marked(bits(visited), v) implies nodes(src, dst, s).contains(v) by {
            assert(!bits(visited)[v - 1]);
        }
        assert forall|i: int| 0 <= i < src.len() && marked(bits(visited), #[trigger] src[i]) implies false by {
            assert(!bits(visited)[src[i] - 1]);
        }
    }
    loop
        invariant
            ids_fit(src, dst, s),
            src.len() == dst.len(),
            is_top(src, dst, s, top),
            1 <= top,
            top * (src.len() + 2) < i64::MAX,
            top * (src.len() + 2) <= usize::MAX,
            top <= usize::MAX,
            visit_state(src, dst, s, top as int, bits(visited), frontier@),
            adjacency_list.select_ready(),
            adjacency_list.count == src.len(),
            adjacency_list.i64_columns == cols,
            adjacency_list.f64_columns == fcols,
            adjacency_list.crk_col.v == cv,
            src == cv@,
            first_named(cols@, "dst"@, di),
            cols@[di].1.v@ == dst,
            iv ==> index_valid(adjacency_list.crk_col.crk_idx@, adjacency_list.crk_col.crk@),
            iv ==> frontier_closed(src, dst, bits(visited), frontier@),
            iv ==> forall|v: i64| #[trigger] marked(bits(visited), v) ==> reachable(src, dst, s, v),
            iv ==> forall|t: int| 0 <= t < frontier@.len() ==> reachable(src, dst, s, #[trigger] frontier@[t]),
        ensures
            frontier@.len() == 0,
        decreases nodes(src, dst, s).len() - marks(src, dst, s, bits(visited)).len(),
    {
        let ghost b0 = bits(visited);
        let ghost f0 = frontier@;
        proof {
            lemma_nodes_finite(src, dst, s, b0);
        }
        if frontier.len() == 0 {
            break;
        }
        mark_frontier(&mut visited, &frontier, Ghost(src), Ghost(dst), Ghost(s), Ghost(top));
        let ghost b1 = bits(visited);
        let prev = frontier;
        frontier = Vec::new();
        let mut k: usize = 0;
        proof {
            lemma_frontier_bounds(src, dst, s, top, b0, f0);
            if iv {
                assert forall|i: int| 0 <= i < src.len() && marked(b0, #[trigger] src[i]) implies marked(b1, dst[i]) by {
                    assert(marked(b0, dst[i]) || f0.contains(dst[i]));
                }
            }
        }
        while k < prev.len()
            invariant
                ids_fit(src, dst, s),
                src.len() == dst.len(),
                is_top(src, dst, s, top),
                top * (src.len() + 2) < i64::MAX,
                top * (src.len() + 2) <= usize::MAX,
                top <= usize::MAX,
                b1 == bits(visited),
                prev@ == f0,
                forall|t: int| 0 <= t < f0.len() ==> 1 <= #[trigger] f0[t] <= top,
                forall|v: i64| #[trigger] marked(b1, v) <==> (marked(b0, v) || f0.contains(v)),
                b1.len() <= b0.len() + f0.len() * top,
                k <= prev@.len(),
                frontier@.no_duplicates(),
                forall|t: int| 0 <= t < frontier@.len() ==> nodes(src, dst, s).contains(#[trigger] frontier@[t]) && !marked(b1, frontier@[t]),
                adjacency_list.select_ready(),
                adjacency_list.count == src.len(),
                adjacency_list.i64_columns == cols,
                adjacency_list.f64_columns == fcols,
                adjacency_list.crk_col.v == cv,
                src == cv@,
                first_named(cols@, "dst"@, di),
                cols@[di].1.v@ == dst,
                iv ==> index_valid(adjacency_list.crk_col.crk_idx@, adjacency_list.crk_col.crk@),
                iv ==> forall|i: int| 0 <= i < src.len() && marked(b0, #[trigger] src[i]) ==> marked(b1, dst[i]),
                iv ==> forall|i: int, t: int| #![trigger src[i], f0[t]]
                    0 <= t < k && 0 <= i < src.len() && src[i] == f0[t] ==> marked(b1, dst[i]) || frontier@.contains(dst[i]),
                iv ==> forall|t: int| 0 <= t < f0.len() ==> reachable(src, dst, s, #[trigger] f0[t]),
                iv ==> forall|v: i64| #[trigger] marked(b1, v) ==> reachable(src, dst, s, v),
                iv ==> forall|t: int| 0 <= t < frontier@.len() ==> reachable(src, dst, s, #[trigger] frontier@[t]),
            decreases prev@.len() - k,
        {
            let u = prev[k];
            proof {
                assert(1 <= f0[k as int] <= top);
                lemma_top_below_max(src, top);
                let t = top as int;
                let n = src.len() as int;
                assert(t + 1 < usize::MAX) by (nonlinear_arith)
                    requires
                        t >= 1,
                        n >= 0,
                        t * (n + 2) <= usize::MAX;
            }
            let ghost pre = *adjacency_list;
            let selection = adjacency_list.cracker_select_specific(u);
            let ghost rows = lemma_table_lookup_rows(pre, *adjacency_list, selection, u);
            proof {
                lemma_table_neighbours(selection, *adjacency_list, rows, di, src, dst, s, top);
                if iv {
                    lemma_table_neighbours_complete(selection, *adjacency_list, rows, di, src, dst, u);
                    assert(reachable(src, dst, s, f0[k as int]));
                    lemma_table_reach(selection, *adjacency_list, rows, di, src, dst, s, u);
                }
            }
            let dst_col = selection.get_i64_col("dst");
            proof {
                let i = choose|i: int| first_named(selection.i64_columns@, "dst"@, i) && *dst_col == selection.i64_columns@[i].1;
                lemma_first_named_unique(selection.i64_columns@, "dst"@, i, di);
            }
            let ghost f_before = frontier@;
            discover_nodes(&dst_col.v, &visited, &mut frontier, Ghost(src), Ghost(dst), Ghost(s));
            proof {
                if iv {
                    let nb = dst_col.v@;
                    assert forall|t: int| 0 <= t < frontier@.len() implies reachable(src, dst, s, #[trigger] frontier@[t]) by {
                        let x = frontier@[t];
                        assert(frontier@.contains(x));
                        if f_before.contains(x) {
                            let q = choose|q: int| 0 <= q < f_before.len() && f_before[q] == x;
                        } else {
                            let q = choose|q: int| 0 <= q < nb.len() && nb[q] == x;
                            assert(reachable(src, dst, s, nb[q]));
                        }
                    }
                    assert forall|i: int, t: int| #![trigger src[i], f0[t]]
                        0 <= t < k + 1 && 0 <= i < src.len() && src[i] == f0[t] implies marked(b1, dst[i]) || frontier@.contains(dst[i]) by {
                        if t < k {
                            if f_before.contains(dst[i]) {
                                assert(frontier@.contains(dst[i]));
                            }
                        } else {
                            assert(src[i] == u);
                            assert(nb.contains(dst[i]));
                            let j = choose|j: int| 0 <= j < nb.len() && nb[j] == dst[i];
                            assert(marked(b1, nb[j]) || frontier@.contains(nb[j]));
                        }
                    }
                }
            }
            k += 1;
        }
        proof {
            lemma_visit_round(src, dst, s, top, b0, f0, b1, frontier@);
            lemma_nodes_finite(src, dst, s, b1);
            if iv {
                assert forall|i: int| 0 <= i < src.len() && marked(b1, #[trigger] src[i]) implies marked(b1, dst[i]) || frontier@.contains(dst[i]) by {
                    if !marked(b0, src[i]) {
                        assert(f0.contains(src[i]));
                        let t = choose|t: int| 0 <= t < f0.len() && f0[t] == src[i];
                        assert(src[i] == f0[t]);
                    }
                }
            }
        }
    }
    proof {
        let b = bits(visited);
        assert(frontier@ =~= Seq::<i64>::empty());
        lemma_nodes_finite(src, dst, s, b);
        let m = marks(src, dst, s, b).len() as int;
        let n = src.len() as int;
        let t = top as int;
        assert(t * (m + 1) <= t * (n + 2)) by (nonlinear_arith)
            requires
                t >= 1,
                m + 1 <= n + 2;
        lemma_marked_nodes(b);
        assert forall|v: i64| marked_nodes(b).contains(v) implies nodes(src, dst, s).contains(v) by {
            assert(marked(b, v));
        }
        if iv {
            assert forall|v: i64| marked_nodes(b).contains(v) implies reachable(src, dst, s, v) by {
                assert(marked(b, v));
            }
            assert(marked(b, s));
            assert forall|i: int| 0 <= i < src.len() && marked(b, #[trigger] src[i]) implies marked(b, dst[i]) by {
                assert(!frontier@.contains(dst[i]));
            }
            assert forall|v: i64| reachable(src, dst, s, v) implies marked_nodes(b).contains(v) by {
                let p = choose|p: Seq<int>| #[trigger] is_path(src, dst, s, p, v);
                lemma_closed_marks_path(src, dst, s, b, p, v);
            }
        }
    }
    bv_where(visited)
}

} // verus!
