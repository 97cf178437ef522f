//! The partitioning step shared by the cracking tables: rows of a cracker column, paired with
//! their base-row indices, are swapped in place so that values below a range come first, then
//! the values inside it, then those above it.

use vstd::prelude::*;

verus! {

/// `x` lies below the range that starts at `al`.
pub open spec fn c_low(x: i64, al: int) -> bool {
    x < al
}

/// `x` lies above the range that ends at `ah`.
pub open spec fn c_high(x: i64, ah: int) -> bool {
    x > ah
}

/// `x` lies inside the range `al..=ah`.
pub open spec fn in_range(x: i64, al: int, ah: int) -> bool {
    al <= x <= ah
}

/// Position `i` of the cracker column holds the value of base row `base[i]`.
pub open spec fn aligned(crk: Seq<i64>, base: Seq<usize>, v: Seq<i64>) -> bool {
    &&& crk.len() == base.len()
    &&& forall|i: int| 0 <= i < crk.len() ==> (#[trigger] base[i]) < v.len() && crk[i] == v[base[i] as int]
}

/// No base row appears twice.
pub open spec fn distinct(base: Seq<usize>) -> bool {
    forall|i: int, j: int| 0 <= i < base.len() && 0 <= j < base.len() && i != j ==> #[trigger] base[i] != #[trigger] base[j]
}

/// Every value now in positions `lo..=hi` was in those positions before.
pub open spec fn from_region(cur: Seq<i64>, orig: Seq<i64>, lo: int, hi: int) -> bool {
    forall|x: int| lo <= x <= hi ==> exists|y: int| lo <= y <= hi && #[trigger] cur[x] == #[trigger] orig[y]
}

/// Positions outside `lo..=hi` are as they were.
pub open spec fn same_outside<T>(cur: Seq<T>, orig: Seq<T>, lo: int, hi: int) -> bool {
    &&& cur.len() == orig.len()
    &&& forall|x: int| 0 <= x < cur.len() && !(lo <= x <= hi) ==> #[trigger] cur[x] == orig[x]
}

/// `s` with the entries at `i` and `j` exchanged.
pub open spec fn swapped<T>(s: Seq<T>, i: int, j: int) -> Seq<T> {
    s.update(i, s[j]).update(j, s[i])
}

/// The entry at `x` after exchanging the entries at `i` and `j`.
pub proof fn lemma_swapped_at<T>(s: Seq<T>, i: int, j: int, x: int)
    requires
        0 <= i < s.len(),
        0 <= j < s.len(),
        0 <= x < s.len(),
    ensures
        swapped(s, i, j).len() == s.len(),
        swapped(s, i, j)[x] == s[if x == j { i } else if x == i { j } else { x }],
{
}

/// Exchanges two entries of a vector.
pub fn swap_entries<T: Copy>(v: &mut Vec<T>, i: usize, j: usize)
    requires
        i < old(v).len(),
        j < old(v).len(),
    ensures
        final(v)@ == swapped(old(v)@, i as int, j as int),
{
    let a = v[i];
    let b = v[j];
    v.set(i, b);
    v.set(j, a);
}

/// Exchanges two rows of a cracker column together with their base-row indices.
pub fn swap_rows(crk: &mut Vec<i64>, base: &mut Vec<usize>, i: usize, j: usize)
    requires
        i < old(crk).len(),
        j < old(crk).len(),
        old(crk).len() == old(base).len(),
    ensures
        final(crk)@ == swapped(old(crk)@, i as int, j as int),
        final(base)@ == swapped(old(base)@, i as int, j as int),
{
    swap_entries(crk, i, j);
    swap_entries(base, i, j);
}

/// Swapping two rows keeps the pairing with the base column and the distinctness of base rows.
pub proof fn lemma_swap_keeps_alignment(crk: Seq<i64>, base: Seq<usize>, v: Seq<i64>, i: int, j: int)
    requires
        aligned(crk, base, v),
        distinct(base),
        0 <= i < crk.len(),
        0 <= j < crk.len(),
    ensures
        aligned(swapped(crk, i, j), swapped(base, i, j), v),
        distinct(swapped(base, i, j)),
{
    let b2 = swapped(base, i, j);
    assert forall|x: int, y: int| 0 <= x < b2.len() && 0 <= y < b2.len() && x != y implies #[trigger] b2[x] != #[trigger] b2[y] by {
        let sx = if x == j { i } else if x == i { j } else { x };
        let sy = if y == j { i } else if y == i { j } else { y };
        lemma_swapped_at(base, i, j, x);
        lemma_swapped_at(base, i, j, y);
    }
    let c2 = swapped(crk, i, j);
    assert forall|x: int| 0 <= x < c2.len() implies (#[trigger] b2[x]) < v.len() && c2[x] == v[b2[x] as int] by {
        lemma_swapped_at(base, i, j, x);
        lemma_swapped_at(crk, i, j, x);
    }
}

/// Swapping two positions inside a region keeps the region made of its original values, and
/// leaves the outside alone.
pub proof fn lemma_swap_in_region(cur: Seq<i64>, orig: Seq<i64>, lo: int, hi: int, i: int, j: int)
    requires
        from_region(cur, orig, lo, hi),
        same_outside(cur, orig, lo, hi),
        lo <= i <= hi,
        lo <= j <= hi,
        0 <= lo,
        hi < cur.len(),
    ensures
        from_region(swapped(cur, i, j), orig, lo, hi),
        same_outside(swapped(cur, i, j), orig, lo, hi),
{
    let c2 = swapped(cur, i, j);
    assert forall|x: int| lo <= x <= hi implies exists|y: int| lo <= y <= hi && #[trigger] c2[x] == #[trigger] orig[y] by {
        let sx = if x == j { i } else if x == i { j } else { x };
        lemma_swapped_at(cur, i, j, x);
        assert(exists|y: int| lo <= y <= hi && #[trigger] cur[sx] == #[trigger] orig[y]);
    }
}

/// Some position in `lo..=hi` holds a value above `ah`.
pub open spec fn holds_above(crk: Seq<i64>, lo: int, hi: int, ah: i64) -> bool {
    exists|q: int| lo <= q <= hi && #[trigger] crk[q] > ah
}

/// Swapping two positions inside a region keeps a value above `ah` inside it.
pub proof fn lemma_swap_holds_above(cur: Seq<i64>, lo: int, hi: int, i: int, j: int, ah: i64)
    requires
        holds_above(cur, lo, hi, ah),
        lo <= i <= hi,
        lo <= j <= hi,
        0 <= lo,
        hi < cur.len(),
    ensures
        holds_above(swapped(cur, i, j), lo, hi, ah),
{
    let q = choose|q: int| lo <= q <= hi && #[trigger] cur[q] > ah;
    let q2 = if q == i { j } else if q == j { i } else { q };
    lemma_swapped_at(cur, i, j, q2);
    assert(swapped(cur, i, j)[q2] > ah);
}

/// Some position in `lo..=hi` holds a value below `al`.
pub open spec fn holds_below(crk: Seq<i64>, lo: int, hi: int, al: i64) -> bool {
    exists|q: int| lo <= q <= hi && #[trigger] crk[q] < al
}

/// Swapping two positions inside a region keeps a value below `al` inside it.
pub proof fn lemma_swap_holds_below(cur: Seq<i64>, lo: int, hi: int, i: int, j: int, al: i64)
    requires
        holds_below(cur, lo, hi, al),
        lo <= i <= hi,
        lo <= j <= hi,
        0 <= lo,
        hi < cur.len(),
    ensures
        holds_below(swapped(cur, i, j), lo, hi, al),
{
    let q = choose|q: int| lo <= q <= hi && #[trigger] cur[q] < al;
    let q2 = if q == i { j } else if q == j { i } else { q };
    lemma_swapped_at(cur, i, j, q2);
    assert(swapped(cur, i, j)[q2] < al);
}

/// At most one position of `crk` holds `w`.
pub open spec fn at_most_one(crk: Seq<i64>, w: i64) -> bool {
    forall|q1: int, q2: int| 0 <= q1 < q2 < crk.len() ==> !(#[trigger] crk[q1] == w && #[trigger] crk[q2] == w)
}

/// Swapping two positions keeps a value held at most once held at most once.
pub proof fn lemma_swap_at_most_one(cur: Seq<i64>, i: int, j: int, w: i64)
    requires
        at_most_one(cur, w),
        0 <= i < cur.len(),
        0 <= j < cur.len(),
    ensures
        at_most_one(swapped(cur, i, j), w),
{
    let c2 = swapped(cur, i, j);
    assert forall|q1: int, q2: int| 0 <= q1 < q2 < c2.len() implies !(#[trigger] c2[q1] == w && #[trigger] c2[q2] == w) by {
        lemma_swapped_at(cur, i, j, q1);
        lemma_swapped_at(cur, i, j, q2);
        let r1 = if q1 == j { i } else if q1 == i { j } else { q1 };
        let r2 = if q2 == j { i } else if q2 == i { j } else { q2 };
        if c2[q1] == w && c2[q2] == w {
            assert(cur[r1] == w && cur[r2] == w);
            if r1 < r2 {
                assert(!(cur[r1] == w && cur[r2] == w));
            } else {
                assert(!(cur[r2] == w && cur[r1] == w));
            }
        }
    }
}

/// The ranges below and above do not overlap, so no value is outside on both sides.
pub open spec fn disjoint(al: i64, ah: i64) -> bool {
    al <= ah + 1
}

/// The partition left by `crack_in_three_loop` when it returns `(a, b, h)`.
pub open spec fn three_way(crk: Seq<i64>, lo: int, hi: int, al: i64, ah: i64, a: int, b: int, h: int) -> bool {
    &&& lo <= a <= b <= crk.len()
    &&& a < crk.len()
    &&& h <= hi
    &&& h + 1 <= b
    &&& forall|i: int| lo <= i < a ==> c_low(#[trigger] crk[i], al as int)
    &&& forall|i: int| a <= i < b ==> in_range(#[trigger] crk[i], al as int, ah as int)
    &&& forall|i: int| h < i <= hi ==> c_high(#[trigger] crk[i], ah as int)
    &&& disjoint(al, ah) ==> b == h + 1 && a <= hi
}

/// Swapping two positions inside a region leaves the outside alone.
pub proof fn lemma_swap_same_outside<T>(cur: Seq<T>, orig: Seq<T>, lo: int, hi: int, i: int, j: int)
    requires
        same_outside(cur, orig, lo, hi),
        lo <= i <= hi,
        lo <= j <= hi,
        0 <= i < cur.len(),
        0 <= j < cur.len(),
    ensures
        same_outside(swapped(cur, i, j), orig, lo, hi),
{
}

/// Position `p` splits `crk` at `k`: the values before it are below `k` and those after it are
/// not.
pub open spec fn splits_at(crk: Seq<i64>, k: int, p: int) -> bool {
    &&& forall|i: int| 0 <= i < p && i < crk.len() ==> #[trigger] crk[i] < k
    &&& forall|i: int| p < i < crk.len() && 0 <= i ==> #[trigger] crk[i] >= k
}

/// Exchanging a value below `k` at `j` with an earlier position keeps a split at `k`.
pub proof fn lemma_swap_low_splits(s: Seq<i64>, i: int, j: int, k: int, p: int)
    requires
        0 <= i <= j < s.len(),
        s[j] < k,
        splits_at(s, k, p),
    ensures
        splits_at(swapped(s, i, j), k, p),
{
    let t = swapped(s, i, j);
    if j > p {
        assert(s[j] >= k);
    }
    assert forall|x: int| 0 <= x < p && x < t.len() implies #[trigger] t[x] < k by {
        if x == i {
        } else if x == j {
            if i < p {
            }
        }
    }
    assert forall|x: int| p < x < t.len() && 0 <= x implies #[trigger] t[x] >= k by {
        assert(x != i && x != j);
    }
}

/// Exchanging a value not below `k` at `i` with a later position keeps a split at `k`.
pub proof fn lemma_swap_high_splits(s: Seq<i64>, i: int, j: int, k: int, p: int)
    requires
        0 <= i <= j < s.len(),
        s[i] >= k,
        splits_at(s, k, p),
    ensures
        splits_at(swapped(s, i, j), k, p),
{
    let t = swapped(s, i, j);
    if i < p {
        assert(s[i] < k);
    }
    assert forall|x: int| 0 <= x < p && x < t.len() implies #[trigger] t[x] < k by {
        assert(x != i && x != j);
    }
    assert(t.len() == s.len());
    assert forall|x: int| p < x < t.len() && 0 <= x implies #[trigger] t[x] >= k by {
        lemma_swapped_at(s, i, j, x);
        if x == i && x != j {
            assert(p < j);
        }
    }
}

/// The values before position `p` are below `k` and those from `p` on are not.
pub open spec fn splits_from(crk: Seq<i64>, k: int, p: int) -> bool {
    &&& forall|i: int| 0 <= i < p && i < crk.len() ==> #[trigger] crk[i] < k
    &&& forall|i: int| p <= i < crk.len() && 0 <= i ==> #[trigger] crk[i] >= k
}

/// Exchanging a value below `k` at `j` with an earlier position keeps a split from `p` at `k`.
pub proof fn lemma_swap_low_splits_from(s: Seq<i64>, i: int, j: int, k: int, p: int)
    requires
        0 <= i <= j < s.len(),
        s[j] < k,
        splits_from(s, k, p),
    ensures
        splits_from(swapped(s, i, j), k, p),
{
    let t = swapped(s, i, j);
    assert(t.len() == s.len());
    if j >= p {
        assert(s[j] >= k);
    }
    assert forall|x: int| 0 <= x < p && x < t.len() implies #[trigger] t[x] < k by {
        lemma_swapped_at(s, i, j, x);
    }
    assert forall|x: int| p <= x < t.len() && 0 <= x implies #[trigger] t[x] >= k by {
        lemma_swapped_at(s, i, j, x);
    }
}

/// Exchanging a value not below `k` at `i` with a later position keeps a split from `p` at `k`.
pub proof fn lemma_swap_high_splits_from(s: Seq<i64>, i: int, j: int, k: int, p: int)
    requires
        0 <= i <= j < s.len(),
        s[i] >= k,
        splits_from(s, k, p),
    ensures
        splits_from(swapped(s, i, j), k, p),
{
    let t = swapped(s, i, j);
    assert(t.len() == s.len());
    if i < p {
        assert(s[i] < k);
    }
    assert forall|x: int| 0 <= x < p && x < t.len() implies #[trigger] t[x] < k by {
        lemma_swapped_at(s, i, j, x);
    }
    assert forall|x: int| p <= x < t.len() && 0 <= x implies #[trigger] t[x] >= k by {
        lemma_swapped_at(s, i, j, x);
    }
}

/// Where a scan from `p` over values below `al` stops: the first position from `p` on that is
/// past the column or holds no such value.
pub open spec fn scan_up(crk: Seq<i64>, n: int, p: int, al: i64) -> int
    decreases n - p,
{
    if 0 <= p < n && p < crk.len() && crk[p] < al { scan_up(crk, n, p + 1, al) } else { p }
}

/// Where a scan back from `p` over values above `ah` stops: the first position from `p` down
/// that is 0 or holds no such value.
pub open spec fn scan_down(crk: Seq<i64>, p: int, ah: i64) -> int
    decreases p,
{
    if 0 < p < crk.len() && crk[p] > ah { scan_down(crk, p - 1, ah) } else { p }
}

/// The scan up moves on from a position holding a value below `al`.
pub proof fn lemma_scan_up(crk: Seq<i64>, n: int, p: int, al: i64)
    ensures
        scan_up(crk, n, p, al) >= p,
        0 <= p < n && p < crk.len() && crk[p] < al ==> scan_up(crk, n, p, al) > p,
    decreases n - p,
{
    if 0 <= p < n && p < crk.len() && crk[p] < al {
        lemma_scan_up(crk, n, p + 1, al);
    }
}

/// The scan down moves back from a position holding a value above `ah`, and stays in the column.
pub proof fn lemma_scan_down(crk: Seq<i64>, p: int, ah: i64)
    ensures
        scan_down(crk, p, ah) <= p,
        p >= 0 ==> scan_down(crk, p, ah) >= 0,
        0 < p < crk.len() && crk[p] > ah ==> scan_down(crk, p, ah) < p,
    decreases p,
{
    if 0 < p < crk.len() && crk[p] > ah {
        lemma_scan_down(crk, p - 1, ah);
    }
}

/// A scan up from `p0` stops at `p` when the values from `p0` up to `p` are below `al` and `p` is
/// past the column or holds no such value.
pub proof fn lemma_scan_up_stops(crk: Seq<i64>, n: int, p0: int, p: int, al: i64)
    requires
        0 <= p0 <= p <= n <= crk.len(),
        forall|i: int| p0 <= i < p ==> #[trigger] crk[i] < al,
        p < n ==> crk[p] >= al,
    ensures
        scan_up(crk, n, p0, al) == p,
    decreases p - p0,
{
    if p0 < p {
        lemma_scan_up_stops(crk, n, p0 + 1, p, al);
    }
}

/// A scan down from `p0` stops at `p` when the values after `p` up to `p0` are above `ah` and `p`
/// is 0 or holds no such value.
pub proof fn lemma_scan_down_stops(crk: Seq<i64>, p0: int, p: int, ah: i64)
    requires
        0 <= p <= p0 < crk.len(),
        forall|i: int| p < i <= p0 ==> #[trigger] crk[i] > ah,
        p > 0 ==> crk[p] <= ah,
    ensures
        scan_down(crk, p0, ah) == p,
    decreases p0 - p,
{
    if p < p0 {
        lemma_scan_down_stops(crk, p0 - 1, p, ah);
    }
}

/// The three-way crack as the swap loop of `crack_in_three_loop` runs it, from the state with
/// `pl`, `pi` and `ph` at the first position not below the range, the scanned position and the
/// last position not above it: the cracked column and base rows after it, and where it leaves
/// the three positions, or `None` where a scan would leave the column.
pub open spec fn crack3(crk: Seq<i64>, base: Seq<usize>, pl: int, pi: int, ph: int, al: i64, ah: i64) -> (Seq<i64>, Seq<usize>, Option<(int, int, int)>)
    decreases (crk.len() + 1 - pi) + (crk.len() - pl) + (ph + 1),
{
    let n = crk.len() as int;
    if !(0 <= pl <= pi <= n && pl < n && -1 <= ph < n && base.len() == n) {
        (crk, base, None)
    } else if pi > ph {
        (crk, base, Some((pl, pi, ph)))
    } else if crk[pi] < al {
        let c2 = swapped(crk, pl, pi);
        let b2 = swapped(base, pl, pi);
        let pl2 = scan_up(c2, n, pl, al);
        if pl2 >= n {
            (c2, b2, None)
        } else {
            proof {
                lemma_scan_up(c2, n, pl, al);
            }
            crack3(c2, b2, pl2, if pi < pl2 { pl2 } else { pi }, ph, al, ah)
        }
    } else if crk[pi] > ah {
        let c2 = swapped(crk, pi, ph);
        let b2 = swapped(base, pi, ph);
        let ph2 = scan_down(c2, ph, ah);
        proof {
            lemma_scan_down(c2, ph, ah);
        }
        if c2[ph2] > ah {
            (c2, b2, None)
        } else {
            crack3(c2, b2, pl, pi, ph2, al, ah)
        }
    } else {
        crack3(crk, base, pl, pi + 1, ph, al, ah)
    }
}

/// The three-way crack of a compacted cracker column as the swap loop of
/// `crack_in_three_loop_ofs` runs it: as `crack3`, but each exchange of two positions exchanges
/// the base-row indices at their offsets `ofs`.
pub open spec fn crack3_ofs(crk: Seq<i64>, base: Seq<usize>, ofs: Seq<usize>, pl: int, pi: int, ph: int, al: i64, ah: i64) -> (Seq<i64>, Seq<usize>, Option<(int, int, int)>)
    decreases (crk.len() + 1 - pi) + (crk.len() - pl) + (ph + 1),
{
    let n = crk.len() as int;
    if !(0 <= pl <= pi <= n && pl < n && -1 <= ph < n) {
        (crk, base, None)
    } else if pi > ph {
        (crk, base, Some((pl, pi, ph)))
    } else if crk[pi] < al {
        let c2 = swapped(crk, pl, pi);
        let b2 = swapped(base, ofs[pl] as int, ofs[pi] as int);
        let pl2 = scan_up(c2, n, pl, al);
        if pl2 >= n {
            (c2, b2, None)
        } else {
            proof {
                lemma_scan_up(c2, n, pl, al);
            }
            crack3_ofs(c2, b2, ofs, pl2, if pi < pl2 { pl2 } else { pi }, ph, al, ah)
        }
    } else if crk[pi] > ah {
        let c2 = swapped(crk, pi, ph);
        let b2 = swapped(base, ofs[pi] as int, ofs[ph] as int);
        let ph2 = scan_down(c2, ph, ah);
        proof {
            lemma_scan_down(c2, ph, ah);
        }
        if c2[ph2] > ah {
            (c2, b2, None)
        } else {
            crack3_ofs(c2, b2, ofs, pl, pi, ph2, al, ah)
        }
    } else {
        crack3_ofs(crk, base, ofs, pl, pi + 1, ph, al, ah)
    }
}

/// `r` is `Some` exactly where `s` is, with the same three positions.
pub open spec fn same_triple(r: Option<(usize, usize, usize)>, s: Option<(int, int, int)>) -> bool {
    match r {
        Some((a, b, h)) => s == Some((a as int, b as int, h as int)),
        None => s is None,
    }
}

/// The state kept by the main loop of `crack_in_three_loop`.
#[verifier::opaque]
spec fn scan_inv(
    crk: Seq<i64>,
    base: Seq<usize>,
    crk0: Seq<i64>,
    base0: Seq<usize>,
    v: Seq<i64>,
    p_low0: int,
    p_high0: int,
    al: i64,
    ah: i64,
    p_low: int,
    p_itr: int,
    p_high: int,
) -> bool {
    let n = crk0.len();
    let disj = disjoint(al, ah);
    &&& n == crk.len()
    &&& n == base.len()
    &&& 0 <= p_low0 <= p_high0 < n
    &&& aligned(crk, base, v)
    &&& distinct(base)
    &&& same_outside(crk, crk0, p_low0, p_high0)
    &&& same_outside(base, base0, p_low0, p_high0)
    &&& from_region(crk, crk0, p_low0, p_high0)
    &&& p_low0 <= p_low <= p_itr <= n
    &&& p_low < n
    &&& 0 <= p_high <= p_high0
    &&& forall|i: int| p_low0 <= i < p_low ==> c_low(#[trigger] crk[i], al as int)
    &&& forall|i: int| p_low <= i < p_itr ==> in_range(#[trigger] crk[i], al as int, ah as int)
    &&& forall|i: int| p_high < i <= p_high0 ==> c_high(#[trigger] crk[i], ah as int)
    &&& disj ==> p_itr <= p_high + 1
    &&& disj && p_itr <= p_high ==> !c_high(crk[p_high], ah as int)
    &&& disj ==> exists|j: int| p_low <= j <= p_high0 && !c_low(#[trigger] crk[j], al as int)
}

proof fn lemma_scan_inv_facts(
    crk: Seq<i64>,
    base: Seq<usize>,
    crk0: Seq<i64>,
    base0: Seq<usize>,
    v: Seq<i64>,
    p_low0: int,
    p_high0: int,
    al: i64,
    ah: i64,
    p_low: int,
    p_itr: int,
    p_high: int,
)
    requires
        scan_inv(crk, base, crk0, base0, v, p_low0, p_high0, al, ah, p_low, p_itr, p_high),
    ensures
        crk.len() == crk0.len(),
        base.len() == crk0.len(),
        p_low <= p_itr <= crk.len(),
        p_high <= p_high0 < crk.len(),
        p_low < crk.len(),
        aligned(crk, base, v),
        distinct(base),
        same_outside(crk, crk0, p_low0, p_high0),
        same_outside(base, base0, p_low0, p_high0),
        from_region(crk, crk0, p_low0, p_high0),
        p_itr > p_high ==> three_way(crk, p_low0, p_high0, al, ah, p_low, p_itr, p_high),
{
    reveal(scan_inv);
    if p_itr > p_high && disjoint(al, ah) {
        let j = choose|j: int| p_low <= j <= p_high0 && !c_low(#[trigger] crk[j], al as int);
    }
}

/// One step of the main loop for a value below the range at `p_itr`: it goes to `p_low`, and
/// `p_low` moves past the values below the range.
fn scan_low_step(
    crk: &mut Vec<i64>,
    base: &mut Vec<usize>,
    p_low0: usize,
    p_high0: usize,
    al: i64,
    ah: i64,
    p_low: usize,
    p_itr: usize,
    p_high: usize,
    Ghost(crk0): Ghost<Seq<i64>>,
    Ghost(base0): Ghost<Seq<usize>>,
    Ghost(v): Ghost<Seq<i64>>,
) -> (r: Option<(usize, usize)>)
    requires
        scan_inv(old(crk)@, old(base)@, crk0, base0, v, p_low0 as int, p_high0 as int, al, ah, p_low as int, p_itr as int, p_high as int),
        p_itr <= p_high,
        c_low(old(crk)@[p_itr as int], al as int),
    ensures
        aligned(final(crk)@, final(base)@, v),
        distinct(final(base)@),
        same_outside(final(crk)@, crk0, p_low0 as int, p_high0 as int),
        same_outside(final(base)@, base0, p_low0 as int, p_high0 as int),
        from_region(final(crk)@, crk0, p_low0 as int, p_high0 as int),
        disjoint(al, ah) ==> r is Some,
        r is Some ==> r.unwrap().0 > p_low,
        r is Some ==> r.unwrap().1 >= p_itr,
        r is Some ==> scan_inv(final(crk)@, final(base)@, crk0, base0, v, p_low0 as int, p_high0 as int, al, ah, r.unwrap().0 as int, r.unwrap().1 as int, p_high as int),
        forall|k: int, p: int| al < k && #[trigger] splits_at(old(crk)@, k, p) ==> splits_at(final(crk)@, k, p),
        forall|k: int, p: int| al < k && #[trigger] splits_from(old(crk)@, k, p) ==> splits_from(final(crk)@, k, p),
        final(crk)@ == swapped(old(crk)@, p_low as int, p_itr as int),
        final(base)@ == swapped(old(base)@, p_low as int, p_itr as int),
        r is None <==> scan_up(final(crk)@, old(crk)@.len() as int, p_low as int, al) >= old(crk)@.len(),
        r matches Some((l, i)) ==> l == scan_up(final(crk)@, old(crk)@.len() as int, p_low as int, al)
            && i == (if p_itr < l { l } else { p_itr }),
{
    let n = crk.len();
    let ghost disj = disjoint(al, ah);
    proof {
        reveal(scan_inv);
        assert forall|k: int, p: int| al < k && #[trigger] splits_at(crk@, k, p) implies splits_at(swapped(crk@, p_low as int, p_itr as int), k, p) by {
            lemma_swap_low_splits(crk@, p_low as int, p_itr as int, k, p);
        }
        assert forall|k: int, p: int| al < k && #[trigger] splits_from(crk@, k, p) implies splits_from(swapped(crk@, p_low as int, p_itr as int), k, p) by {
            lemma_swap_low_splits_from(crk@, p_low as int, p_itr as int, k, p);
        }
        lemma_swap_keeps_alignment(crk@, base@, v, p_low as int, p_itr as int);
        lemma_swap_in_region(crk@, crk0, p_low0 as int, p_high0 as int, p_low as int, p_itr as int);
        lemma_swap_same_outside(base@, base0, p_low0 as int, p_high0 as int, p_low as int, p_itr as int);
    }
    let ghost pre = crk@;
    let ghost pre_low = p_low;
    swap_rows(crk, base, p_low, p_itr);
    proof {
        if disj {
            let j = choose|j: int| pre_low <= j <= p_high0 && !c_low(#[trigger] pre[j], al as int);
            if pre_low < p_itr {
                assert(!c_low(crk@[p_itr as int], al as int));
            } else {
                assert(j != p_itr);
                assert(crk@[j] == pre[j]);
            }
        }
    }
    let mut p_low = p_low;
    while p_low < n && crk[p_low] < al
        invariant
            n == crk@.len(),
            pre_low <= p_low <= n,
            p_low0 <= pre_low,
            p_itr < n,
            crk@ == swapped(pre, pre_low as int, p_itr as int),
            scan_up(crk@, n as int, p_low as int, al) == scan_up(crk@, n as int, pre_low as int, al),
            forall|i: int| p_low0 <= i < p_low ==> c_low(#[trigger] crk@[i], al as int),
            pre_low < p_itr ==> forall|i: int| pre_low < i <= p_itr ==> in_range(#[trigger] crk@[i], al as int, ah as int),
            pre_low < p_itr ==> p_low <= pre_low + 1,
            disj ==> exists|j: int| p_low <= j <= p_high0 && !c_low(#[trigger] crk@[j], al as int),
            p_itr <= p_high <= p_high0 < n,
            forall|i: int| p_high < i <= p_high0 ==> c_high(#[trigger] crk@[i], ah as int),
            disj ==> p_low <= p_high + 1,
            disj == disjoint(al, ah),
        decreases n - p_low,
    {
        proof {
            if disj {
                let j = choose|j: int| p_low <= j <= p_high0 && !c_low(#[trigger] crk@[j], al as int);
                assert(j != p_low);
            }
        }
        p_low += 1;
    }
    if p_low >= n {
        return None;
    }
    assert(p_low > pre_low);
    let p_itr2 = if p_itr < p_low { p_low } else { p_itr };
    proof {
        reveal(scan_inv);
        if disj && p_itr2 <= p_high {
            if p_high == p_itr {
                if pre_low < p_itr {
                    assert(in_range(crk@[p_itr as int], al as int, ah as int));
                } else {
                    assert(c_low(crk@[p_itr as int], al as int));
                }
            }
            assert(!c_high(crk@[p_high as int], ah as int));
        }
    }
    Some((p_low, p_itr2))
}

/// One step of the main loop for a value above the range at `p_itr`: it goes to `p_high`, and
/// `p_high` moves back past the values above the range.
fn scan_high_step(
    crk: &mut Vec<i64>,
    base: &mut Vec<usize>,
    p_low0: usize,
    p_high0: usize,
    al: i64,
    ah: i64,
    p_low: usize,
    p_itr: usize,
    p_high: usize,
    Ghost(crk0): Ghost<Seq<i64>>,
    Ghost(base0): Ghost<Seq<usize>>,
    Ghost(v): Ghost<Seq<i64>>,
) -> (r: Option<usize>)
    requires
        scan_inv(old(crk)@, old(base)@, crk0, base0, v, p_low0 as int, p_high0 as int, al, ah, p_low as int, p_itr as int, p_high as int),
        p_itr <= p_high,
        !c_low(old(crk)@[p_itr as int], al as int),
        c_high(old(crk)@[p_itr as int], ah as int),
    ensures
        aligned(final(crk)@, final(base)@, v),
        distinct(final(base)@),
        same_outside(final(crk)@, crk0, p_low0 as int, p_high0 as int),
        same_outside(final(base)@, base0, p_low0 as int, p_high0 as int),
        from_region(final(crk)@, crk0, p_low0 as int, p_high0 as int),
        disjoint(al, ah) ==> r is Some,
        r is Some ==> r.unwrap() < p_high,
        r is Some ==> scan_inv(final(crk)@, final(base)@, crk0, base0, v, p_low0 as int, p_high0 as int, al, ah, p_low as int, p_itr as int, r.unwrap() as int),
        forall|k: int, p: int| k <= ah + 1 && #[trigger] splits_at(old(crk)@, k, p) ==> splits_at(final(crk)@, k, p),
        forall|k: int, p: int| k <= ah + 1 && #[trigger] splits_from(old(crk)@, k, p) ==> splits_from(final(crk)@, k, p),
        final(crk)@ == swapped(old(crk)@, p_itr as int, p_high as int),
        final(base)@ == swapped(old(base)@, p_itr as int, p_high as int),
        r is None <==> final(crk)@[scan_down(final(crk)@, p_high as int, ah)] > ah,
        r matches Some(h) ==> h == scan_down(final(crk)@, p_high as int, ah),
{
    let n = crk.len();
    let ghost disj = disjoint(al, ah);
    proof {
        reveal(scan_inv);
        assert forall|k: int, p: int| k <= ah + 1 && #[trigger] splits_at(crk@, k, p) implies splits_at(swapped(crk@, p_itr as int, p_high as int), k, p) by {
            lemma_swap_high_splits(crk@, p_itr as int, p_high as int, k, p);
        }
        assert forall|k: int, p: int| k <= ah + 1 && #[trigger] splits_from(crk@, k, p) implies splits_from(swapped(crk@, p_itr as int, p_high as int), k, p) by {
            lemma_swap_high_splits_from(crk@, p_itr as int, p_high as int, k, p);
        }
        lemma_swap_keeps_alignment(crk@, base@, v, p_itr as int, p_high as int);
        lemma_swap_in_region(crk@, crk0, p_low0 as int, p_high0 as int, p_itr as int, p_high as int);
        lemma_swap_same_outside(base@, base0, p_low0 as int, p_high0 as int, p_itr as int, p_high as int);
    }
    let ghost pre = crk@;
    let ghost pre_high = p_high;
    swap_rows(crk, base, p_itr, p_high);
    proof {
        if disj {
            assert(p_itr < pre_high);
            assert(!c_low(crk@[pre_high as int], al as int));
        }
    }
    let mut p_high = p_high;
    while p_high > 0 && crk[p_high] > ah
        invariant
            n == crk@.len(),
            p_high <= pre_high,
            pre_high <= p_high0 < n,
            p_itr <= pre_high,
            crk@ == swapped(pre, p_itr as int, pre_high as int),
            scan_down(crk@, p_high as int, ah) == scan_down(crk@, pre_high as int, ah),
            forall|i: int| p_high < i <= p_high0 ==> c_high(#[trigger] crk@[i], ah as int),
            disj ==> !c_high(crk@[p_itr as int], ah as int),
            disj ==> p_itr <= p_high,
        decreases p_high,
    {
        p_high -= 1;
    }
    if crk[p_high] > ah {
        return None;
    }
    proof {
        reveal(scan_inv);
        if disj {
            assert(!c_low(crk@[pre_high as int], al as int));
            assert(p_low <= pre_high);
        }
    }
    Some(p_high)
}

/// Partitions positions `p_low0..=p_high0` of the cracker column around `al..=ah`, moving the
/// base-row indices along. On return `(a, b, h)`, positions from `p_low0` up to `a` hold values
/// below the range, `a` up to `b` values inside it, and after `h` up to `p_high0` values above
/// it. `None` stands for the states in which a scan would leave the column.
pub fn crack_in_three_loop(
    crk: &mut Vec<i64>,
    base: &mut Vec<usize>,
    p_low0: usize,
    p_high0: usize,
    al: i64,
    ah: i64,
    Ghost(v): Ghost<Seq<i64>>,
) -> (r: Option<(usize, usize, usize)>)
    requires
        old(crk).len() == old(base).len(),
        p_low0 <= p_high0 < old(crk).len(),
        !c_low(old(crk)@[p_low0 as int], al as int),
        !c_high(old(crk)@[p_high0 as int], ah as int),
        aligned(old(crk)@, old(base)@, v),
        distinct(old(base)@),
    ensures
        aligned(final(crk)@, final(base)@, v),
        distinct(final(base)@),
        same_outside(final(crk)@, old(crk)@, p_low0 as int, p_high0 as int),
        same_outside(final(base)@, old(base)@, p_low0 as int, p_high0 as int),
        from_region(final(crk)@, old(crk)@, p_low0 as int, p_high0 as int),
        disjoint(al, ah) ==> r is Some,
        r matches Some((a, b, h)) ==> three_way(final(crk)@, p_low0 as int, p_high0 as int, al, ah, a as int, b as int, h as int),
        forall|k: int, p: int| al < k <= ah + 1 && #[trigger] splits_at(old(crk)@, k, p) ==> splits_at(final(crk)@, k, p),
        forall|k: int, p: int| al < k <= ah + 1 && #[trigger] splits_from(old(crk)@, k, p) ==> splits_from(final(crk)@, k, p),
        ({
            let (c, b, res) = crack3(old(crk)@, old(base)@, p_low0 as int, p_low0 as int, p_high0 as int, al, ah);
            final(crk)@ == c && final(base)@ == b && same_triple(r, res)
        }),
{
    let ghost crk0 = crk@;
    let ghost base0 = base@;
    let ghost goal = crack3(crk0, base0, p_low0 as int, p_low0 as int, p_high0 as int, al, ah);
    let n = crk.len();
    let mut p_low = p_low0;
    let mut p_high = p_high0;
    let mut p_itr = p_low;
    proof {
        assert forall|x: int| p_low0 <= x <= p_high0 implies exists|y: int| p_low0 <= y <= p_high0 && #[trigger] crk@[x] == #[trigger] crk0[y] by {
            assert(crk@[x] == crk0[x]);
        }
        if disjoint(al, ah) {
            assert(!c_low(crk@[p_low0 as int], al as int));
        }
        reveal(scan_inv);
    }
    while p_itr <= p_high
        invariant
            crk0 == old(crk)@,
            base0 == old(base)@,
            n == crk0.len(),
            scan_inv(crk@, base@, crk0, base0, v, p_low0 as int, p_high0 as int, al, ah, p_low as int, p_itr as int, p_high as int),
            forall|k: int, p: int| al < k <= ah + 1 && #[trigger] splits_at(crk0, k, p) ==> splits_at(crk@, k, p),
            forall|k: int, p: int| al < k <= ah + 1 && #[trigger] splits_from(crk0, k, p) ==> splits_from(crk@, k, p),
            crack3(crk@, base@, p_low as int, p_itr as int, p_high as int, al, ah) == goal,
            goal == crack3(crk0, base0, p_low0 as int, p_low0 as int, p_high0 as int, al, ah),
        decreases (old(crk)@.len() + 1 - p_itr) + (old(crk)@.len() - p_low) + (p_high + 1),
    {
        proof {
            lemma_scan_inv_facts(crk@, base@, crk0, base0, v, p_low0 as int, p_high0 as int, al, ah, p_low as int, p_itr as int, p_high as int);
        }
        if crk[p_itr] < al {
            match scan_low_step(crk, base, p_low0, p_high0, al, ah, p_low, p_itr, p_high, Ghost(crk0), Ghost(base0), Ghost(v)) {
                Some((l, i)) => {
                    p_low = l;
                    p_itr = i;
                    proof {
                        lemma_scan_inv_facts(crk@, base@, crk0, base0, v, p_low0 as int, p_high0 as int, al, ah, p_low as int, p_itr as int, p_high as int);
                    }
                },
                None => {
                    proof {
                        assert(goal.2 is None);
                    }
                    return None;
                },
            }
        } else if crk[p_itr] > ah {
            match scan_high_step(crk, base, p_low0, p_high0, al, ah, p_low, p_itr, p_high, Ghost(crk0), Ghost(base0), Ghost(v)) {
                Some(h) => {
                    p_high = h;
                    proof {
                        lemma_scan_inv_facts(crk@, base@, crk0, base0, v, p_low0 as int, p_high0 as int, al, ah, p_low as int, p_itr as int, p_high as int);
                    }
                },
                None => {
                    proof {
                        assert(goal.2 is None);
                    }
                    return None;
                },
            }
        } else {
            proof {
                reveal(scan_inv);
            }
            p_itr += 1;
        }
    }
    proof {
        lemma_scan_inv_facts(crk@, base@, crk0, base0, v, p_low0 as int, p_high0 as int, al, ah, p_low as int, p_itr as int, p_high as int);
    }
    Some((p_low, p_itr, p_high))
}

/// Partitions positions `p_low0..=p_high0` of a cracker column (and its base-row indices
/// alongside) in two: the values below `am` first, then the others. Returns where the second
/// part starts. The ends of the region must already be on the wrong sides.
pub fn crack_in_two_loop(
    crk: &mut Vec<i64>,
    base: &mut Vec<usize>,
    p_low0: usize,
    p_high0: usize,
    am: i64,
    Ghost(v): Ghost<Seq<i64>>,
) -> (p: usize)
    requires
        old(crk).len() == old(base).len(),
        p_low0 <= p_high0 < old(crk).len(),
        old(crk)@[p_low0 as int] >= am,
        old(crk)@[p_high0 as int] < am,
        aligned(old(crk)@, old(base)@, v),
        distinct(old(base)@),
    ensures
        aligned(final(crk)@, final(base)@, v),
        distinct(final(base)@),
        same_outside(final(crk)@, old(crk)@, p_low0 as int, p_high0 as int),
        same_outside(final(base)@, old(base)@, p_low0 as int, p_high0 as int),
        from_region(final(crk)@, old(crk)@, p_low0 as int, p_high0 as int),
        p_low0 <= p <= p_high0,
        forall|i: int| p_low0 <= i < p ==> #[trigger] final(crk)@[i] < am,
        forall|i: int| p <= i <= p_high0 ==> #[trigger] final(crk)@[i] >= am,
{
    let ghost crk0 = crk@;
    let ghost base0 = base@;
    let mut p_low = p_low0;
    let mut p_high = p_high0;
    proof {
        assert forall|x: int| p_low0 <= x <= p_high0 implies exists|y: int| p_low0 <= y <= p_high0 && #[trigger] crk@[x] == #[trigger] crk0[y] by {
            assert(crk@[x] == crk0[x]);
        }
    }
    while p_low <= p_high
        invariant
            crk0 == old(crk)@,
            base0 == old(base)@,
            crk@.len() == crk0.len(),
            base@.len() == crk0.len(),
            p_high0 < crk0.len(),
            aligned(crk@, base@, v),
            distinct(base@),
            same_outside(crk@, crk0, p_low0 as int, p_high0 as int),
            same_outside(base@, base0, p_low0 as int, p_high0 as int),
            from_region(crk@, crk0, p_low0 as int, p_high0 as int),
            p_low0 <= p_low <= p_high0,
            p_high <= p_high0,
            p_low <= p_high + 1,
            p_high < p_high0 || p_low <= p_high,
            p_low <= p_high ==> crk@[p_low as int] >= am && crk@[p_high as int] < am,
            forall|i: int| p_low0 <= i < p_low ==> #[trigger] crk@[i] < am,
            forall|i: int| p_high < i <= p_high0 ==> #[trigger] crk@[i] >= am,
        decreases p_high + 1 - p_low,
    {
        let ghost c1 = crk@;
        let ghost b1 = base@;
        proof {
            lemma_swap_keeps_alignment(c1, b1, v, p_low as int, p_high as int);
            lemma_swap_in_region(c1, crk0, p_low0 as int, p_high0 as int, p_low as int, p_high as int);
            lemma_swap_same_outside(b1, base0, p_low0 as int, p_high0 as int, p_low as int, p_high as int);
        }
        swap_rows(crk, base, p_low, p_high);
        let ghost top = p_high;
        assert(crk@[p_low as int] < am);
        assert(crk@[top as int] >= am);
        while crk[p_low] < am
            invariant
                crk@.len() == crk0.len(),
                p_low0 <= p_low <= top <= p_high0 < crk0.len(),
                crk@[top as int] >= am,
                forall|i: int| p_low0 <= i < p_low ==> #[trigger] crk@[i] < am,
            decreases top - p_low,
        {
            p_low += 1;
        }
        assert(crk@[p_low as int - 1] < am);
        while crk[p_high] >= am
            invariant
                crk@.len() == crk0.len(),
                p_low0 < p_low <= top,
                p_low - 1 <= p_high <= top <= p_high0 < crk0.len(),
                crk@[p_low - 1] < am,
                forall|i: int| p_high < i <= p_high0 ==> #[trigger] crk@[i] >= am,
            decreases p_high,
        {
            p_high -= 1;
        }
    }
    p_low
}

/// Exchanging two entries keeps the entries distinct.
pub proof fn lemma_swap_keeps_distinct(base: Seq<usize>, i: int, j: int)
    requires
        distinct(base),
        0 <= i < base.len(),
        0 <= j < base.len(),
    ensures
        distinct(swapped(base, i, j)),
        swapped(base, i, j).len() == base.len(),
{
    let b2 = swapped(base, i, j);
    assert forall|x: int, y: int| 0 <= x < b2.len() && 0 <= y < b2.len() && x != y implies #[trigger] b2[x] != #[trigger] b2[y] by {
        lemma_swapped_at(base, i, j, x);
        lemma_swapped_at(base, i, j, y);
    }
}

/// Exchanging two entries keeps every entry below a bound.
pub proof fn lemma_swap_keeps_below(base: Seq<usize>, i: int, j: int, bound: int)
    requires
        all_below(base, bound),
        0 <= i < base.len(),
        0 <= j < base.len(),
    ensures
        all_below(swapped(base, i, j), bound),
{
    let b2 = swapped(base, i, j);
    assert forall|x: int| 0 <= x < b2.len() implies (#[trigger] b2[x]) < bound by {
        lemma_swapped_at(base, i, j, x);
    }
}

/// The state kept by the main loop of `crack_in_three_loop_ofs`.
#[verifier::opaque]
spec fn scan_inv_ofs(
    crk: Seq<i64>,
    base: Seq<usize>,
    ofs: Seq<usize>,
    crk0: Seq<i64>,
    base0: Seq<usize>,
    p_low0: int,
    p_high0: int,
    al: i64,
    ah: i64,
    p_low: int,
    p_itr: int,
    p_high: int,
) -> bool {
    let n = crk0.len();
    let disj = disjoint(al, ah);
    &&& n == crk.len()
    &&& base.len() == base0.len()
    &&& ofs.len() == n
    &&& forall|i: int| 0 <= i < n ==> (#[trigger] ofs[i]) < base.len()
    &&& 0 <= p_low0 <= p_high0 < n
    &&& distinct(base)
    &&& all_below(base0, base0.len() as int) ==> all_below(base, base0.len() as int)
    &&& same_outside(crk, crk0, p_low0, p_high0)
    &&& from_region(crk, crk0, p_low0, p_high0)
    &&& p_low0 <= p_low <= p_itr <= n
    &&& p_low < n
    &&& 0 <= p_high <= p_high0
    &&& forall|i: int| p_low0 <= i < p_low ==> c_low(#[trigger] crk[i], al as int)
    &&& forall|i: int| p_low <= i < p_itr ==> in_range(#[trigger] crk[i], al as int, ah as int)
    &&& forall|i: int| p_high < i <= p_high0 ==> c_high(#[trigger] crk[i], ah as int)
    &&& disj ==> p_itr <= p_high + 1
    &&& disj && p_itr <= p_high ==> !c_high(crk[p_high], ah as int)
    &&& disj ==> exists|j: int| p_low <= j <= p_high0 && !c_low(#[trigger] crk[j], al as int)
}

proof fn lemma_scan_inv_ofs_facts(
    crk: Seq<i64>,
    base: Seq<usize>,
    ofs: Seq<usize>,
    crk0: Seq<i64>,
    base0: Seq<usize>,
    p_low0: int,
    p_high0: int,
    al: i64,
    ah: i64,
    p_low: int,
    p_itr: int,
    p_high: int,
)
    requires
        scan_inv_ofs(crk, base, ofs, crk0, base0, p_low0, p_high0, al, ah, p_low, p_itr, p_high),
    ensures
        crk.len() == crk0.len(),
        base.len() == base0.len(),
        ofs.len() == crk0.len(),
        forall|i: int| 0 <= i < crk0.len() ==> (#[trigger] ofs[i]) < base.len(),
        p_low <= p_itr <= crk.len(),
        p_high <= p_high0 < crk.len(),
        p_low < crk.len(),
        0 <= p_low0 <= p_low,
        distinct(base),
        all_below(base0, base0.len() as int) ==> all_below(base, base0.len() as int),
        same_outside(crk, crk0, p_low0, p_high0),
        from_region(crk, crk0, p_low0, p_high0),
        p_itr > p_high ==> three_way(crk, p_low0, p_high0, al, ah, p_low, p_itr, p_high),
{
    reveal(scan_inv_ofs);
    if p_itr > p_high && disjoint(al, ah) {
        let j = choose|j: int| p_low <= j <= p_high0 && !c_low(#[trigger] crk[j], al as int);
    }
}

/// One step of the main loop for a value below the range at `p_itr`: it goes to `p_low`, and
/// `p_low` moves past the values below the range.
fn scan_low_step_ofs(
    crk: &mut Vec<i64>,
    base: &mut Vec<usize>,
    ofs: &Vec<usize>,
    p_low0: usize,
    p_high0: usize,
    al: i64,
    ah: i64,
    p_low: usize,
    p_itr: usize,
    p_high: usize,
    Ghost(crk0): Ghost<Seq<i64>>,
    Ghost(base0): Ghost<Seq<usize>>,
) -> (r: Option<(usize, usize)>)
    requires
        scan_inv_ofs(old(crk)@, old(base)@, ofs@, crk0, base0, p_low0 as int, p_high0 as int, al, ah, p_low as int, p_itr as int, p_high as int),
        p_itr <= p_high,
        c_low(old(crk)@[p_itr as int], al as int),
    ensures
        distinct(final(base)@),
        final(base)@.len() == base0.len(),
        all_below(base0, base0.len() as int) ==> all_below(final(base)@, base0.len() as int),
        same_outside(final(crk)@, crk0, p_low0 as int, p_high0 as int),
        from_region(final(crk)@, crk0, p_low0 as int, p_high0 as int),
        disjoint(al, ah) ==> r is Some,
        final(crk)@ == swapped(old(crk)@, p_low as int, p_itr as int),
        final(base)@ == swapped(old(base)@, ofs@[p_low as int] as int, ofs@[p_itr as int] as int),
        r is None <==> scan_up(final(crk)@, old(crk)@.len() as int, p_low as int, al) >= old(crk)@.len(),
        r matches Some((l, i)) ==> l == scan_up(final(crk)@, old(crk)@.len() as int, p_low as int, al)
            && i == (if p_itr < l { l } else { p_itr }),
        r is Some ==> r.unwrap().0 > p_low,
        r is Some ==> r.unwrap().1 >= p_itr,
        r is Some ==> scan_inv_ofs(final(crk)@, final(base)@, ofs@, crk0, base0, p_low0 as int, p_high0 as int, al, ah, r.unwrap().0 as int, r.unwrap().1 as int, p_high as int),
{
    let n = crk.len();
    let ghost disj = disjoint(al, ah);
    proof {
        reveal(scan_inv_ofs);
        lemma_swap_keeps_distinct(base@, ofs@[p_low as int] as int, ofs@[p_itr as int] as int);
        if all_below(base0, base0.len() as int) {
            lemma_swap_keeps_below(base@, ofs@[p_low as int] as int, ofs@[p_itr as int] as int, base0.len() as int);
        }
        lemma_swap_in_region(crk@, crk0, p_low0 as int, p_high0 as int, p_low as int, p_itr as int);
    }
    let ghost pre = crk@;
    let ghost pre_low = p_low;
    swap_entries(crk, p_low, p_itr);
    let o_low = ofs[p_low];
    let o_itr = ofs[p_itr];
    swap_entries(base, o_low, o_itr);
    proof {
        if disj {
            let j = choose|j: int| pre_low <= j <= p_high0 && !c_low(#[trigger] pre[j], al as int);
            if pre_low < p_itr {
                assert(!c_low(crk@[p_itr as int], al as int));
            } else {
                assert(j != p_itr);
                assert(crk@[j] == pre[j]);
            }
        }
    }
    let mut p_low = p_low;
    while p_low < n && crk[p_low] < al
        invariant
            n == crk@.len(),
            pre_low <= p_low <= n,
            p_low0 <= pre_low,
            p_itr < n,
            crk@ == swapped(pre, pre_low as int, p_itr as int),
            scan_up(crk@, n as int, p_low as int, al) == scan_up(crk@, n as int, pre_low as int, al),
            forall|i: int| p_low0 <= i < p_low ==> c_low(#[trigger] crk@[i], al as int),
            pre_low < p_itr ==> forall|i: int| pre_low < i <= p_itr ==> in_range(#[trigger] crk@[i], al as int, ah as int),
            pre_low < p_itr ==> p_low <= pre_low + 1,
            disj ==> exists|j: int| p_low <= j <= p_high0 && !c_low(#[trigger] crk@[j], al as int),
            p_itr <= p_high <= p_high0 < n,
            forall|i: int| p_high < i <= p_high0 ==> c_high(#[trigger] crk@[i], ah as int),
            disj ==> p_low <= p_high + 1,
            disj == disjoint(al, ah),
        decreases n - p_low,
    {
        proof {
            if disj {
                let j = choose|j: int| p_low <= j <= p_high0 && !c_low(#[trigger] crk@[j], al as int);
                assert(j != p_low);
            }
        }
        p_low += 1;
    }
    if p_low >= n {
        return None;
    }
    assert(p_low > pre_low);
    let p_itr2 = if p_itr < p_low { p_low } else { p_itr };
    proof {
        reveal(scan_inv_ofs);
        if disj && p_itr2 <= p_high {
            if p_high == p_itr {
                if pre_low < p_itr {
                    assert(in_range(crk@[p_itr as int], al as int, ah as int));
                } else {
                    assert(c_low(crk@[p_itr as int], al as int));
                }
            }
            assert(!c_high(crk@[p_high as int], ah as int));
        }
    }
    Some((p_low, p_itr2))
}

/// One step of the main loop for a value above the range at `p_itr`: it goes to `p_high`, and
/// `p_high` moves back past the values above the range.
fn scan_high_step_ofs(
    crk: &mut Vec<i64>,
    base: &mut Vec<usize>,
    ofs: &Vec<usize>,
    p_low0: usize,
    p_high0: usize,
    al: i64,
    ah: i64,
    p_low: usize,
    p_itr: usize,
    p_high: usize,
    Ghost(crk0): Ghost<Seq<i64>>,
    Ghost(base0): Ghost<Seq<usize>>,
) -> (r: Option<usize>)
    requires
        scan_inv_ofs(old(crk)@, old(base)@, ofs@, crk0, base0, p_low0 as int, p_high0 as int, al, ah, p_low as int, p_itr as int, p_high as int),
        p_itr <= p_high,
        !c_low(old(crk)@[p_itr as int], al as int),
        c_high(old(crk)@[p_itr as int], ah as int),
    ensures
        distinct(final(base)@),
        final(base)@.len() == base0.len(),
        all_below(base0, base0.len() as int) ==> all_below(final(base)@, base0.len() as int),
        same_outside(final(crk)@, crk0, p_low0 as int, p_high0 as int),
        from_region(final(crk)@, crk0, p_low0 as int, p_high0 as int),
        disjoint(al, ah) ==> r is Some,
        final(crk)@ == swapped(old(crk)@, p_itr as int, p_high as int),
        final(base)@ == swapped(old(base)@, ofs@[p_itr as int] as int, ofs@[p_high as int] as int),
        r is None <==> final(crk)@[scan_down(final(crk)@, p_high as int, ah)] > ah,
        r matches Some(h) ==> h == scan_down(final(crk)@, p_high as int, ah),
        r is Some ==> r.unwrap() < p_high,
        r is Some ==> scan_inv_ofs(final(crk)@, final(base)@, ofs@, crk0, base0, p_low0 as int, p_high0 as int, al, ah, p_low as int, p_itr as int, r.unwrap() as int),
{
    let n = crk.len();
    let ghost disj = disjoint(al, ah);
    proof {
        reveal(scan_inv_ofs);
        lemma_swap_keeps_distinct(base@, ofs@[p_itr as int] as int, ofs@[p_high as int] as int);
        if all_below(base0, base0.len() as int) {
            lemma_swap_keeps_below(base@, ofs@[p_itr as int] as int, ofs@[p_high as int] as int, base0.len() as int);
        }
        lemma_swap_in_region(crk@, crk0, p_low0 as int, p_high0 as int, p_itr as int, p_high as int);
    }
    let ghost pre = crk@;
    let ghost pre_high = p_high;
    swap_entries(crk, p_itr, p_high);
    let o_itr = ofs[p_itr];
    let o_high = ofs[p_high];
    swap_entries(base, o_itr, o_high);
    proof {
        if disj {
            assert(p_itr < pre_high);
            assert(!c_low(crk@[pre_high as int], al as int));
        }
    }
    let mut p_high = p_high;
    while p_high > 0 && crk[p_high] > ah
        invariant
            n == crk@.len(),
            p_high <= pre_high,
            pre_high <= p_high0 < n,
            p_itr <= pre_high,
            crk@ == swapped(pre, p_itr as int, pre_high as int),
            scan_down(crk@, p_high as int, ah) == scan_down(crk@, pre_high as int, ah),
            forall|i: int| p_high < i <= p_high0 ==> c_high(#[trigger] crk@[i], ah as int),
            disj ==> !c_high(crk@[p_itr as int], ah as int),
            disj ==> p_itr <= p_high,
        decreases p_high,
    {
        p_high -= 1;
    }
    if crk[p_high] > ah {
        return None;
    }
    proof {
        reveal(scan_inv_ofs);
        if disj {
            assert(!c_low(crk@[pre_high as int], al as int));
            assert(p_low <= pre_high);
        }
    }
    Some(p_high)
}

/// The first base row at the offset of each position of a compacted cracker column holds that
/// position's value.
pub open spec fn first_rows_hold(crk: Seq<i64>, base: Seq<usize>, ofs: Seq<usize>, v: Seq<i64>) -> bool {
    forall|p: int| 0 <= p < crk.len() ==> #[trigger] first_row_at(crk, base, ofs, v, p)
}

/// The first base row at the offset of position `p` holds the value at `p`.
pub open spec fn first_row_at(crk: Seq<i64>, base: Seq<usize>, ofs: Seq<usize>, v: Seq<i64>, p: int) -> bool {
    base[ofs[p] as int] < v.len() && crk[p] == v[base[ofs[p] as int] as int]
}

/// `j` is the offset of some position.
pub open spec fn at_offset(ofs: Seq<usize>, j: int) -> bool {
    exists|p: int| 0 <= p < ofs.len() && ofs[p] == j
}

/// Exchanging two positions together with the base rows at their offsets keeps the first rows
/// holding their positions' values, and leaves the rows at no offset alone.
proof fn lemma_swap_first_rows(crk: Seq<i64>, base: Seq<usize>, ofs: Seq<usize>, v: Seq<i64>, p: int, q: int)
    requires
        ofs.len() == crk.len(),
        forall|i: int| 0 <= i < ofs.len() ==> (#[trigger] ofs[i]) < base.len(),
        0 <= p < crk.len(),
        0 <= q < crk.len(),
    ensures
        distinct(ofs) && first_rows_hold(crk, base, ofs, v) ==> first_rows_hold(swapped(crk, p, q), swapped(base, ofs[p] as int, ofs[q] as int), ofs, v),
        forall|j: int| 0 <= j < base.len() && !at_offset(ofs, j) ==> #[trigger] swapped(base, ofs[p] as int, ofs[q] as int)[j] == base[j],
{
    let c2 = swapped(crk, p, q);
    let b2 = swapped(base, ofs[p] as int, ofs[q] as int);
    if distinct(ofs) && first_rows_hold(crk, base, ofs, v) {
        assert forall|r: int| 0 <= r < c2.len() implies #[trigger] first_row_at(c2, b2, ofs, v, r) by {
            lemma_swapped_at(crk, p, q, r);
            lemma_swapped_at(base, ofs[p] as int, ofs[q] as int, ofs[r] as int);
            if r != p && r != q {
                assert(ofs[r] != ofs[p] && ofs[r] != ofs[q]);
            }
            let r2 = if r == q { p } else if r == p { q } else { r };
            assert(first_row_at(crk, base, ofs, v, r2));
        }
        assert(c2.len() == crk.len());
        assert(first_rows_hold(c2, b2, ofs, v));
    }
    assert forall|j: int| 0 <= j < base.len() && !at_offset(ofs, j) implies #[trigger] b2[j] == base[j] by {
        lemma_swapped_at(base, ofs[p] as int, ofs[q] as int, j);
        assert(j != ofs[p] as int) by {
            if j == ofs[p] as int {
                assert(at_offset(ofs, j));
            }
        }
        assert(j != ofs[q] as int) by {
            if j == ofs[q] as int {
                assert(at_offset(ofs, j));
            }
        }
    }
}

/// An exchange of the main loop, of a value below the range at `j` with `i` or of a value above
/// it at `i` with `j`, keeps a value above the range in the region and the splits of the column
/// at the keys from `al` to `ah + 1`.
proof fn lemma_step_keeps_region(cur: Seq<i64>, orig: Seq<i64>, lo: int, hi: int, i: int, j: int, al: i64, ah: i64, low: bool)
    requires
        holds_above(orig, lo, hi, ah) ==> holds_above(cur, lo, hi, ah),
        holds_below(orig, lo, hi, al) ==> holds_below(cur, lo, hi, al),
        forall|w: i64| #[trigger] at_most_one(orig, w) ==> at_most_one(cur, w),
        forall|k: int, p: int| al <= k <= ah + 1 && #[trigger] splits_from(orig, k, p) ==> splits_from(cur, k, p),
        0 <= lo <= i <= j <= hi < cur.len(),
        low ==> cur[j] < al,
        !low ==> cur[i] > ah,
    ensures
        holds_above(orig, lo, hi, ah) ==> holds_above(swapped(cur, i, j), lo, hi, ah),
        holds_below(orig, lo, hi, al) ==> holds_below(swapped(cur, i, j), lo, hi, al),
        forall|w: i64| #[trigger] at_most_one(orig, w) ==> at_most_one(swapped(cur, i, j), w),
        forall|k: int, p: int| al <= k <= ah + 1 && #[trigger] splits_from(orig, k, p) ==> splits_from(swapped(cur, i, j), k, p),
{
    if holds_above(orig, lo, hi, ah) {
        lemma_swap_holds_above(cur, lo, hi, i, j, ah);
    }
    if holds_below(orig, lo, hi, al) {
        lemma_swap_holds_below(cur, lo, hi, i, j, al);
    }
    assert forall|w: i64| #[trigger] at_most_one(orig, w) implies at_most_one(swapped(cur, i, j), w) by {
        lemma_swap_at_most_one(cur, i, j, w);
    }
    assert forall|k: int, p: int| al <= k <= ah + 1 && #[trigger] splits_from(orig, k, p) implies splits_from(swapped(cur, i, j), k, p) by {
        if low {
            lemma_swap_low_splits_from(cur, i, j, k, p);
        } else {
            lemma_swap_high_splits_from(cur, i, j, k, p);
        }
    }
}

/// Partitions positions `p_low0..=p_high0` of a compacted cracker column around `al..=ah`; each
/// exchange of two positions exchanges the base-row indices at their offsets. On return `(a, b, h)`, positions from `p_low0` up to `a` hold values
/// below the range, `a` up to `b` values inside it, and after `h` up to `p_high0` values above
/// it. `None` stands for the states in which a scan would leave the column.
#[verifier::rlimit(40)]
pub fn crack_in_three_loop_ofs(
    crk: &mut Vec<i64>,
    base: &mut Vec<usize>,
    ofs: &Vec<usize>,
    p_low0: usize,
    p_high0: usize,
    al: i64,
    ah: i64,
    Ghost(v): Ghost<Seq<i64>>,
) -> (r: Option<(usize, usize, usize)>)
    requires
        ofs@.len() == old(crk)@.len(),
        forall|i: int| 0 <= i < ofs@.len() ==> (#[trigger] ofs@[i]) < old(base)@.len(),
        p_low0 <= p_high0 < old(crk).len(),
        !c_low(old(crk)@[p_low0 as int], al as int),
        !c_high(old(crk)@[p_high0 as int], ah as int),
        distinct(old(base)@),
    ensures
        distinct(final(base)@),
        final(base)@.len() == old(base)@.len(),
        all_below(old(base)@, old(base)@.len() as int) ==> all_below(final(base)@, old(base)@.len() as int),
        same_outside(final(crk)@, old(crk)@, p_low0 as int, p_high0 as int),
        from_region(final(crk)@, old(crk)@, p_low0 as int, p_high0 as int),
        disjoint(al, ah) ==> r is Some,
        r matches Some((a, b, h)) ==> three_way(final(crk)@, p_low0 as int, p_high0 as int, al, ah, a as int, b as int, h as int),
        distinct(ofs@) && first_rows_hold(old(crk)@, old(base)@, ofs@, v) ==> first_rows_hold(final(crk)@, final(base)@, ofs@, v),
        forall|j: int| 0 <= j < old(base)@.len() && !at_offset(ofs@, j) ==> #[trigger] final(base)@[j] == old(base)@[j],
        holds_above(old(crk)@, p_low0 as int, p_high0 as int, ah) ==> holds_above(final(crk)@, p_low0 as int, p_high0 as int, ah),
        holds_below(old(crk)@, p_low0 as int, p_high0 as int, al) ==> holds_below(final(crk)@, p_low0 as int, p_high0 as int, al),
        forall|w: i64| #[trigger] at_most_one(old(crk)@, w) ==> at_most_one(final(crk)@, w),
        forall|k: int, p: int| al <= k <= ah + 1 && #[trigger] splits_from(old(crk)@, k, p) ==> splits_from(final(crk)@, k, p),
        ({
            let (c, b, res) = crack3_ofs(old(crk)@, old(base)@, ofs@, p_low0 as int, p_low0 as int, p_high0 as int, al, ah);
            final(crk)@ == c && final(base)@ == b && same_triple(r, res)
        }),
{
    let ghost crk0 = crk@;
    let ghost base0 = base@;
    let ghost goal = crack3_ofs(crk0, base0, ofs@, p_low0 as int, p_low0 as int, p_high0 as int, al, ah);
    let ghost keep = distinct(ofs@) && first_rows_hold(crk0, base0, ofs@, v);
    let n = crk.len();
    let mut p_low = p_low0;
    let mut p_high = p_high0;
    let mut p_itr = p_low;
    proof {
        assert forall|x: int| p_low0 <= x <= p_high0 implies exists|y: int| p_low0 <= y <= p_high0 && #[trigger] crk@[x] == #[trigger] crk0[y] by {
            assert(crk@[x] == crk0[x]);
        }
        if disjoint(al, ah) {
            assert(!c_low(crk@[p_low0 as int], al as int));
        }
        reveal(scan_inv_ofs);
    }
    while p_itr <= p_high
        invariant
            crk0 == old(crk)@,
            base0 == old(base)@,
            n == crk0.len(),
            scan_inv_ofs(crk@, base@, ofs@, crk0, base0, p_low0 as int, p_high0 as int, al, ah, p_low as int, p_itr as int, p_high as int),
            keep == (distinct(ofs@) && first_rows_hold(crk0, base0, ofs@, v)),
            keep ==> first_rows_hold(crk@, base@, ofs@, v),
            forall|j: int| 0 <= j < base0.len() && !at_offset(ofs@, j) ==> #[trigger] base@[j] == base0[j],
            holds_above(crk0, p_low0 as int, p_high0 as int, ah) ==> holds_above(crk@, p_low0 as int, p_high0 as int, ah),
            holds_below(crk0, p_low0 as int, p_high0 as int, al) ==> holds_below(crk@, p_low0 as int, p_high0 as int, al),
            forall|w: i64| #[trigger] at_most_one(crk0, w) ==> at_most_one(crk@, w),
            forall|k: int, p: int| al <= k <= ah + 1 && #[trigger] splits_from(crk0, k, p) ==> splits_from(crk@, k, p),
            crack3_ofs(crk@, base@, ofs@, p_low as int, p_itr as int, p_high as int, al, ah) == goal,
            goal == crack3_ofs(crk0, base0, ofs@, p_low0 as int, p_low0 as int, p_high0 as int, al, ah),
        decreases (old(crk)@.len() + 1 - p_itr) + (old(crk)@.len() - p_low) + (p_high + 1),
    {
        let ghost crk_b = crk@;
        let ghost base_b = base@;
        proof {
            lemma_scan_inv_ofs_facts(crk@, base@, ofs@, crk0, base0, p_low0 as int, p_high0 as int, al, ah, p_low as int, p_itr as int, p_high as int);
        }
        if crk[p_itr] < al {
            let ghost pl = p_low as int;
            let ghost pi = p_itr as int;
            let step = scan_low_step_ofs(crk, base, ofs, p_low0, p_high0, al, ah, p_low, p_itr, p_high, Ghost(crk0), Ghost(base0));
            proof {
                lemma_swap_first_rows(crk_b, base_b, ofs@, v, pl, pi);
                assert forall|j: int| 0 <= j < base0.len() && !at_offset(ofs@, j) implies #[trigger] base@[j] == base0[j] by {
                    assert(base@[j] == base_b[j]);
                }
                lemma_step_keeps_region(crk_b, crk0, p_low0 as int, p_high0 as int, pl, pi, al, ah, true);
            }
            match step {
                Some((l, i)) => {
                    p_low = l;
                    p_itr = i;
                    proof {
                        lemma_scan_inv_ofs_facts(crk@, base@, ofs@, crk0, base0, p_low0 as int, p_high0 as int, al, ah, p_low as int, p_itr as int, p_high as int);
                    }
                },
                None => {
                    proof {
                        assert(goal.2 is None);
                    }
                    return None;
                },
            }
        } else if crk[p_itr] > ah {
            let ghost pi = p_itr as int;
            let ghost ph = p_high as int;
            let step = scan_high_step_ofs(crk, base, ofs, p_low0, p_high0, al, ah, p_low, p_itr, p_high, Ghost(crk0), Ghost(base0));
            proof {
                lemma_swap_first_rows(crk_b, base_b, ofs@, v, pi, ph);
                assert forall|j: int| 0 <= j < base0.len() && !at_offset(ofs@, j) implies #[trigger] base@[j] == base0[j] by {
                    assert(base@[j] == base_b[j]);
                }
                lemma_step_keeps_region(crk_b, crk0, p_low0 as int, p_high0 as int, pi, ph, al, ah, false);
            }
            match step {
                Some(h) => {
                    p_high = h;
                    proof {
                        lemma_scan_inv_ofs_facts(crk@, base@, ofs@, crk0, base0, p_low0 as int, p_high0 as int, al, ah, p_low as int, p_itr as int, p_high as int);
                    }
                },
                None => {
                    proof {
                        assert(goal.2 is None);
                    }
                    return None;
                },
            }
        } else {
            proof {
                reveal(scan_inv_ofs);
            }
            p_itr += 1;
        }
    }
    proof {
        lemma_scan_inv_ofs_facts(crk@, base@, ofs@, crk0, base0, p_low0 as int, p_high0 as int, al, ah, p_low as int, p_itr as int, p_high as int);
    }
    Some((p_low, p_itr, p_high))
}


/// The entries of `s` at the positions listed in `idx`, in that order.
pub open spec fn gather<T>(s: Seq<T>, idx: Seq<usize>) -> Seq<T> {
    Seq::new(idx.len(), |j: int| s[idx[j] as int])
}

/// Every position listed in `idx` is a position of a sequence of length `len`.
pub open spec fn all_below(idx: Seq<usize>, len: int) -> bool {
    forall|j: int| 0 <= j < idx.len() ==> (#[trigger] idx[j]) < len
}

/// The numbers `0..n`.
pub open spec fn iota_seq(n: nat) -> Seq<usize> {
    Seq::new(n, |i: int| i as usize)
}

/// Copies the entries of `s` at the positions listed in `idx`.
pub fn gather_vec<T: Copy>(s: &Vec<T>, idx: &[usize]) -> (r: Vec<T>)
    requires
        all_below(idx@, s@.len() as int),
    ensures
        r@ == gather(s@, idx@),
{
    let mut r: Vec<T> = Vec::with_capacity(idx.len());
    let mut j: usize = 0;
    while j < idx.len()
        invariant
            j <= idx@.len(),
            all_below(idx@, s@.len() as int),
            r@ == gather(s@, idx@.subrange(0, j as int)),
        decreases idx@.len() - j,
    {
        let i = idx[j];
        r.push(s[i]);
        j += 1;
        proof {
            assert(r@ =~= gather(s@, idx@.subrange(0, j as int)));
        }
    }
    proof {
        assert(idx@.subrange(0, idx@.len() as int) =~= idx@);
    }
    r
}

/// The numbers `0..n` in order.
pub fn iota(n: usize) -> (r: Vec<usize>)
    ensures
        r@ == iota_seq(n as nat),
{
    let mut r: Vec<usize> = Vec::with_capacity(n);
    let mut i: usize = 0;
    while i < n
        invariant
            i <= n,
            r@ == iota_seq(i as nat),
        decreases n - i,
    {
        r.push(i);
        i += 1;
        proof {
            assert(r@ =~= iota_seq(i as nat));
        }
    }
    r
}

/// A copy of `s`.
pub fn copy_vec<T: Copy>(s: &Vec<T>) -> (r: Vec<T>)
    ensures
        r@ == s@,
{
    let mut r: Vec<T> = Vec::with_capacity(s.len());
    let mut i: usize = 0;
    while i < s.len()
        invariant
            i <= s@.len(),
            r@ == s@.subrange(0, i as int),
        decreases s@.len() - i,
    {
        r.push(s[i]);
        i += 1;
        proof {
            assert(r@ =~= s@.subrange(0, i as int));
        }
    }
    proof {
        assert(s@.subrange(0, s@.len() as int) =~= s@);
    }
    r
}

/// A copy of positions `a..b` of `s`.
pub fn copy_range<T: Copy>(s: &Vec<T>, a: usize, b: usize) -> (r: Vec<T>)
    requires
        a <= b <= s@.len(),
    ensures
        r@ == s@.subrange(a as int, b as int),
{
    let mut r: Vec<T> = Vec::with_capacity(b - a);
    let mut i: usize = a;
    while i < b
        invariant
            a <= i <= b <= s@.len(),
            r@ == s@.subrange(a as int, i as int),
        decreases b - i,
    {
        r.push(s[i]);
        i += 1;
        proof {
            assert(r@ =~= s@.subrange(a as int, i as int));
        }
    }
    r
}

/// `s` without its positions `a..b`.
pub open spec fn cut<T>(s: Seq<T>, a: int, b: int) -> Seq<T> {
    s.subrange(0, a) + s.subrange(b, s.len() as int)
}

/// Removes positions `a..b` of a vector, closing the gap.
pub fn cut_range<T: Copy>(v: &mut Vec<T>, a: usize, b: usize)
    requires
        a <= b <= old(v)@.len(),
    ensures
        final(v)@ == cut(old(v)@, a as int, b as int),
{
    let mut r: Vec<T> = copy_range(v, 0, a);
    let mut i: usize = b;
    let ghost head = r@;
    while i < v.len()
        invariant
            b <= i <= v@.len(),
            v@ == old(v)@,
            head == old(v)@.subrange(0, a as int),
            r@ == head + old(v)@.subrange(b as int, i as int),
        decreases v@.len() - i,
    {
        r.push(v[i]);
        i += 1;
        proof {
            assert(r@ =~= head + old(v)@.subrange(b as int, i as int));
        }
    }
    *v = r;
}

} // verus!
