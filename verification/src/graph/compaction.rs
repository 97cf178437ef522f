//! What a compacted cracker column keeps between lookups of single values: the base rows of
//! each position's run hold that position's value, the index splits the column at each key, and
//! a position whose run holds several rows is the whole piece of its value, delimited in the
//! index by that value and the next.

use vstd::prelude::*;
use crate::crack::{cut, same_outside, from_region, first_rows_hold, first_row_at, at_offset, splits_from};
use crate::graph::column::{entry_splits, map_index_valid, map_index_in_bounds};
use crate::graph::cracker_index::{subtract_above, can_subtract_above};
use crate::graph::compactive_compression::{
    offsets_ok, lemma_cut_offsets, compacted, compacted_high, compact_ok,
};

verus! {

/// Where the base rows of position `p` end, for offsets `ofs` into `n` base rows.
pub open spec fn end_at(ofs: Seq<usize>, n: int, p: int) -> int {
    if p >= ofs.len() - 1 { n } else { ofs[p + 1] as int }
}

/// Base row `j` exists and holds the value `x`.
pub open spec fn row_is(base: Seq<usize>, v: Seq<i64>, j: int, x: i64) -> bool {
    &&& 0 <= j < base.len()
    &&& base[j] < v.len()
    &&& v[base[j] as int] == x
}

/// Every base row of the run of each position holds that position's value.
pub open spec fn runs_hold(crk: Seq<i64>, ofs: Seq<usize>, base: Seq<usize>, v: Seq<i64>) -> bool {
    forall|p: int, j: int| 0 <= p < crk.len() && ofs[p] <= j < end_at(ofs, base.len() as int, p) ==> #[trigger] row_is(base, v, j, crk[p])
}

/// The index records position `p` for its value and `p + 1` for the next value.
pub open spec fn delimited_at(crk: Seq<i64>, idx: Map<i64, usize>, p: int) -> bool {
    &&& crk[p] < i64::MAX
    &&& idx.dom().contains(crk[p])
    &&& idx[crk[p]] == p
    &&& idx.dom().contains((crk[p] + 1) as i64)
    &&& idx[(crk[p] + 1) as i64] == p + 1
}

/// Every position whose run holds more than one row is delimited by the index.
pub open spec fn long_runs_delimited(crk: Seq<i64>, ofs: Seq<usize>, n: int, idx: Map<i64, usize>) -> bool {
    forall|p: int| 0 <= p < crk.len() && end_at(ofs, n, p) > ofs[p] + 1 ==> #[trigger] delimited_at(crk, idx, p)
}

/// The state of a compacted cracker column that its lookups of single values keep.
pub open spec fn pieces_ok(crk: Seq<i64>, ofs: Seq<usize>, base: Seq<usize>, v: Seq<i64>, idx: Map<i64, usize>) -> bool {
    &&& crk.len() == ofs.len()
    &&& offsets_ok(ofs, base.len() as int)
    &&& crk.len() > 0 ==> ofs[0] == 0
    &&& runs_hold(crk, ofs, base, v)
    &&& map_index_valid(idx, crk)
    &&& map_index_in_bounds(idx, crk.len())
    &&& long_runs_delimited(crk, ofs, base.len() as int, idx)
}

/// A key splits the column at one position at most, among the positions up to its length.
pub proof fn lemma_split_unique(crk: Seq<i64>, k: i64, q1: int, q2: int)
    requires
        entry_splits(crk, k as int, q1),
        entry_splits(crk, k as int, q2),
        0 <= q1 <= crk.len(),
        0 <= q2 <= crk.len(),
    ensures
        q1 == q2,
{
    if q1 < q2 {
        assert(crk[q1] < k);
        assert(crk[q1] >= k);
    } else if q2 < q1 {
        assert(crk[q2] < k);
        assert(crk[q2] >= k);
    }
}

/// Recording a key at a position that splits the column there keeps the state.
pub proof fn lemma_record_split(crk: Seq<i64>, ofs: Seq<usize>, base: Seq<usize>, v: Seq<i64>, idx: Map<i64, usize>, k: i64, q: usize)
    requires
        pieces_ok(crk, ofs, base, v, idx),
        entry_splits(crk, k as int, q as int),
        q <= crk.len(),
    ensures
        pieces_ok(crk, ofs, base, v, idx.insert(k, q)),
{
    let m2 = idx.insert(k, q);
    let n = base.len() as int;
    assert forall|k2: i64| #[trigger] m2.dom().contains(k2) implies entry_splits(crk, k2 as int, m2[k2] as int) by {
        if k2 != k {
            assert(idx.dom().contains(k2));
        }
    }
    assert forall|k2: i64| #[trigger] m2.dom().contains(k2) implies m2[k2] <= crk.len() by {
        if k2 != k {
            assert(idx.dom().contains(k2));
        }
    }
    assert forall|p: int| 0 <= p < crk.len() && end_at(ofs, n, p) > ofs[p] + 1 implies #[trigger] delimited_at(crk, m2, p) by {
        assert(delimited_at(crk, idx, p));
        let y = crk[p];
        let y1 = (y + 1) as i64;
        if y == k {
            assert(entry_splits(crk, y as int, p));
            lemma_split_unique(crk, k, p, q as int);
        }
        if y1 == k {
            assert(idx.dom().contains(y1));
            assert(entry_splits(crk, y1 as int, idx[y1] as int));
            lemma_split_unique(crk, k, p + 1, q as int);
        }
    }
}

/// A base row between the offsets of positions `a` and the end of the run of `b` lies in the run
/// of some position between them.
pub proof fn lemma_run_of(ofs: Seq<usize>, n: int, a: int, b: int, r: int) -> (p: int)
    requires
        0 <= a <= b < ofs.len(),
        offsets_ok(ofs, n),
        ofs[a] <= r < end_at(ofs, n, b),
    ensures
        a <= p <= b,
        ofs[p] <= r < end_at(ofs, n, p),
    decreases b - a,
{
    if r >= ofs[b] {
        b
    } else {
        assert(b > a);
        assert(end_at(ofs, n, b - 1) == ofs[b] as int);
        lemma_run_of(ofs, n, a, b - 1, r)
    }
}

/// Where the run of position `p` starts, or `n` past the last position.
pub open spec fn ofs_at(ofs: Seq<usize>, n: int, p: int) -> int {
    if p >= ofs.len() { n } else { ofs[p] as int }
}

/// A base row in the run of position `q` lies between the offsets of `a` and `b` exactly when `q`
/// lies between `a` and `b`.
pub proof fn lemma_runs_slice(ofs: Seq<usize>, n: int, a: int, b: int, q: int, j: int)
    requires
        offsets_ok(ofs, n),
        0 <= a <= b <= ofs.len(),
        0 <= q < ofs.len(),
        ofs[q] <= j < end_at(ofs, n, q),
    ensures
        (ofs_at(ofs, n, a) <= j < ofs_at(ofs, n, b)) <==> (a <= q < b),
{
    if q < a {
        if q + 1 < ofs.len() {
            if a < ofs.len() {
                assert(ofs[q + 1] <= ofs[a]);
            } else {
                assert(ofs[q + 1] < n);
            }
        }
    } else if q >= b {
        if b < ofs.len() {
            assert(ofs[b] <= ofs[q]);
        }
    } else {
        assert(ofs[a] <= ofs[q]);
        if q + 1 < ofs.len() {
            if b < ofs.len() {
                assert(ofs[q + 1] <= ofs[b]);
            } else {
                assert(ofs[q + 1] < n);
            }
        }
    }
}

/// In a compacted column split at `a` for `x` and at `b` for `x + 1`, the base rows holding `x`
/// are exactly those from the offset of `a` to the offset of `b`.
pub proof fn lemma_rows_of_value(crk: Seq<i64>, ofs: Seq<usize>, base: Seq<usize>, v: Seq<i64>, idx: Map<i64, usize>, a: int, b: int, x: i64)
    requires
        pieces_ok(crk, ofs, base, v, idx),
        crk.len() > 0,
        x < i64::MAX,
        0 <= a <= b <= crk.len(),
        entry_splits(crk, x as int, a),
        entry_splits(crk, x + 1, b),
    ensures
        forall|j: int| 0 <= j < base.len() ==> ((ofs_at(ofs, base.len() as int, a) <= j < ofs_at(ofs, base.len() as int, b)) <==> #[trigger] row_is(base, v, j, x)),
{
    let n = base.len() as int;
    assert forall|j: int| 0 <= j < base.len() implies ((ofs_at(ofs, n, a) <= j < ofs_at(ofs, n, b)) <==> #[trigger] row_is(base, v, j, x)) by {
        assert(end_at(ofs, n, ofs.len() - 1) == n);
        let q = lemma_run_of(ofs, n, 0, ofs.len() - 1, j);
        assert(row_is(base, v, j, crk[q]));
        lemma_runs_slice(ofs, n, a, b, q, j);
        if a <= q < b {
            assert(crk[q] >= x && crk[q] < x + 1);
        } else if q < a {
            assert(crk[q] < x);
        } else {
            assert(crk[q] >= x + 1);
        }
    }
}

/// Base row `j` exists and holds a value in `al..=ah`.
pub open spec fn row_in(base: Seq<usize>, v: Seq<i64>, j: int, al: int, ah: int) -> bool {
    &&& 0 <= j < base.len()
    &&& base[j] < v.len()
    &&& al <= v[base[j] as int] <= ah
}

/// In a compacted column split at `a` for `al` and at `b` for `ah + 1`, the base rows holding a
/// value in `al..=ah` are exactly those from the offset of `a` to the offset of `b`.
pub proof fn lemma_rows_in_range(crk: Seq<i64>, ofs: Seq<usize>, base: Seq<usize>, v: Seq<i64>, idx: Map<i64, usize>, a: int, b: int, al: int, ah: int)
    requires
        pieces_ok(crk, ofs, base, v, idx),
        crk.len() > 0,
        0 <= a <= b <= crk.len(),
        entry_splits(crk, al, a),
        entry_splits(crk, ah + 1, b),
    ensures
        forall|j: int| 0 <= j < base.len() ==> ((ofs_at(ofs, base.len() as int, a) <= j < ofs_at(ofs, base.len() as int, b)) <==> #[trigger] row_in(base, v, j, al, ah)),
{
    let n = base.len() as int;
    assert forall|j: int| 0 <= j < base.len() implies ((ofs_at(ofs, n, a) <= j < ofs_at(ofs, n, b)) <==> #[trigger] row_in(base, v, j, al, ah)) by {
        assert(end_at(ofs, n, ofs.len() - 1) == n);
        let q = lemma_run_of(ofs, n, 0, ofs.len() - 1, j);
        assert(row_is(base, v, j, crk[q]));
        lemma_runs_slice(ofs, n, a, b, q, j);
        if a <= q < b {
            assert(crk[q] >= al && crk[q] < ah + 1);
        } else if q < a {
            assert(crk[q] < al);
        } else {
            assert(crk[q] >= ah + 1);
        }
    }
}

/// Collapsing the piece of `x`, which the index delimits at `i` and `j`, onto position `i` keeps
/// the state; the positions up to `i` keep their values and the splits there, and every key keeps
/// the value at its position.
pub proof fn lemma_collapse(crk: Seq<i64>, ofs: Seq<usize>, base: Seq<usize>, v: Seq<i64>, idx: Map<i64, usize>, x: i64, i: int, j: int)
    requires
        pieces_ok(crk, ofs, base, v, idx),
        x < i64::MAX,
        idx.dom().contains(x),
        idx[x] == i,
        idx.dom().contains((x + 1) as i64),
        idx[(x + 1) as i64] == j,
        0 <= i,
        i < j - 1,
        j <= crk.len(),
    ensures
        can_subtract_above(idx, x, (j - i - 1) as usize),
        pieces_ok(cut(crk, i + 1, j), cut(ofs, i + 1, j), base, v, subtract_above(idx, x, (j - i - 1) as usize)),
        forall|q: int| 0 <= q <= i ==> #[trigger] cut(crk, i + 1, j)[q] == crk[q],
        forall|k: i64, q: int| entry_splits(crk, k as int, q) && 0 <= q <= i ==> #[trigger] entry_splits(cut(crk, i + 1, j), k as int, q),
        forall|k: i64| #[trigger] idx.dom().contains(k) && idx[k] < crk.len() ==> {
            &&& subtract_above(idx, x, (j - i - 1) as usize)[k] < cut(crk, i + 1, j).len()
            &&& cut(crk, i + 1, j)[subtract_above(idx, x, (j - i - 1) as usize)[k] as int] == crk[idx[k] as int]
        },
{
    let d = j - i - 1;
    let du = d as usize;
    let c2 = cut(crk, i + 1, j);
    let o2 = cut(ofs, i + 1, j);
    let m2 = subtract_above(idx, x, du);
    let n = base.len() as int;
    let len = crk.len() as int;
    let x1 = (x + 1) as i64;
    assert(entry_splits(crk, x as int, i));
    assert(entry_splits(crk, x1 as int, j));
    assert forall|p: int| i <= p < j implies #[trigger] crk[p] == x by {
    }
    assert forall|p: int| 0 <= p < c2.len() implies #[trigger] c2[p] == crk[if p <= i { p } else { p + d }] && o2[p] == ofs[if p <= i { p } else { p + d }] by {
    }
    assert forall|k: i64| #[trigger] idx.dom().contains(k) implies (k <= x ==> idx[k] <= i) && (k > x ==> idx[k] >= j) by {
        assert(entry_splits(crk, k as int, idx[k] as int));
        if k <= x && idx[k] > i {
            assert(crk[i] < k);
        }
        if k > x && idx[k] < j {
            if idx[k] <= i {
                assert(crk[i] >= k);
            } else {
                assert(crk[idx[k] as int] >= k);
            }
        }
    }
    assert(can_subtract_above(idx, x, du));
    assert(m2.dom() =~= idx.dom());
    assert forall|k: i64| #[trigger] idx.dom().contains(k) implies m2[k] == if k > x { idx[k] - d } else { idx[k] as int } by {
    }
    lemma_cut_offsets(ofs, i + 1, j, n);
    // the runs
    assert forall|p: int, r: int| 0 <= p < c2.len() && o2[p] <= r < end_at(o2, n, p) implies #[trigger] row_is(base, v, r, c2[p]) by {
        if p < i {
            assert(end_at(o2, n, p) == end_at(ofs, n, p));
        } else if p == i {
            let last = if j == len { len - 1 } else { j - 1 };
            if j == len {
                assert(end_at(o2, n, p) == n);
                assert(end_at(ofs, n, len - 1) == n);
            } else {
                assert(o2[i + 1] == ofs[j]);
                assert(end_at(ofs, n, j - 1) == ofs[j] as int);
            }
            let q = lemma_run_of(ofs, n, i, last, r);
            assert(row_is(base, v, r, crk[q]));
        } else {
            assert(end_at(o2, n, p) == end_at(ofs, n, p + d));
        }
    }
    // the index
    assert forall|k: i64| #[trigger] m2.dom().contains(k) implies entry_splits(c2, k as int, m2[k] as int) by {
        assert(idx.dom().contains(k));
        let q = idx[k] as int;
        assert(entry_splits(crk, k as int, q));
        if k > x {
            assert forall|p: int| 0 <= p < m2[k] && p < c2.len() implies #[trigger] c2[p] < k by {
                if p > i {
                    assert(c2[p] == crk[p + d]);
                } else {
                    assert(c2[p] == crk[p]);
                }
            }
            assert forall|p: int| m2[k] <= p < c2.len() implies #[trigger] c2[p] >= k by {
                assert(c2[p] == crk[p + d]);
            }
        } else {
            assert forall|p: int| q <= p < c2.len() implies #[trigger] c2[p] >= k by {
                if p > i {
                    assert(c2[p] == crk[p + d]);
                } else {
                    assert(c2[p] == crk[p]);
                }
            }
        }
    }
    assert forall|k: i64| #[trigger] m2.dom().contains(k) implies m2[k] <= c2.len() by {
        assert(idx.dom().contains(k));
    }
    // the long runs
    assert forall|p: int| 0 <= p < c2.len() && end_at(o2, n, p) > o2[p] + 1 implies #[trigger] delimited_at(c2, m2, p) by {
        if p < i {
            assert(end_at(o2, n, p) == end_at(ofs, n, p));
            assert(delimited_at(crk, idx, p));
            let y = crk[p];
            assert(idx[y] == p);
            assert(y <= x) by {
                if y > x {
                    assert(idx[y] >= j);
                }
            }
            assert(y < x) by {
                if y == x {
                    assert(idx[y] == i);
                }
            }
            assert(c2[p + 1] == crk[p + 1]);
        } else if p == i {
            assert(c2[i] == x);
        } else {
            assert(end_at(o2, n, p) == end_at(ofs, n, p + d));
            assert(delimited_at(crk, idx, p + d));
            let y = crk[p + d];
            assert(y > x) by {
                if y <= x {
                    assert(idx[y] <= i);
                }
            }
            assert(c2[p] == y);
        }
    }
    // pending splits up to `i`
    assert forall|k: i64, q: int| entry_splits(crk, k as int, q) && 0 <= q <= i implies #[trigger] entry_splits(c2, k as int, q) by {
        assert forall|p: int| q <= p < c2.len() implies #[trigger] c2[p] >= k by {
            if p > i {
                assert(c2[p] == crk[p + d]);
            } else {
                assert(c2[p] == crk[p]);
            }
        }
    }
    // the value at each key's position
    assert forall|k: i64| #[trigger] idx.dom().contains(k) && idx[k] < crk.len() implies m2[k] < c2.len() && c2[m2[k] as int] == crk[idx[k] as int] by {
        if k > x {
            assert(c2[m2[k] as int] == crk[m2[k] + d]);
        } else {
            assert(c2[m2[k] as int] == crk[idx[k] as int]);
        }
    }
}

/// A compaction after recording `w` at `i` keeps the state, keeps every key with the value at
/// its position, and keeps a split of `w - 1` at or before `i` together with the value there.
pub proof fn lemma_compacted(crk: Seq<i64>, ofs: Seq<usize>, base: Seq<usize>, v: Seq<i64>, idx: Map<i64, usize>, w: i64, i: usize)
    requires
        pieces_ok(crk, ofs, base, v, idx),
        idx.dom().contains(w),
        idx[w] == i,
        compact_ok(crk, ofs, idx, w, i),
    ensures
        ({
            let (c2, o2, m2) = compacted(crk, ofs, idx, w, i);
            &&& pieces_ok(c2, o2, base, v, m2)
            &&& m2.dom() == idx.dom()
            &&& forall|k: i64| #[trigger] idx.dom().contains(k) && idx[k] < crk.len() ==> m2[k] < c2.len() && c2[m2[k] as int] == crk[idx[k] as int]
            &&& forall|q: int| 0 <= q <= i && q < crk.len() && w > i64::MIN && #[trigger] entry_splits(crk, w - 1, q) ==> {
                &&& entry_splits(c2, w - 1, q)
                &&& q < c2.len()
                &&& c2[q] == crk[q]
            }
        }),
{
    let (crk1, ofs1, idx1, stop) = compacted_high(crk, ofs, idx, w, i);
    let (c2, o2, m2) = compacted(crk, ofs, idx, w, i);
    let w1 = (w + 1) as i64;
    assert(entry_splits(crk, w as int, i as int));
    assert(i <= crk.len());
    // the first step
    if idx.dom().contains(w1) && !(i >= idx[w1] - 1) {
        let j = idx[w1] as int;
        lemma_collapse(crk, ofs, base, v, idx, w, i as int, j);
        assert(idx1.dom() =~= idx.dom());
        assert forall|q: int| 0 <= q <= i && q < crk.len() && w > i64::MIN && #[trigger] entry_splits(crk, w - 1, q) implies entry_splits(crk1, w - 1, q) && q < crk1.len() && crk1[q] == crk[q] by {
            assert(entry_splits(crk1, (w - 1) as i64 as int, q));
        }
    } else {
        assert(crk1 == crk && ofs1 == ofs && idx1 == idx);
    }
    assert(pieces_ok(crk1, ofs1, base, v, idx1));
    assert(idx1.dom() == idx.dom());
    assert(idx1.dom().contains(w) && idx1[w] == i);
    assert(i <= crk1.len());
    // the second step
    let wm = (w - 1) as i64;
    if !stop && idx1.dom().contains(wm) && !(idx1[wm] >= i - 1) {
        let j2 = idx1[wm] as int;
        assert(w > i64::MIN);
        assert(wm + 1 == w);
        lemma_collapse(crk1, ofs1, base, v, idx1, wm, j2, i as int);
        assert(m2.dom() =~= idx1.dom());
        assert forall|q: int| 0 <= q <= i && q < crk.len() && w > i64::MIN && #[trigger] entry_splits(crk, w - 1, q) implies entry_splits(c2, w - 1, q) && q < c2.len() && c2[q] == crk[q] by {
            assert(entry_splits(crk1, wm as int, q));
            assert(entry_splits(crk1, wm as int, j2));
            lemma_split_unique(crk1, wm, q, j2);
            assert(entry_splits(c2, wm as int, q));
        }
    } else {
        assert(c2 == crk1 && o2 == ofs1 && m2 == idx1);
    }
}

/// A position whose run holds several rows keeps its value through a crack of `pl..=ph` whose
/// ends hold values at least `al` and at most `ah`, when the crack keeps the splits of the column
/// at the keys from `al` to `ah + 1`.
pub proof fn lemma_long_run_kept(
    crk: Seq<i64>,
    crk2: Seq<i64>,
    ofs: Seq<usize>,
    base: Seq<usize>,
    v: Seq<i64>,
    idx: Map<i64, usize>,
    pl: int,
    ph: int,
    al: i64,
    ah: i64,
    p: int,
)
    requires
        pieces_ok(crk, ofs, base, v, idx),
        0 <= pl <= p <= ph < crk.len(),
        crk[pl] >= al,
        crk[ph] <= ah,
        crk2.len() == crk.len(),
        forall|k: int, q: int| al <= k <= ah + 1 && #[trigger] splits_from(crk, k, q) ==> splits_from(crk2, k, q),
        end_at(ofs, base.len() as int, p) > ofs[p] + 1,
    ensures
        crk2[p] == crk[p],
{
    assert(delimited_at(crk, idx, p));
    let y = crk[p];
    let y1 = (y + 1) as i64;
    assert(entry_splits(crk, y as int, p));
    assert(entry_splits(crk, y1 as int, p + 1));
    if p > pl {
        assert(crk[pl] < y);
    }
    if p < ph {
        assert(crk[ph] >= y1);
    }
    assert(splits_from(crk, y as int, p));
    assert(splits_from(crk, y1 as int, p + 1));
    assert(splits_from(crk2, y as int, p));
    assert(splits_from(crk2, y1 as int, p + 1));
    assert(crk2[p] >= y);
    assert(crk2[p] < y1);
}

/// A crack of positions `pl..=ph`, whose ends hold a value at least `al` and at most `ah`, that
/// moves the first base row at each offset with its position, leaves the other base rows alone
/// and keeps the splits of the column at the keys from `al` to `ah + 1`, keeps the state: a
/// position whose run holds several rows keeps its value, and so does every key's split.
pub proof fn lemma_cracked_pieces(
    crk: Seq<i64>,
    crk2: Seq<i64>,
    ofs: Seq<usize>,
    base: Seq<usize>,
    base2: Seq<usize>,
    v: Seq<i64>,
    idx: Map<i64, usize>,
    pl: int,
    ph: int,
    al: i64,
    ah: i64,
)
    requires
        pieces_ok(crk, ofs, base, v, idx),
        0 <= pl < ph < crk.len(),
        crk[pl] >= al,
        crk[ph] <= ah,
        crk2.len() == crk.len(),
        base2.len() == base.len(),
        same_outside(crk2, crk, pl, ph),
        from_region(crk2, crk, pl, ph),
        first_rows_hold(crk2, base2, ofs, v),
        forall|j: int| 0 <= j < base.len() && !at_offset(ofs, j) ==> #[trigger] base2[j] == base[j],
        forall|k: int, q: int| al <= k <= ah + 1 && #[trigger] splits_from(crk, k, q) ==> splits_from(crk2, k, q),
    ensures
        pieces_ok(crk2, ofs, base2, v, idx),
{
    let n = base.len() as int;
    // the long runs keep their values
    assert forall|p: int| 0 <= p < crk.len() && end_at(ofs, n, p) > ofs[p] + 1 implies #[trigger] crk2[p] == crk[p] by {
        if pl <= p <= ph {
            lemma_long_run_kept(crk, crk2, ofs, base, v, idx, pl, ph, al, ah, p);
        }
    }
    // the runs
    assert forall|p: int, r: int| 0 <= p < crk2.len() && ofs[p] <= r < end_at(ofs, n, p) implies #[trigger] row_is(base2, v, r, crk2[p]) by {
        if r == ofs[p] {
            assert(first_row_at(crk2, base2, ofs, v, p));
        } else {
            assert(end_at(ofs, n, p) > ofs[p] + 1);
            assert(crk2[p] == crk[p]);
            assert(!at_offset(ofs, r)) by {
                if at_offset(ofs, r) {
                    let q = choose|q: int| 0 <= q < ofs.len() && ofs[q] == r;
                    if q < p {
                        assert(ofs[q] < ofs[p]);
                    } else if q > p {
                        assert(ofs[p + 1] <= ofs[q]);
                    }
                }
            }
            assert(row_is(base, v, r, crk[p]));
        }
    }
    // the index
    assert forall|k: i64| #[trigger] idx.dom().contains(k) implies entry_splits(crk2, k as int, idx[k] as int) by {
        let q = idx[k] as int;
        assert(entry_splits(crk, k as int, q));
        if pl < q <= ph {
            assert(crk[pl] < k);
            assert(crk[ph] >= k);
            assert(splits_from(crk, k as int, q));
            assert(splits_from(crk2, k as int, q));
        } else {
            assert forall|i: int| 0 <= i < q && i < crk2.len() implies #[trigger] crk2[i] < k by {
                if pl <= i <= ph {
                    let y = choose|y: int| pl <= y <= ph && #[trigger] crk2[i] == #[trigger] crk[y];
                }
            }
            assert forall|i: int| q <= i < crk2.len() implies #[trigger] crk2[i] >= k by {
                if pl <= i <= ph {
                    let y = choose|y: int| pl <= y <= ph && #[trigger] crk2[i] == #[trigger] crk[y];
                }
            }
        }
    }
    // the long runs
    assert forall|p: int| 0 <= p < crk2.len() && end_at(ofs, n, p) > ofs[p] + 1 implies #[trigger] delimited_at(crk2, idx, p) by {
        assert(delimited_at(crk, idx, p));
        assert(crk2[p] == crk[p]);
    }
}

/// After a crack of `pl..=ph` around the single value `x` on a column whose values before `pl`
/// are below `x` and after `ph` above it, `x` splits the column where its values start and
/// `x + 1` where they end.
pub proof fn lemma_split_after_crack(crk2: Seq<i64>, pl: int, ph: int, x: i64, a: int, b: int, h: int)
    requires
        x < i64::MAX,
        0 <= pl <= ph < crk2.len(),
        forall|i: int| 0 <= i < pl ==> #[trigger] crk2[i] < x,
        forall|i: int| ph < i < crk2.len() ==> #[trigger] crk2[i] > x,
        crate::crack::three_way(crk2, pl, ph, x, x, a, b, h),
    ensures
        entry_splits(crk2, x as int, a),
        entry_splits(crk2, x + 1, b),
        a <= b,
        forall|i: int| a <= i < b ==> #[trigger] crk2[i] == x,
{
    assert(crate::crack::disjoint(x, x));
    assert forall|i: int| 0 <= i < a && i < crk2.len() implies #[trigger] crk2[i] < x by {
        if i >= pl {
            assert(crate::crack::c_low(crk2[i], x as int));
        }
    }
    assert forall|i: int| a <= i < crk2.len() implies #[trigger] crk2[i] >= x by {
        if i < b {
            assert(crate::crack::in_range(crk2[i], x as int, x as int));
        } else if i <= ph {
            assert(crate::crack::c_high(crk2[i], x as int));
        }
    }
    assert forall|i: int| 0 <= i < b && i < crk2.len() implies #[trigger] crk2[i] < x + 1 by {
        if i >= a {
            assert(crate::crack::in_range(crk2[i], x as int, x as int));
        } else if i >= pl {
            assert(crate::crack::c_low(crk2[i], x as int));
        }
    }
    assert forall|i: int| b <= i < crk2.len() implies #[trigger] crk2[i] >= x + 1 by {
        if i <= ph {
            assert(crate::crack::c_high(crk2[i], x as int));
        }
    }
    assert forall|i: int| a <= i < b implies #[trigger] crk2[i] == x by {
        assert(crate::crack::in_range(crk2[i], x as int, x as int));
    }
}

/// In such a state the first base row of each run holds its position's value, and no offset
/// repeats.
pub proof fn lemma_pieces_first_rows(crk: Seq<i64>, ofs: Seq<usize>, base: Seq<usize>, v: Seq<i64>, idx: Map<i64, usize>)
    requires
        pieces_ok(crk, ofs, base, v, idx),
    ensures
        first_rows_hold(crk, base, ofs, v),
        crate::crack::distinct(ofs),
        forall|p: int| 0 <= p < crk.len() ==> ofs[p] < end_at(ofs, base.len() as int, p),
{
    let n = base.len() as int;
    assert forall|p: int| 0 <= p < crk.len() implies ofs[p] < end_at(ofs, n, p) by {
        if p < ofs.len() - 1 {
            assert(ofs[p] < ofs[p + 1]);
        }
    }
    assert forall|p: int| 0 <= p < crk.len() implies #[trigger] first_row_at(crk, base, ofs, v, p) by {
        assert(row_is(base, v, ofs[p] as int, crk[p]));
    }
    assert forall|i: int, j: int| 0 <= i < ofs.len() && 0 <= j < ofs.len() && i != j implies #[trigger] ofs[i] != #[trigger] ofs[j] by {
        if i < j {
            assert(ofs[i] < ofs[j]);
        } else {
            assert(ofs[j] < ofs[i]);
        }
    }
}

} // verus!
