//! The properties that hold across the operations of the library: selections answer with
//! exactly the rows whose value lies in range, repeated lookups answer with the same rows, and
//! the indexes give back what was recorded in them.

use vstd::prelude::*;
use crate::crack::{aligned, distinct, in_range};
use crate::cracker_index::{array_insert, array_get};
use crate::db::{Table, crack_outcome, split_outcome, index_valid};
use crate::graph::column::map_index_valid;
use crate::graph::decomposed_cracking::{DeCrackedTable, specific_outcome};
use crate::graph::recognitive_compression::{ReCoTable, range_outcome};
use crate::graph::compaction::{row_is, row_in};
use crate::graph::column::IntCol;
use crate::graph::compactive_compression::{CoCoTable, answers_range_exactly, base_slice_selection};
use crate::graph::overswap_rle_compression::{OverswapRLETable, answers_rows_of};

verus! {

/// The rows of the base table, as a set.
pub open spec fn all_rows(n: nat) -> Set<usize> {
    Set::new(|r: usize| r < n)
}

/// The rows of the base table whose value lies in `al..=ah`.
pub open spec fn rows_in_range(v: Seq<i64>, al: int, ah: int) -> Set<usize> {
    Set::new(|r: usize| r < v.len() && in_range(v[r as int], al, ah))
}

/// The base-row indices of a cracked column are a permutation of the base rows: every row
/// appears among them.
pub proof fn law_base_rows_are_a_permutation(base: Seq<usize>, n: nat)
    requires
        distinct(base),
        base.len() == n,
        n <= usize::MAX,
        forall|i: int| 0 <= i < base.len() ==> (#[trigger] base[i]) < n,
    ensures
        base.to_set() == all_rows(n),
{
    assert(base.no_duplicates());
    base.unique_seq_to_set();
    let rows = all_rows(n);
    let ints = vstd::set_lib::set_int_range(0, n as int);
    vstd::set_lib::lemma_int_range(0, n as int);
    let f = |i: int| i as usize;
    assert(rows =~= ints.map(f)) by {
        assert forall|r: usize| rows.contains(r) implies ints.map(f).contains(r) by {
            assert(ints.contains(r as int));
            assert(f(r as int) == r);
        }
    }
    assert(vstd::relations::injective_on(f, ints)) by {
        assert forall|x: int, y: int| ints.contains(x) && ints.contains(y) && #[trigger] f(x) == #[trigger] f(y) implies x == y by {
            assert(f(x) as int == x);
            assert(f(y) as int == y);
        }
    }
    vstd::set_lib::lemma_map_size(ints, rows, f);
    assert(base.to_set().subset_of(rows)) by {
        assert forall|r: usize| base.to_set().contains(r) implies rows.contains(r) by {
            let i = choose|i: int| 0 <= i < base.len() && base[i] == r;
        }
    }
    vstd::set_lib::lemma_subset_equality(base.to_set(), rows);
}

/// When the positions `a..b` of a cracked column are exactly those holding a value in
/// `al..=ah`, their base rows are exactly the rows of the base table whose value lies there.
pub proof fn law_cracked_range_is_rows_in_range(crk: Seq<i64>, base: Seq<usize>, v: Seq<i64>, a: int, b: int, al: int, ah: int)
    requires
        aligned(crk, base, v),
        distinct(base),
        crk.len() == v.len(),
        v.len() <= usize::MAX,
        0 <= a <= b <= crk.len(),
        forall|i: int| 0 <= i < crk.len() ==> ((a <= i < b) == in_range(#[trigger] crk[i], al, ah)),
    ensures
        base.subrange(a, b).to_set() == rows_in_range(v, al, ah),
{
    law_base_rows_are_a_permutation(base, v.len());
    let sel = base.subrange(a, b);
    assert forall|r: usize| sel.to_set().contains(r) <==> rows_in_range(v, al, ah).contains(r) by {
        if sel.to_set().contains(r) {
            let k = choose|k: int| 0 <= k < sel.len() && sel[k] == r;
            assert(base[a + k] == r);
            assert(in_range(crk[a + k], al, ah));
        }
        if rows_in_range(v, al, ah).contains(r) {
            assert(all_rows(v.len()).contains(r));
            assert(base.to_set().contains(r));
            let i = choose|i: int| 0 <= i < base.len() && base[i] == r;
            assert(crk[i] == v[r as int]);
            assert(sel[i - a] == r);
        }
    }
    assert(sel.to_set() =~= rows_in_range(v, al, ah));
}

/// A selection in three on a table with a valid cracker index answers with exactly the rows
/// whose value lies in the range.
pub proof fn law_select_in_three_gives_rows_in_range(pre: Table, post: Table, r: Table, al: int, ah: int, a: int, b: int)
    requires
        post.select_ready(),
        crack_outcome(pre, post, r, al, ah, a, b),
        index_valid(pre.crk_col.crk_idx@, pre.crk_col.crk@),
        al <= ah + 1,
    ensures
        post.crk_col.base_idx@.subrange(a, b).to_set() == rows_in_range(post.crk_col.v@, al, ah),
{
    law_cracked_range_is_rows_in_range(post.crk_col.crk@, post.crk_col.base_idx@, post.crk_col.v@, a, b, al, ah);
}

/// A selection in two on a table with a valid cracker index answers with exactly the rows whose
/// value lies below the bound.
pub proof fn law_select_in_two_gives_rows_below(pre: Table, post: Table, r: Table, am: int, p: int)
    requires
        post.select_ready(),
        split_outcome(pre, post, r, am, p),
        index_valid(pre.crk_col.crk_idx@, pre.crk_col.crk@),
        am > i64::MIN,
    ensures
        post.crk_col.base_idx@.subrange(0, p).to_set() == rows_in_range(post.crk_col.v@, i64::MIN as int, am - 1),
{
    assert forall|i: int| 0 <= i < post.crk_col.crk@.len() implies ((0 <= i < p) == in_range(#[trigger] post.crk_col.crk@[i], i64::MIN as int, am - 1)) by {
    }
    law_cracked_range_is_rows_in_range(post.crk_col.crk@, post.crk_col.base_idx@, post.crk_col.v@, 0, p, i64::MIN as int, am - 1);
}

/// A lookup on a decomposed table with a valid index answers with the values at exactly the
/// rows holding `x`.
pub proof fn law_lookup_gives_rows_of_value(pre: DeCrackedTable, post: DeCrackedTable, r: Seq<i64>, x: i64, col: Seq<char>, a: int, b: int)
    requires
        post.select_ready(),
        specific_outcome(pre, post, r, x, col, a, b),
        map_index_valid(pre.crk_col.crk_idx@, pre.crk_col.crk@),
    ensures
        post.crk_col.base_idx@.subrange(a, b).to_set() == rows_in_range(post.crk_col.v@, x as int, x as int),
{
    assert forall|i: int| 0 <= i < post.crk_col.crk@.len() implies ((a <= i < b) == in_range(#[trigger] post.crk_col.crk@[i], x as int, x as int)) by {
    }
    law_cracked_range_is_rows_in_range(post.crk_col.crk@, post.crk_col.base_idx@, post.crk_col.v@, a, b, x as int, x as int);
}

/// Looking up the same value twice on a decomposed table with a valid index answers both times
/// with the same rows.
pub proof fn law_repeated_lookups_give_same_rows(
    t0: DeCrackedTable,
    t1: DeCrackedTable,
    t2: DeCrackedTable,
    r1: Seq<i64>,
    r2: Seq<i64>,
    x: i64,
    col: Seq<char>,
    a1: int,
    b1: int,
    a2: int,
    b2: int,
)
    requires
        map_index_valid(t0.crk_col.crk_idx@, t0.crk_col.crk@),
        specific_outcome(t0, t1, r1, x, col, a1, b1),
        t1.select_ready(),
        map_index_valid(t1.crk_col.crk_idx@, t1.crk_col.crk@),
        specific_outcome(t1, t2, r2, x, col, a2, b2),
        t2.select_ready(),
        t2.crk_col.v == t1.crk_col.v,
    ensures
        t1.crk_col.base_idx@.subrange(a1, b1).to_set() == t2.crk_col.base_idx@.subrange(a2, b2).to_set(),
{
    law_lookup_gives_rows_of_value(t0, t1, r1, x, col, a1, b1);
    law_lookup_gives_rows_of_value(t1, t2, r2, x, col, a2, b2);
}

/// A range lookup on a table with recognitive compression and a valid index answers with the
/// values at exactly the rows whose value lies in the range.
pub proof fn law_range_lookup_gives_rows_in_range(pre: ReCoTable, post: ReCoTable, r: Seq<i64>, al: int, ah: int, col: Seq<char>, a: int, b: int)
    requires
        post.select_ready(),
        range_outcome(pre, post, r, al, ah, col, a, b),
        map_index_valid(pre.crk_col.crk_idx@, pre.crk_col.crk@),
    ensures
        post.crk_col.base_idx@.subrange(a, b).to_set() == rows_in_range(post.crk_col.v@, al, ah),
{
    law_cracked_range_is_rows_in_range(post.crk_col.crk@, post.crk_col.base_idx@, post.crk_col.v@, a, b, al, ah);
}

/// The dense cracker index gives back what was last recorded under a key, and recording under
/// one key leaves the others alone.
pub proof fn law_array_index_get_after_insert(s: Seq<Option<usize>>, key: int, data: usize, other: int)
    requires
        key >= 0,
        other != key,
    ensures
        array_get(array_insert(s, key, data), key) == Some(data),
        array_get(array_insert(s, key, data), other) == array_get(s, other),
{
}

/// A map-backed cracker index gives back what was last recorded under a key, forgets what was
/// removed, and leaves the other keys alone.
pub proof fn law_map_index_get_after_insert<K, D>(m: Map<K, D>, key: K, data: D, other: K)
    requires
        other != key,
    ensures
        m.insert(key, data).dom().contains(key),
        m.insert(key, data)[key] == data,
        !m.remove(key).dom().contains(key),
        m.insert(key, data).dom().contains(other) == m.dom().contains(other),
        m.dom().contains(other) ==> m.insert(key, data)[other] == m[other],
        m.remove(key).dom().contains(other) == m.dom().contains(other),
{
}

/// On an adjacency list with compactive compression, the stretch of base rows that a lookup of a
/// single value answers exactly (every base row in it exactly when it holds the value) is, as a
/// set, the rows holding that value.
pub proof fn law_compacted_lookup_gives_rows_of_value(base: Seq<usize>, v: Seq<i64>, a: int, b: int, x: i64)
    requires
        distinct(base),
        base.len() == v.len(),
        v.len() <= usize::MAX,
        forall|i: int| 0 <= i < base.len() ==> (#[trigger] base[i]) < v.len(),
        0 <= a <= b <= base.len(),
        forall|j: int| 0 <= j < base.len() ==> ((a <= j < b) <==> #[trigger] row_is(base, v, j, x)),
    ensures
        base.subrange(a, b).to_set() == rows_in_range(v, x as int, x as int),
{
    let n = v.len() as nat;
    law_base_rows_are_a_permutation(base, n);
    let sel = base.subrange(a, b);
    assert forall|r: usize| sel.to_set().contains(r) <==> rows_in_range(v, x as int, x as int).contains(r) by {
        if sel.to_set().contains(r) {
            let k = choose|k: int| 0 <= k < sel.len() && sel[k] == r;
            assert(row_is(base, v, a + k, x));
        }
        if rows_in_range(v, x as int, x as int).contains(r) {
            assert(all_rows(n).contains(r));
            assert(base.to_set().contains(r));
            let j = choose|j: int| 0 <= j < base.len() && base[j] == r;
            assert(row_is(base, v, j, x));
            assert(sel[j - a] == r);
        }
    }
    assert(sel.to_set() =~= rows_in_range(v, x as int, x as int));
}

/// On an adjacency list with compactive compression, the stretch of base rows that a lookup of a
/// range answers exactly (every base row in it exactly when its value lies in the range) is, as a
/// set, the rows whose value lies in `al..=ah`; the answer holds one row of the lookup's table
/// per row of that stretch.
pub proof fn law_compacted_range_lookup_gives_rows_in_range(post: CoCoTable, t: CoCoTable, cols: Seq<(String, IntCol)>, al: int, ah: int)
    requires
        post.select_ready(),
        post.crk_col.crk@.len() > 0,
        answers_range_exactly(t, cols, post.crk_col.base_idx@, post.crk_col.v@, al, ah),
    ensures
        exists|a: int, b: int| {
            &&& base_slice_selection(t, cols, post.crk_col.base_idx@, a, b)
            &&& post.crk_col.base_idx@.subrange(a, b).to_set() == rows_in_range(post.crk_col.v@, al, ah)
        },
{
    let base = post.crk_col.base_idx@;
    let v = post.crk_col.v@;
    let (a, b) = choose|a: int, b: int| base_slice_selection(t, cols, base, a, b) && forall|j: int| 0 <= j < base.len() ==> ((a <= j < b) <==> #[trigger] row_in(base, v, j, al, ah));
    let n = v.len() as nat;
    law_base_rows_are_a_permutation(base, n);
    let sel = base.subrange(a, b);
    assert forall|r: usize| sel.to_set().contains(r) <==> rows_in_range(v, al, ah).contains(r) by {
        if sel.to_set().contains(r) {
            let k = choose|k: int| 0 <= k < sel.len() && sel[k] == r;
            assert(row_in(base, v, a + k, al, ah));
        }
        if rows_in_range(v, al, ah).contains(r) {
            assert(all_rows(n).contains(r));
            assert(base.to_set().contains(r));
            let j = choose|j: int| 0 <= j < base.len() && base[j] == r;
            assert(row_in(base, v, j, al, ah));
            assert(sel[j - a] == r);
        }
    }
    assert(sel.to_set() =~= rows_in_range(v, al, ah));
}

/// The array index and a map-backed index that hold the same entries for the keys that are not
/// negative still do after the same insert of such a key.
pub proof fn law_indexes_agree_after_insert(s: Seq<Option<usize>>, m: Map<i64, usize>, key: i64, data: usize)
    requires
        key >= 0,
        forall|k: i64| k >= 0 ==> #[trigger] array_get(s, k as int) == (if m.dom().contains(k) { Some(m[k]) } else { None }),
    ensures
        forall|k: i64| k >= 0 ==> #[trigger] array_get(array_insert(s, key as int, data), k as int)
            == (if m.insert(key, data).dom().contains(k) { Some(m.insert(key, data)[k]) } else { None }),
{
    assert forall|k: i64| k >= 0 implies #[trigger] array_get(array_insert(s, key as int, data), k as int)
        == (if m.insert(key, data).dom().contains(k) { Some(m.insert(key, data)[k]) } else { None }) by {
        if k != key {
            assert(array_get(s, k as int) == (if m.dom().contains(k) { Some(m[k]) } else { None }));
        }
    }
}

/// A lookup of `x` on a run-length adjacency list answers only rows holding `x`: every row of
/// the answer holds `x` in the cracker column, so a value that no row holds is answered with no
/// rows.
pub proof fn law_overswap_lookup_answers_only_the_value(pre: OverswapRLETable, post: OverswapRLETable, t: OverswapRLETable, x: i64)
    requires
        post.select_ready(),
        post.crk_col.v == pre.crk_col.v,
        post.count == pre.count,
        pre.count > 0 ==> post.crk_col.crk@.len() == pre.count,
        pre.count == 0 ==> t.count == 0,
        exists|a: int, b: int| answers_rows_of(t, pre.columns@, pre.crk_col.v@, post.crk_col.base_idx@, a, b, x),
    ensures
        t.count == t.crk_col.v@.len(),
        forall|k: int| 0 <= k < t.crk_col.v@.len() ==> #[trigger] t.crk_col.v@[k] == x,
        (forall|r: int| 0 <= r < pre.crk_col.v@.len() ==> #[trigger] pre.crk_col.v@[r] != x) ==> t.count == 0,
{
    let (a, b) = choose|a: int, b: int| answers_rows_of(t, pre.columns@, pre.crk_col.v@, post.crk_col.base_idx@, a, b, x);
    let base = post.crk_col.base_idx@;
    let v = pre.crk_col.v@;
    assert forall|k: int| 0 <= k < t.crk_col.v@.len() implies #[trigger] t.crk_col.v@[k] == x by {
        assert(t.crk_col.v@[k] == v[base[a + k] as int]);
        assert(a <= a + k < b);
    }
    if pre.count > 0 && (forall|r: int| 0 <= r < v.len() ==> #[trigger] v[r] != x) && a < b {
        assert(base[a] < v.len());
        assert(v[base[a] as int] == x);
        assert(v[base[a] as int] != x);
    }
}

} // verus!
