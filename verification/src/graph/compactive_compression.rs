//! Decomposed cracking with fragmentary, compactive compression: once the index delimits the
//! piece of a single value, the cracked column keeps one position for the whole piece, and the
//! offsets of the positions into the base-row indices say where each piece's rows are.

use vstd::prelude::*;
use crate::crack::{
    aligned, distinct, gather, gather_vec, iota, iota_seq, copy_vec, copy_range, all_below,
    crack_in_three_loop_ofs, cut, cut_range, at_most_one, scan_up, scan_down,
};
use crate::graph::overswap_rle_compression::{lower_entry, upper_entry, lemma_lower_entry, lemma_upper_entry};
use crate::db::{Column, has_name, first_named, find_col, names_distinct, count_eq, count_in};
use crate::graph::column::{
    IntCol, is_fresh, col_named, lemma_col_named, is_col_selection, rows_in_cols,
    select_columns, cols_batch_ok, cols_count_after, appended_intcols, batch_count,
    append_batch,
};
use crate::graph::cracker_index::{AVLCrackerIndex, subtract_above, can_subtract_above};
use crate::graph::compaction::{
    pieces_ok, end_at, row_is, lemma_record_split, lemma_compacted, lemma_cracked_pieces,
    lemma_split_after_crack, lemma_pieces_first_rows, ofs_at, lemma_rows_of_value, row_in,
    lemma_rows_in_range,
};
use crate::graph::column::entry_splits;

verus! {

/// A table of named integer columns, one of them copied into a cracker column.
pub struct CoCoTable {
    pub count: usize,
    pub crk_col_name: String,
    pub crk_col: IntCol,
    pub int_columns: Vec<(String, IntCol)>,
}

/// Where the base rows of compressed position `ci` end: at the next position's offset, or at
/// the end of the base-row indices for the last position.
pub open spec fn run_end(c: IntCol, ci: int) -> int {
    if ci >= c.ofs@.len() - 1 { c.base_idx@.len() as int } else { c.ofs@[ci + 1] as int }
}

/// The base rows of compressed position `ci`.
pub open spec fn run_rows(c: IntCol, ci: int) -> Seq<usize> {
    c.base_idx@.subrange(c.ofs@[ci] as int, run_end(c, ci))
}

/// The offsets a compaction starts from: one per row if there are none yet.
pub open spec fn start_ofs(ofs: Seq<usize>, count: usize) -> Seq<usize> {
    if ofs.len() == 0 { iota_seq(count as nat) } else { ofs }
}

/// The state after collapsing the piece of `v` (which the index ends at the entry of `v + 1`)
/// onto position `i`, and whether the compaction stops there.
pub open spec fn compacted_high(crk: Seq<i64>, ofs: Seq<usize>, idx: Map<i64, usize>, v: i64, i: usize) -> (Seq<i64>, Seq<usize>, Map<i64, usize>, bool) {
    if idx.dom().contains((v + 1) as i64) {
        let j = idx[(v + 1) as i64] as int;
        if i >= j - 1 {
            (crk, ofs, idx, true)
        } else {
            (cut(crk, i + 1, j), cut(ofs, i + 1, j), subtract_above(idx, v, (j - i - 1) as usize), false)
        }
    } else {
        (crk, ofs, idx, false)
    }
}

/// What `compact` leaves: the piece of `v` collapsed onto position `i`, then, unless that step
/// stopped, the piece of `v - 1` collapsed onto its first position.
pub open spec fn compacted(crk: Seq<i64>, ofs: Seq<usize>, idx: Map<i64, usize>, v: i64, i: usize) -> (Seq<i64>, Seq<usize>, Map<i64, usize>) {
    let (crk1, ofs1, idx1, stop) = compacted_high(crk, ofs, idx, v, i);
    if stop || !idx1.dom().contains((v - 1) as i64) {
        (crk1, ofs1, idx1)
    } else {
        let j = idx1[(v - 1) as i64] as int;
        if j >= i - 1 {
            (crk1, ofs1, idx1)
        } else {
            (cut(crk1, j + 1, i as int), cut(ofs1, j + 1, i as int), subtract_above(idx1, (v - 1) as i64, (i - j - 1) as usize))
        }
    }
}

/// `compact` can run on this state without leaving the bounds of the columns or of `i64`: the
/// pieces it collapses lie inside the cracked column and its offsets, and the entries it moves
/// down are large enough.
pub open spec fn compact_ok(crk: Seq<i64>, ofs: Seq<usize>, idx: Map<i64, usize>, v: i64, i: usize) -> bool {
    let (crk1, ofs1, idx1, stop) = compacted_high(crk, ofs, idx, v, i);
    &&& v < i64::MAX
    &&& idx.dom().contains((v + 1) as i64) ==> {
        let j = idx[(v + 1) as i64] as int;
        &&& j >= 1
        &&& i < j - 1 ==> j <= crk.len() && j <= ofs.len() && can_subtract_above(idx, v, (j - i - 1) as usize)
    }
    &&& !stop ==> v > i64::MIN
    &&& !stop && idx1.dom().contains((v - 1) as i64) ==> {
        let j = idx1[(v - 1) as i64] as int;
        &&& i >= 1
        &&& j < i - 1 ==> i <= crk1.len() && i <= ofs1.len() && can_subtract_above(idx1, (v - 1) as i64, (i - j - 1) as usize)
    }
}

/// The offsets increase along the positions and stay below `n`.
pub open spec fn offsets_ok(ofs: Seq<usize>, n: int) -> bool {
    &&& forall|i: int, j: int| 0 <= i < j < ofs.len() ==> #[trigger] ofs[i] < #[trigger] ofs[j]
    &&& forall|i: int| 0 <= i < ofs.len() ==> #[trigger] ofs[i] < n
}

/// The numbers `0..n` are increasing offsets below `n`.
pub proof fn lemma_iota_offsets(n: usize)
    ensures
        offsets_ok(iota_seq(n as nat), n as int),
        distinct(iota_seq(n as nat)),
        all_below(iota_seq(n as nat), n as int),
{
    let s = iota_seq(n as nat);
    assert forall|i: int, j: int| 0 <= i < j < s.len() implies #[trigger] s[i] < #[trigger] s[j] by {
        assert(s[i] == i && s[j] == j);
    }
    assert forall|i: int, j: int| 0 <= i < s.len() && 0 <= j < s.len() && i != j implies #[trigger] s[i] != #[trigger] s[j] by {
        assert(s[i] == i && s[j] == j);
    }
}

/// There are no more increasing offsets below `n` than `n`: the offset of position `i` is at
/// least `i`.
pub proof fn lemma_offsets_len(ofs: Seq<usize>, n: int)
    requires
        offsets_ok(ofs, n),
        0 <= n,
    ensures
        ofs.len() <= n,
        forall|i: int| 0 <= i < ofs.len() ==> #[trigger] ofs[i] >= i,
{
    assert forall|i: int| 0 <= i < ofs.len() implies #[trigger] ofs[i] >= i by {
        lemma_offset_at_least(ofs, n, i);
    }
    if ofs.len() > 0 {
        assert(ofs[ofs.len() - 1] >= ofs.len() - 1);
    }
}

/// The offset of position `i` of increasing offsets is at least `i`.
proof fn lemma_offset_at_least(ofs: Seq<usize>, n: int, i: int)
    requires
        offsets_ok(ofs, n),
        0 <= i < ofs.len(),
    ensures
        ofs[i] >= i,
    decreases i,
{
    if i > 0 {
        lemma_offset_at_least(ofs, n, i - 1);
        assert(ofs[i - 1] < ofs[i]);
    }
}

/// Closing a gap keeps the offsets increasing and below their bound.
pub proof fn lemma_cut_offsets(ofs: Seq<usize>, a: int, b: int, n: int)
    requires
        offsets_ok(ofs, n),
        0 <= a <= b <= ofs.len(),
    ensures
        offsets_ok(cut(ofs, a, b), n),
        cut(ofs, a, b).len() == ofs.len() - (b - a),
{
    let c = cut(ofs, a, b);
    assert forall|i: int| 0 <= i < c.len() implies #[trigger] c[i] == ofs[if i < a { i } else { i + (b - a) }] by {
    }
    assert forall|i: int, j: int| 0 <= i < j < c.len() implies #[trigger] c[i] < #[trigger] c[j] by {
        let i2 = if i < a { i } else { i + (b - a) };
        let j2 = if j < a { j } else { j + (b - a) };
        assert(c[i] == ofs[i2]);
        assert(c[j] == ofs[j2]);
    }
    assert forall|i: int| 0 <= i < c.len() implies #[trigger] c[i] < n by {
        let i2 = if i < a { i } else { i + (b - a) };
        assert(c[i] == ofs[i2]);
    }
}

/// A compaction keeps the cracked column and its offsets of one length, nonempty, with the
/// offsets increasing and below their bound.
proof fn lemma_compacted_shape(crk: Seq<i64>, ofs: Seq<usize>, idx: Map<i64, usize>, v: i64, i: usize, n: int)
    requires
        compact_ok(crk, ofs, idx, v, i),
        crk.len() == ofs.len(),
        crk.len() > 0,
        offsets_ok(ofs, n),
    ensures
        ({
            let (c2, o2, m2) = compacted(crk, ofs, idx, v, i);
            &&& c2.len() == o2.len()
            &&& c2.len() > 0
            &&& offsets_ok(o2, n)
        }),
{
    let (crk1, ofs1, idx1, stop) = compacted_high(crk, ofs, idx, v, i);
    if idx.dom().contains((v + 1) as i64) {
        let j = idx[(v + 1) as i64] as int;
        if i < j - 1 {
            lemma_cut_offsets(ofs, i + 1, j, n);
        }
    }
    assert(crk1.len() == ofs1.len() && crk1.len() > 0 && offsets_ok(ofs1, n));
    if !stop && idx1.dom().contains((v - 1) as i64) {
        let j = idx1[(v - 1) as i64] as int;
        if j < i - 1 {
            lemma_cut_offsets(ofs1, j + 1, i as int, n);
        }
    }
}

/// With the keys above `v` able to lose `a1`, the keys above `v - 1` of the shifted index can
/// lose `a2` exactly when `v`'s own entry holds `a2` and the keys above `v` hold `a1 + a2`.
proof fn lemma_can_subtract_shifted(m: Map<i64, usize>, v: i64, a1: usize, a2: usize)
    requires
        v > i64::MIN,
        can_subtract_above(m, v, a1),
        a1 + a2 <= usize::MAX,
    ensures
        can_subtract_above(subtract_above(m, v, a1), (v - 1) as i64, a2)
            <==> ((m.dom().contains(v) ==> m[v] >= a2) && can_subtract_above(m, v, (a1 + a2) as usize)),
        subtract_above(m, v, a1).dom() == m.dom(),
        forall|k: i64| #[trigger] m.dom().contains(k) && k <= v ==> subtract_above(m, v, a1)[k] == m[k],
{
    let m1 = subtract_above(m, v, a1);
    assert(m1.dom() =~= m.dom());
    if can_subtract_above(m1, (v - 1) as i64, a2) {
        assert forall|k: i64| #[trigger] m.dom().contains(k) && k > v implies m[k] >= (a1 + a2) as usize by {
            assert(m1.dom().contains(k));
        }
        if m.dom().contains(v) {
            assert(m1.dom().contains(v));
        }
    }
    if (m.dom().contains(v) ==> m[v] >= a2) && can_subtract_above(m, v, (a1 + a2) as usize) {
        assert forall|k: i64| #[trigger] m1.dom().contains(k) && k > (v - 1) as i64 implies m1[k] >= a2 by {
            assert(m.dom().contains(k));
        }
    }
}

/// `t` holds the columns' values at the base rows listed in positions `a..b` of `base`.
pub open spec fn base_slice_selection(t: CoCoTable, cols: Seq<(String, IntCol)>, base: Seq<usize>, a: int, b: int) -> bool {
    &&& 0 <= a <= b <= base.len()
    &&& t.count == b - a
    &&& is_col_selection(t.int_columns@, cols, base.subrange(a, b))
}

/// `t` holds the rows at a stretch of the base rows, and each of them holds the value `x`.
pub open spec fn answers_value(t: CoCoTable, cols: Seq<(String, IntCol)>, base: Seq<usize>, v: Seq<i64>, x: i64) -> bool {
    exists|a: int, b: int| base_slice_selection(t, cols, base, a, b) && forall|j: int| a <= j < b ==> #[trigger] row_is(base, v, j, x)
}

/// Recording `hk` at `p_itr` when it does not exceed the column's length `len`, then compacting:
/// whether the compaction could run, and the cracked column, its offsets and its index after.
pub open spec fn recorded_high(crk: Seq<i64>, ofs: Seq<usize>, idx: Map<i64, usize>, hk: i64, p_itr: usize, len: usize) -> (bool, Seq<i64>, Seq<usize>, Map<i64, usize>) {
    if hk > (len as i64) {
        (true, crk, ofs, idx)
    } else {
        let idx1 = idx.insert(hk, p_itr);
        if compact_ok(crk, ofs, idx1, hk, p_itr) {
            let (c, o, m) = compacted(crk, ofs, idx1, hk, p_itr);
            (true, c, o, m)
        } else {
            (false, crk, ofs, idx1)
        }
    }
}

/// Recording the ends of a cracked range, `hk` at `p_itr` (as `recorded_high` does) and then
/// `al` at `p_low`, compacting after each, stopping at the first compaction that cannot run:
/// whether both could run, and the cracked column, its offsets and its index after.
pub open spec fn recorded(crk: Seq<i64>, ofs: Seq<usize>, idx: Map<i64, usize>, hk: i64, al: i64, p_itr: usize, p_low: usize, len: usize) -> (bool, Seq<i64>, Seq<usize>, Map<i64, usize>) {
    let (ok1, c1, o1, m1) = recorded_high(crk, ofs, idx, hk, p_itr, len);
    if !ok1 {
        (false, c1, o1, m1)
    } else {
        let m2 = m1.insert(al, p_low);
        if compact_ok(c1, o1, m2, al, p_low) {
            let (c, o, m) = compacted(c1, o1, m2, al, p_low);
            (true, c, o, m)
        } else {
            (false, c1, o1, m2)
        }
    }
}

/// `t` holds the rows at a stretch of the base rows, and a base row is in the stretch exactly
/// when it holds the value `x`.
pub open spec fn answers_value_exactly(t: CoCoTable, cols: Seq<(String, IntCol)>, base: Seq<usize>, v: Seq<i64>, x: i64) -> bool {
    exists|a: int, b: int| base_slice_selection(t, cols, base, a, b) && forall|j: int| 0 <= j < base.len() ==> ((a <= j < b) <==> #[trigger] row_is(base, v, j, x))
}

/// No answer is the exact answer for a value that no position of the column holds.
proof fn lemma_no_rows_exact(t: CoCoTable, cols: Seq<(String, IntCol)>, c: IntCol, x: i64, p: int)
    requires
        pieces_ok(c.crk@, c.ofs@, c.base_idx@, c.v@, c.crk_idx@),
        c.crk@.len() > 0,
        x < i64::MAX,
        0 <= p <= c.crk@.len(),
        entry_splits(c.crk@, x as int, p),
        entry_splits(c.crk@, x + 1, p),
        base_slice_selection(t, cols, c.base_idx@, 0, 0),
    ensures
        answers_value_exactly(t, cols, c.base_idx@, c.v@, x),
{
    lemma_rows_of_value(c.crk@, c.ofs@, c.base_idx@, c.v@, c.crk_idx@, p, p, x);
    assert forall|j: int| 0 <= j < c.base_idx@.len() implies ((0 <= j < 0) <==> #[trigger] row_is(c.base_idx@, c.v@, j, x)) by {
    }
}

/// When position `p` alone holds `x`, the rows of its run, which the index delimits when they
/// are several, are exactly the rows holding `x`.
proof fn lemma_one_position_exact(t: CoCoTable, cols: Seq<(String, IntCol)>, c: IntCol, x: i64, p: int, a: int, b: int)
    requires
        pieces_ok(c.crk@, c.ofs@, c.base_idx@, c.v@, c.crk_idx@),
        x < i64::MAX,
        0 <= p < c.crk@.len(),
        forall|i: int| 0 <= i < p ==> #[trigger] c.crk@[i] < x,
        c.crk@[p] == x,
        forall|i: int| p < i < c.crk@.len() ==> #[trigger] c.crk@[i] > x,
        a == c.ofs@[p] as int,
        b == end_at(c.ofs@, c.base_idx@.len() as int, p)
            || (b == a + 1 && !(c.crk_idx@.dom().contains(x) && c.crk_idx@.dom().contains((x + 1) as i64))),
        base_slice_selection(t, cols, c.base_idx@, a, b),
    ensures
        answers_value_exactly(t, cols, c.base_idx@, c.v@, x),
{
    let n = c.base_idx@.len() as int;
    let e = end_at(c.ofs@, n, p);
    if p + 1 < c.ofs@.len() {
        assert(c.ofs@[p] < c.ofs@[p + 1]);
    }
    if b != e {
        if e > a + 1 {
            assert(crate::graph::compaction::delimited_at(c.crk@, c.crk_idx@, p));
        }
    }
    assert(entry_splits(c.crk@, x as int, p));
    assert(entry_splits(c.crk@, x + 1, p + 1));
    lemma_rows_of_value(c.crk@, c.ofs@, c.base_idx@, c.v@, c.crk_idx@, p, p + 1, x);
    assert(ofs_at(c.ofs@, n, p) == a);
    assert(ofs_at(c.ofs@, n, p + 1) == e);
    assert forall|j: int| 0 <= j < c.base_idx@.len() implies ((a <= j < b) <==> #[trigger] row_is(c.base_idx@, c.v@, j, x)) by {
        assert((a <= j < e) <==> row_is(c.base_idx@, c.v@, j, x));
    }
}

/// The offsets of the positions between two splits of a compacted column stay in order and
/// inside the base rows.
proof fn lemma_exact_bounds(c: IntCol, x: i64, a: int, b: int)
    requires
        pieces_ok(c.crk@, c.ofs@, c.base_idx@, c.v@, c.crk_idx@),
        0 <= a <= b <= c.crk@.len(),
    ensures
        ofs_at(c.ofs@, c.base_idx@.len() as int, a) <= ofs_at(c.ofs@, c.base_idx@.len() as int, b) <= c.base_idx@.len(),
{
    if b < c.ofs@.len() && a < b {
        assert(c.ofs@[a] < c.ofs@[b]);
    }
    if b < c.ofs@.len() {
        assert(c.ofs@[b] < c.base_idx@.len());
    }
    if a < c.ofs@.len() {
        assert(c.ofs@[a] < c.base_idx@.len());
    }
}

/// After a crack that split the column at `a` for `x` and at `b` for `x + 1`, the base rows from
/// the offset of `a` to the offset of `b` are exactly the rows holding `x`.
proof fn lemma_exact_after_crack(t: CoCoTable, cols: Seq<(String, IntCol)>, c: IntCol, x: i64, a: int, b: int, sa: int, sb: int)
    requires
        pieces_ok(c.crk@, c.ofs@, c.base_idx@, c.v@, c.crk_idx@),
        c.crk@.len() > 0,
        x < i64::MAX,
        0 <= a <= b <= c.crk@.len(),
        entry_splits(c.crk@, x as int, a),
        entry_splits(c.crk@, x + 1, b),
        sa == ofs_at(c.ofs@, c.base_idx@.len() as int, a),
        sb == ofs_at(c.ofs@, c.base_idx@.len() as int, b),
        base_slice_selection(t, cols, c.base_idx@, sa, sb),
    ensures
        answers_value_exactly(t, cols, c.base_idx@, c.v@, x),
        answers_value(t, cols, c.base_idx@, c.v@, x),
{
    lemma_rows_of_value(c.crk@, c.ofs@, c.base_idx@, c.v@, c.crk_idx@, a, b, x);
    assert forall|j: int| sa <= j < sb implies #[trigger] row_is(c.base_idx@, c.v@, j, x) by {
        assert(0 <= j < c.base_idx@.len());
    }
}

/// Any stretch of the base rows of a cracked, ready table is made of rows of every column.
proof fn lemma_rows_ready(t: CoCoTable, a: int, b: int)
    requires
        t.select_ready(),
        t.crk_col.crk@.len() > 0,
        0 <= a <= b <= t.crk_col.base_idx@.len(),
    ensures
        rows_in_cols(t.int_columns@, t.crk_col.base_idx@.subrange(a, b)),
        all_below(t.crk_col.base_idx@.subrange(a, b), t.crk_col.v@.len() as int),
{
    let r = t.crk_col.base_idx@.subrange(a, b);
    assert forall|j: int| 0 <= j < r.len() implies (#[trigger] r[j]) < t.count by {
        assert(r[j] == t.crk_col.base_idx@[a + j]);
    }
    assert forall|i: int| 0 <= i < t.int_columns@.len() implies all_below(r, (#[trigger] t.int_columns@[i]).1.v@.len() as int) by {
    }
}

/// A compaction keeps every key of the index.
proof fn lemma_compacted_keeps_key(crk: Seq<i64>, ofs: Seq<usize>, idx: Map<i64, usize>, v: i64, i: usize, k: i64)
    requires
        idx.dom().contains(k),
    ensures
        compacted(crk, ofs, idx, v, i).2.dom().contains(k),
{
    let (crk1, ofs1, idx1, stop) = compacted_high(crk, ofs, idx, v, i);
    assert(idx1.dom().contains(k));
    if !stop && idx1.dom().contains((v - 1) as i64) {
        let j = idx1[(v - 1) as i64] as int;
        if j < i - 1 {
            assert(subtract_above(idx1, (v - 1) as i64, (i - j - 1) as usize).dom().contains(k));
        }
    }
}

/// The cracked column, its offsets, its base rows and its index.
pub open spec fn coco_state(c: IntCol) -> (Seq<i64>, Seq<usize>, Seq<usize>, Map<i64, usize>) {
    (c.crk@, c.ofs@, c.base_idx@, c.crk_idx@)
}

/// The state a lookup starts from on a table of `count` rows: the column's own, with its values
/// and the base rows in order before its first crack, and one offset per row before its first
/// compaction.
pub open spec fn coco_start(c: IntCol, count: usize) -> (Seq<i64>, Seq<usize>, Seq<usize>, Map<i64, usize>) {
    (
        if c.crk@.len() == 0 { c.v@ } else { c.crk@ },
        if c.ofs@.len() == 0 { iota_seq(count as nat) } else { c.ofs@ },
        if c.crk@.len() == 0 { iota_seq(count as nat) } else { c.base_idx@ },
        c.crk_idx@,
    )
}

/// The end of a range lookup that answers from the offsets after recording the ends `a` and `b`
/// of the cracked range, with `chp` where the answer's rows end: the stretch from the offset of
/// `a` to `chp`, or no rows where that stretch does not fit.
pub open spec fn coco_answer(st2: (Seq<i64>, Seq<usize>, Seq<usize>, Map<i64, usize>), a: int, b: int, chp: int) -> ((Seq<i64>, Seq<usize>, Seq<usize>, Map<i64, usize>), (int, int)) {
    let (c2, o2, b1, m2) = st2;
    if a >= o2.len() {
        (st2, (0, 0))
    } else if !(o2[a] <= chp && chp <= b1.len()) {
        (st2, (0, 0))
    } else if !(b <= c2.len() || a == b) {
        (st2, (0, 0))
    } else {
        (st2, (o2[a] as int, chp))
    }
}

/// A lookup of `al..=ah` (with `hk == ah + 1`) once the ends of the piece that can hold it are
/// found at `pl` and `ph`: the crack of `pl..=ph` (none when `pl > ph`), the recording of the
/// ends, and the stretch of base rows answered (`(0, 0)`: no rows) with the state after.
pub open spec fn coco_tail(st: (Seq<i64>, Seq<usize>, Seq<usize>, Map<i64, usize>), al: i64, ah: i64, hk: i64, pl: int, ph: int) -> ((Seq<i64>, Seq<usize>, Seq<usize>, Map<i64, usize>), (int, int)) {
    let (crk, ofs, base, idx) = st;
    let n = crk.len() as int;
    let nb = base.len() as int;
    let (c1, b1, res) = if pl <= ph { crate::crack::crack3_ofs(crk, base, ofs, pl, pl, ph, al, ah) } else { (crk, base, Some((pl, pl, ph))) };
    match res {
        None => ((c1, ofs, b1, idx), (0, 0)),
        Some((a, b, h)) => {
            let s_a = if a < ofs.len() { ofs[a] as int } else { nb };
            let s_b = if b < ofs.len() { ofs[b] as int } else { nb };
            let (ok, c2, o2, m2) = recorded(c1, ofs, idx, hk, al, b as usize, a as usize, n as usize);
            let st2 = (c2, o2, b1, m2);
            if al == ah {
                if s_a <= s_b && s_b <= nb { (st2, (s_a, s_b)) } else { (st2, (0, 0)) }
            } else if !ok {
                (st2, (0, 0))
            } else if b >= n {
                coco_answer(st2, a, b, b)
            } else if b < o2.len() {
                coco_answer(st2, a, b, o2[b] as int)
            } else {
                (st2, (0, 0))
            }
        },
    }
}

/// The stretch of base rows answered for position `p` when it alone can hold the range: its
/// whole run when the index delimits the piece of its value, else its first row.
pub open spec fn one_position_stretch(st: (Seq<i64>, Seq<usize>, Seq<usize>, Map<i64, usize>), p: int) -> (int, int) {
    let (crk, ofs, base, idx) = st;
    let w = crk[p];
    if w < i64::MAX && idx.dom().contains(w) && idx.dom().contains((w + 1) as i64) {
        (ofs[p] as int, if p >= ofs.len() - 1 { base.len() as int } else { ofs[p + 1] as int })
    } else {
        (ofs[p] as int, ofs[p] + 1)
    }
}

/// Where a lookup of a range from `al` starts its low end on a column of `n` positions: the
/// entry of the largest key not above `al`, or the first position, kept inside the column.
pub open spec fn start_low(idx: Map<i64, usize>, al: i64, n: int) -> int {
    let p = match lower_entry(idx, al) { Some(p) => p as int, None => 0 };
    if p >= n { n - 1 } else { p }
}

/// Where a lookup of a range up to `hk - 1` starts its high end on a column of `n` positions: the
/// entry of the least key not below `hk`, or the last position, kept inside the column.
pub open spec fn start_high(idx: Map<i64, usize>, hk: i64, n: int) -> int {
    let p = match upper_entry(idx, hk) { Some(p) => p as int, None => n - 1 };
    if p >= n { n - 1 } else { p }
}

/// A lookup of `al..=ah` (with `hk == ah + 1`) from the state `st`: the ends that the index gives
/// for `al` and `hk` are moved inwards over the values outside the range; no rows when they
/// leave the column; the rows of the one position left between them (its whole run when the
/// index delimits its piece); else `coco_tail`.
pub open spec fn coco_lookup(st: (Seq<i64>, Seq<usize>, Seq<usize>, Map<i64, usize>), al: i64, ah: i64, hk: i64) -> ((Seq<i64>, Seq<usize>, Seq<usize>, Map<i64, usize>), (int, int)) {
    let (crk, ofs, base, idx) = st;
    let n = crk.len() as int;
    let ph1 = start_high(idx, hk, n);
    let pl = scan_up(crk, n, start_low(idx, al, n), al);
    if pl >= n {
        (st, (0, 0))
    } else {
        let ph = scan_down(crk, ph1, ah);
        if crk[ph] > ah {
            (st, (0, 0))
        } else if pl == ph {
            (st, one_position_stretch(st, pl))
        } else {
            coco_tail(st, al, ah, hk, pl, ph)
        }
    }
}

/// `t` holds the rows at a stretch of the base rows, and a base row is in the stretch exactly
/// when its value lies in `al..=ah`.
pub open spec fn answers_range_exactly(t: CoCoTable, cols: Seq<(String, IntCol)>, base: Seq<usize>, v: Seq<i64>, al: int, ah: int) -> bool {
    exists|a: int, b: int| base_slice_selection(t, cols, base, a, b) && forall|j: int| 0 <= j < base.len() ==> ((a <= j < b) <==> #[trigger] row_in(base, v, j, al, ah))
}

/// Recording the ends of a range `al..=ah` with `al` below `ah` collapses no piece of this
/// cracked column: each value whose piece the recording would collapse, `ah + 1` when the index
/// holds `ah + 2`, `ah` when it holds `ah` but not `ah + 2`, `al` when it holds `al + 1` and
/// `al - 1` when it holds `al - 1` but not `al + 1`, is held by one position at most; and the
/// recording stays inside the column: the entry of `al + 1` is not the first position, and with
/// `al - 1` recorded (and `al + 1` not) some position holds a value below `al`.
pub open spec fn ends_collapse_nothing(crk: Seq<i64>, idx: Map<i64, usize>, al: int, ah: int) -> bool {
    &&& idx.dom().contains((ah + 2) as i64) ==> at_most_one(crk, (ah + 1) as i64)
    &&& idx.dom().contains(ah as i64) && !idx.dom().contains((ah + 2) as i64) ==> at_most_one(crk, ah as i64)
    &&& idx.dom().contains((al + 1) as i64) ==> at_most_one(crk, al as i64) && idx[(al + 1) as i64] > 0
    &&& idx.dom().contains((al - 1) as i64) && !idx.dom().contains((al + 1) as i64) ==> at_most_one(crk, (al - 1) as i64)
        && exists|q: int| 0 <= q < crk.len() && #[trigger] crk[q] < al
}

/// A lookup of a range `al..=ah` with `al` below `ah` on this table finds the cracked positions
/// where its answer reads them: recording the ends of the range collapses no piece of the
/// cracked column; `al` is above the least `i64` unless the index records `al + 1`, and the table
/// has fewer rows than the greatest;
/// and the cracked column either has a position per row or holds a value above the range. Every
/// other range is settled.
pub open spec fn range_settled(t: CoCoTable, al: int, ah: int) -> bool {
    let c = t.crk_col;
    al < ah ==> {
        &&& i64::MIN < al || c.crk_idx@.dom().contains((al + 1) as i64)
        &&& t.count < i64::MAX
        &&& ends_collapse_nothing(c.crk@, c.crk_idx@, al, ah)
        &&& (c.crk@.len() == 0 || c.crk@.len() == t.count || exists|q: int| 0 <= q < c.crk@.len() && #[trigger] c.crk@[q] > ah)
    }
}

/// The exact answer for a single value is the exact answer for the range of that value alone.
proof fn lemma_range_of_value_exact(t: CoCoTable, cols: Seq<(String, IntCol)>, base: Seq<usize>, v: Seq<i64>, x: i64)
    requires
        answers_value_exactly(t, cols, base, v, x),
    ensures
        answers_range_exactly(t, cols, base, v, x as int, x as int),
{
    let (a, b) = choose|a: int, b: int| base_slice_selection(t, cols, base, a, b) && forall|j: int| 0 <= j < base.len() ==> ((a <= j < b) <==> #[trigger] row_is(base, v, j, x));
    assert forall|j: int| 0 <= j < base.len() implies ((a <= j < b) <==> #[trigger] row_in(base, v, j, x as int, x as int)) by {
        assert((a <= j < b) <==> row_is(base, v, j, x));
    }
}

/// An empty stretch of rows is the exact answer for an empty range.
proof fn lemma_empty_range_exact(t: CoCoTable, cols: Seq<(String, IntCol)>, base: Seq<usize>, v: Seq<i64>, al: int, ah: int, a: int)
    requires
        al > ah,
        base_slice_selection(t, cols, base, a, a),
    ensures
        answers_range_exactly(t, cols, base, v, al, ah),
{
    assert forall|j: int| 0 <= j < base.len() implies ((a <= j < a) <==> #[trigger] row_in(base, v, j, al, ah)) by {
    }
}

/// No rows are the exact answer for a range that is empty, or that no position of the column
/// holds.
proof fn lemma_no_rows_range_exact(t: CoCoTable, cols: Seq<(String, IntCol)>, c: IntCol, al: int, ah: int, p: int)
    requires
        pieces_ok(c.crk@, c.ofs@, c.base_idx@, c.v@, c.crk_idx@),
        c.crk@.len() > 0,
        0 <= p <= c.crk@.len(),
        al > ah || (entry_splits(c.crk@, al, p) && entry_splits(c.crk@, ah + 1, p)),
        base_slice_selection(t, cols, c.base_idx@, 0, 0),
    ensures
        answers_range_exactly(t, cols, c.base_idx@, c.v@, al, ah),
{
    if al <= ah {
        lemma_rows_in_range(c.crk@, c.ofs@, c.base_idx@, c.v@, c.crk_idx@, p, p, al, ah);
    }
    assert forall|j: int| 0 <= j < c.base_idx@.len() implies ((0 <= j < 0) <==> #[trigger] row_in(c.base_idx@, c.v@, j, al, ah)) by {
    }
}

/// When position `p` alone holds values in `al..=ah`, the rows of its run, which the index
/// delimits when they are several, are exactly the rows holding such values.
proof fn lemma_one_position_range_exact(t: CoCoTable, cols: Seq<(String, IntCol)>, c: IntCol, al: int, ah: int, p: int, a: int, b: int)
    requires
        pieces_ok(c.crk@, c.ofs@, c.base_idx@, c.v@, c.crk_idx@),
        0 <= p < c.crk@.len(),
        forall|i: int| 0 <= i < p ==> #[trigger] c.crk@[i] < al,
        al <= c.crk@[p] <= ah,
        forall|i: int| p < i < c.crk@.len() ==> #[trigger] c.crk@[i] > ah,
        a == c.ofs@[p] as int,
        b == end_at(c.ofs@, c.base_idx@.len() as int, p)
            || (b == a + 1 && !(c.crk@[p] < i64::MAX && c.crk_idx@.dom().contains(c.crk@[p]) && c.crk_idx@.dom().contains((c.crk@[p] + 1) as i64))),
        base_slice_selection(t, cols, c.base_idx@, a, b),
    ensures
        answers_range_exactly(t, cols, c.base_idx@, c.v@, al, ah),
{
    let n = c.base_idx@.len() as int;
    let e = end_at(c.ofs@, n, p);
    if p + 1 < c.ofs@.len() {
        assert(c.ofs@[p] < c.ofs@[p + 1]);
    }
    if b != e {
        if e > a + 1 {
            assert(crate::graph::compaction::delimited_at(c.crk@, c.crk_idx@, p));
        }
    }
    assert(entry_splits(c.crk@, al, p));
    assert(entry_splits(c.crk@, ah + 1, p + 1));
    lemma_rows_in_range(c.crk@, c.ofs@, c.base_idx@, c.v@, c.crk_idx@, p, p + 1, al, ah);
    assert(ofs_at(c.ofs@, n, p) == a);
    assert(ofs_at(c.ofs@, n, p + 1) == e);
    assert forall|j: int| 0 <= j < c.base_idx@.len() implies ((a <= j < b) <==> #[trigger] row_in(c.base_idx@, c.v@, j, al, ah)) by {
        assert((a <= j < e) <==> row_in(c.base_idx@, c.v@, j, al, ah));
    }
}

/// After a crack that split the column at `a` for `al` and at `b` for `ah + 1`, or of an empty
/// range with `a == b`, the base rows from the offset of `a` to the offset of `b` are exactly the
/// rows holding a value in `al..=ah`.
proof fn lemma_range_exact_after_crack(t: CoCoTable, cols: Seq<(String, IntCol)>, c: IntCol, al: int, ah: int, a: int, b: int, sa: int, sb: int)
    requires
        pieces_ok(c.crk@, c.ofs@, c.base_idx@, c.v@, c.crk_idx@),
        c.crk@.len() > 0,
        0 <= a <= b <= c.crk@.len(),
        (al > ah && a == b) || (entry_splits(c.crk@, al, a) && entry_splits(c.crk@, ah + 1, b)),
        sa == ofs_at(c.ofs@, c.base_idx@.len() as int, a),
        sb == ofs_at(c.ofs@, c.base_idx@.len() as int, b),
        base_slice_selection(t, cols, c.base_idx@, sa, sb),
    ensures
        answers_range_exactly(t, cols, c.base_idx@, c.v@, al, ah),
{
    if al > ah && a == b {
        assert forall|j: int| 0 <= j < c.base_idx@.len() implies ((sa <= j < sb) <==> #[trigger] row_in(c.base_idx@, c.v@, j, al, ah)) by {
        }
    } else {
        lemma_rows_in_range(c.crk@, c.ofs@, c.base_idx@, c.v@, c.crk_idx@, a, b, al, ah);
    }
}

/// After a crack of `pl..=ph` around `al..=ah`, on a column whose values before `pl` are below
/// `al` and after `ph` above `ah`, `al` splits the column where the values in the range start and
/// `ah + 1` where they end.
proof fn lemma_range_split_after_crack(crk2: Seq<i64>, pl: int, ph: int, al: i64, ah: i64, a: int, b: int, h: int)
    requires
        al <= ah + 1,
        0 <= pl <= ph < crk2.len(),
        forall|i: int| 0 <= i < pl ==> #[trigger] crk2[i] < al,
        forall|i: int| ph < i < crk2.len() ==> #[trigger] crk2[i] > ah,
        crate::crack::three_way(crk2, pl, ph, al, ah, a, b, h),
    ensures
        entry_splits(crk2, al as int, a),
        entry_splits(crk2, ah + 1, b),
{
    assert(crate::crack::disjoint(al, ah));
    assert forall|i: int| 0 <= i < a && i < crk2.len() implies #[trigger] crk2[i] < al by {
        if i >= pl {
            assert(crate::crack::c_low(crk2[i], al as int));
        }
    }
    assert forall|i: int| a <= i < crk2.len() implies #[trigger] crk2[i] >= al by {
        if i < b {
            assert(crate::crack::in_range(crk2[i], al as int, ah as int));
        } else if i <= ph {
            assert(crate::crack::c_high(crk2[i], ah as int));
        }
    }
    assert forall|i: int| 0 <= i < b && i < crk2.len() implies #[trigger] crk2[i] < ah + 1 by {
        if i >= a {
            assert(crate::crack::in_range(crk2[i], al as int, ah as int));
        } else if i >= pl {
            assert(crate::crack::c_low(crk2[i], al as int));
        }
    }
    assert forall|i: int| b <= i < crk2.len() implies #[trigger] crk2[i] >= ah + 1 by {
        if i <= ph {
            assert(crate::crack::c_high(crk2[i], ah as int));
        }
    }
}

/// A crack of `pl..=ph` around `al..=ah` on a column holding a value above the range ends the
/// values inside the range before the end of the column.
proof fn lemma_range_end_inside(c0: Seq<i64>, c1: Seq<i64>, pl: int, ph: int, al: i64, ah: i64, a: int, b: int, h: int)
    requires
        al <= ah + 1,
        c1.len() == c0.len(),
        0 <= pl <= ph < c0.len(),
        forall|i: int| 0 <= i < pl ==> #[trigger] c0[i] < al,
        crate::crack::same_outside(c1, c0, pl, ph),
        crate::crack::three_way(c1, pl, ph, al, ah, a, b, h),
        crate::crack::holds_above(c0, pl, ph, ah) ==> crate::crack::holds_above(c1, pl, ph, ah),
        exists|q: int| 0 <= q < c0.len() && #[trigger] c0[q] > ah,
    ensures
        b < c0.len(),
{
    assert(crate::crack::disjoint(al, ah));
    let q = choose|q: int| 0 <= q < c0.len() && #[trigger] c0[q] > ah;
    if pl <= q <= ph {
        assert(crate::crack::holds_above(c0, pl, ph, ah));
        let q1 = choose|q1: int| pl <= q1 <= ph && #[trigger] c1[q1] > ah;
        if q1 < a {
            assert(crate::crack::c_low(c1[q1], al as int));
        } else if q1 < b {
            assert(crate::crack::in_range(c1[q1], al as int, ah as int));
        }
    } else if q < pl {
        assert(c0[q] < al);
    }
}

/// Two keys split the column in their order.
proof fn lemma_splits_ordered(crk: Seq<i64>, k1: int, p1: int, k2: int, p2: int)
    requires
        entry_splits(crk, k1, p1),
        entry_splits(crk, k2, p2),
        k1 <= k2,
        0 <= p1 <= crk.len(),
        0 <= p2 <= crk.len(),
    ensures
        p1 <= p2,
{
    if p2 < p1 {
        assert(crk[p2] < k1);
        assert(crk[p2] >= k2);
    }
}

/// Recording the ends of a range `al..=hk - 1` with `al` below `hk - 1`, on a column split at `a`
/// for `al` and at `b` for `hk`, compacts nothing when each value whose piece the recording would
/// collapse is held by one position at most: the cracked column and its offsets stay, and the
/// recording fails only when no position lies in the range.
proof fn lemma_recorded_unique(crk: Seq<i64>, ofs: Seq<usize>, base: Seq<usize>, v: Seq<i64>, idx: Map<i64, usize>, hk: i64, al: i64, b: usize, a: usize, len: usize)
    requires
        pieces_ok(crk, ofs, base, v, idx),
        len == crk.len(),
        al < hk - 1,
        i64::MIN < al || idx.dom().contains((al + 1) as i64),
        hk < i64::MAX || hk > (len as i64),
        a <= b <= crk.len(),
        entry_splits(crk, al as int, a as int),
        entry_splits(crk, hk as int, b as int),
        idx.dom().contains((hk + 1) as i64) ==> at_most_one(crk, hk),
        idx.dom().contains((hk - 1) as i64) && !idx.dom().contains((hk + 1) as i64) ==> at_most_one(crk, (hk - 1) as i64),
        idx.dom().contains((al + 1) as i64) ==> at_most_one(crk, al) && idx[(al + 1) as i64] > 0,
        idx.dom().contains((al - 1) as i64) && !idx.dom().contains((al + 1) as i64) ==> at_most_one(crk, (al - 1) as i64) && a > 0,
    ensures
        ({
            let (ok, c, o, m) = recorded(crk, ofs, idx, hk, al, b, a, len);
            &&& c == crk
            &&& o == ofs
            &&& !ok ==> a == b
        }),
{
    let (ok1, c1, o1, m1) = recorded_high(crk, ofs, idx, hk, b, len);
    if !(hk > (len as i64)) {
        let idx1 = idx.insert(hk, b);
        let h1 = (hk + 1) as i64;
        let h0 = (hk - 1) as i64;
        if idx.dom().contains(h1) {
            let j = idx[h1] as int;
            assert(idx1[h1] == j);
            assert(entry_splits(crk, h1 as int, j));
            lemma_splits_ordered(crk, hk as int, b as int, h1 as int, j);
            if b + 1 < j {
                assert(crk[b as int] == hk && crk[b + 1] == hk);
                assert(!(crk[b as int] == hk && crk[b + 1] == hk));
            }
            if j == 0 {
                assert(b == 0);
            }
            assert(compacted_high(crk, ofs, idx1, hk, b).3);
            assert(compacted(crk, ofs, idx1, hk, b) == (crk, ofs, idx1));
        } else {
            assert(!idx1.dom().contains(h1));
            if idx.dom().contains(h0) {
                let j = idx[h0] as int;
                assert(idx1[h0] == j);
                assert(entry_splits(crk, h0 as int, j));
                lemma_splits_ordered(crk, h0 as int, j, hk as int, b as int);
                if j + 1 < b {
                    assert(crk[j] == h0 && crk[j + 1] == h0);
                    assert(!(crk[j] == h0 && crk[j + 1] == h0));
                }
                if b == 0 {
                    assert(a == 0);
                }
            } else {
                assert(!idx1.dom().contains(h0));
            }
            assert(compacted(crk, ofs, idx1, hk, b) == (crk, ofs, idx1));
        }
        assert(ok1 ==> c1 == crk && o1 == ofs && m1 == idx1);
        assert(!ok1 ==> a == b);
    } else {
        assert(ok1 && c1 == crk && o1 == ofs && m1 == idx);
    }
    if ok1 {
        assert(forall|k: i64| #[trigger] m1.dom().contains(k) ==> idx.dom().contains(k) || k == hk);
        assert(forall|k: i64| #[trigger] idx.dom().contains(k) && k != hk ==> m1.dom().contains(k) && m1[k] == idx[k]);
        let m2 = m1.insert(al, a);
        let l1 = (al + 1) as i64;
        let l0 = (al - 1) as i64;
        assert(al < i64::MAX);
        if idx.dom().contains(l1) {
            let j = idx[l1] as int;
            assert(m2[l1] == j);
            assert(entry_splits(crk, l1 as int, j));
            lemma_splits_ordered(crk, al as int, a as int, l1 as int, j);
            if a + 1 < j {
                assert(crk[a as int] == al && crk[a + 1] == al);
                assert(!(crk[a as int] == al && crk[a + 1] == al));
            }
            assert(compacted_high(c1, o1, m2, al, a).3);
            assert(compact_ok(c1, o1, m2, al, a));
            assert(compacted(c1, o1, m2, al, a) == (c1, o1, m2));
        } else {
            assert(!m2.dom().contains(l1));
            if idx.dom().contains(l0) {
                let j = idx[l0] as int;
                assert(m2[l0] == j);
                assert(entry_splits(crk, l0 as int, j));
                lemma_splits_ordered(crk, l0 as int, j, al as int, a as int);
                if j + 1 < a {
                    assert(crk[j] == l0 && crk[j + 1] == l0);
                    assert(!(crk[j] == l0 && crk[j + 1] == l0));
                }
            } else {
                assert(!m2.dom().contains(l0));
            }
            assert(compact_ok(c1, o1, m2, al, a));
            assert(compacted(c1, o1, m2, al, a) == (c1, o1, m2));
        }
    }
}

/// Whether `compact(v, i)` can run on the cracker column `c`, whose offsets are set up.
fn compact_fits(c: &IntCol, v: i64, i: usize) -> (r: bool)
    requires
        c.crk_idx.wf(),
        c.ofs@.len() > 0,
    ensures
        r == compact_ok(c.crk@, c.ofs@, c.crk_idx@, v, i),
{
    let ghost m = c.crk_idx@;
    if v == i64::MAX {
        return false;
    }
    let len = c.crk.len();
    let olen = c.ofs.len();
    let mut len1 = len;
    let mut olen1 = olen;
    let mut amt1: usize = 0;
    match c.crk_idx.get(v + 1) {
        Some(j) => {
            if j < 1 {
                return false;
            }
            if i >= j - 1 {
                return true;
            }
            if !(j <= len && j <= olen) {
                return false;
            }
            amt1 = j - i - 1;
            if !c.crk_idx.can_subtract_where_greater_than(v, amt1) {
                return false;
            }
            len1 = len - amt1;
            olen1 = olen - amt1;
        },
        None => {},
    }
    assert(can_subtract_above(m, v, amt1));
    assert(len1 == compacted_high(c.crk@, c.ofs@, m, v, i).0.len());
    assert(olen1 == compacted_high(c.crk@, c.ofs@, m, v, i).1.len());
    if v == i64::MIN {
        return false;
    }
    proof {
        lemma_can_subtract_shifted(m, v, amt1, 0);
        assert(compacted_high(c.crk@, c.ofs@, m, v, i).2 == subtract_above(m, v, amt1)) by {
            if amt1 == 0 {
                assert(subtract_above(m, v, 0) =~= m);
            }
        }
    }
    match c.crk_idx.get(v - 1) {
        Some(j) => {
            if i < 1 {
                return false;
            }
            if j < i - 1 {
                if !(i <= len1 && i <= olen1) {
                    return false;
                }
                let amt2 = i - j - 1;
                proof {
                    lemma_can_subtract_shifted(m, v, amt1, amt2);
                }
                match c.crk_idx.get(v) {
                    Some(d) => {
                        if d < amt2 {
                            return false;
                        }
                    },
                    None => {},
                }
                return c.crk_idx.can_subtract_where_greater_than(v, amt1 + amt2);
            }
            true
        },
        None => true,
    }
}

/// A ready table whose cracked column is its values in base-row order, with no offsets and an
/// empty index, is coherent: each position's run is its own row.
proof fn lemma_uncracked_coherent(t: CoCoTable)
    requires
        t.select_ready(),
        t.crk_col.crk@ == t.crk_col.v@,
        t.crk_col.base_idx@ == iota_seq(t.count as nat),
        t.crk_col.ofs@.len() == 0,
        t.crk_col.crk_idx@ == Map::<i64, usize>::empty(),
    ensures
        t.coherent(),
{
    let c = t.crk_col;
    let n = t.count as int;
    let o = start_ofs(c.ofs@, t.count);
    lemma_iota_offsets(t.count);
    assert forall|p: int, j: int| 0 <= p < c.crk@.len() && o[p] <= j < end_at(o, n, p) implies #[trigger] row_is(c.base_idx@, c.v@, j, c.crk@[p]) by {
        assert(o[p] == p);
        if p < n - 1 {
            assert(o[p + 1] == p + 1);
        }
        assert(c.base_idx@[j] == j);
    }
    assert forall|p: int| 0 <= p < c.crk@.len() && end_at(o, n, p) > o[p] + 1 implies #[trigger] crate::graph::compaction::delimited_at(c.crk@, c.crk_idx@, p) by {
        assert(o[p] == p);
        if p < n - 1 {
            assert(o[p + 1] == p + 1);
        }
    }
}

impl CoCoTable {
    /// The table is set up for lookups: every column has a value per row; once cracked, the
    /// cracker column lists every base row once, and each of its (possibly compacted) positions
    /// has an offset into those rows, increasing along the column; an uncompacted, cracked
    /// column has a position per row; and the index is well formed.
    pub open spec fn select_ready(&self) -> bool {
        let c = self.crk_col;
        &&& self.count > 0
        &&& c.crk_idx.wf()
        &&& c.v@.len() == self.count
        &&& forall|i: int| 0 <= i < self.int_columns@.len() ==> (#[trigger] self.int_columns@[i]).1.v@.len() == self.count
        &&& c.crk@.len() == 0 ==> c.ofs@.len() == 0
        &&& c.crk@.len() > 0 ==> {
            &&& c.base_idx@.len() == self.count
            &&& distinct(c.base_idx@)
            &&& all_below(c.base_idx@, self.count as int)
        }
        &&& c.ofs@.len() == 0 ==> c.crk@.len() == 0 || c.crk@.len() == self.count
        &&& c.ofs@.len() > 0 ==> c.ofs@.len() == c.crk@.len() && offsets_ok(c.ofs@, self.count as int)
    }

    /// Besides being set up for lookups, the cracked column keeps what its lookups of single
    /// values rely on: with no cracked copy the index is empty, and with one, the base rows of
    /// each position's run hold its value, the index splits the column at each key, and a
    /// position whose run holds several rows is the whole piece of its value.
    pub open spec fn coherent(&self) -> bool {
        let c = self.crk_col;
        &&& self.select_ready()
        &&& c.crk@.len() == 0 ==> c.crk_idx@ == Map::<i64, usize>::empty()
        &&& c.crk@.len() > 0 ==> pieces_ok(c.crk@, start_ofs(c.ofs@, self.count), c.base_idx@, c.v@, c.crk_idx@)
    }

    pub fn new() -> (r: CoCoTable)
        ensures
            r.count == 0,
            r.crk_col_name@ == Seq::<char>::empty(),
            is_fresh(r.crk_col),
            r.int_columns@ == Seq::<(String, IntCol)>::empty(),
    {
        CoCoTable { count: 0, crk_col_name: String::new(), crk_col: IntCol::empty(), int_columns: Vec::new() }
    }

    /// Makes the column `col_name` the cracker column: its cracked copy (made from its values if
    /// it has none) is copied into the cracker column, whose base rows start in order. The
    /// cracker index is kept.
    pub fn set_crk_col(&mut self, col_name: &str)
        requires
            has_name(old(self).int_columns@, col_name@),
        ensures
            final(self).count == old(self).count,
            final(self).crk_col_name@ == col_name@,
            final(self).int_columns@.len() == old(self).int_columns@.len(),
            final(self).crk_col.base_idx@ == iota_seq(old(self).count as nat),
            final(self).crk_col.crk_idx == old(self).crk_col.crk_idx,
            final(self).crk_col.ofs == old(self).crk_col.ofs,
            final(self).crk_col.run_lengths == old(self).crk_col.run_lengths,
            exists|i: int| #![trigger first_named(old(self).int_columns@, col_name@, i)] {
                let c = old(self).int_columns@[i].1;
                let crk = if c.crk@.len() == 0 { c.v@ } else { c.crk@ };
                &&& first_named(old(self).int_columns@, col_name@, i)
                &&& forall|j: int| 0 <= j < old(self).int_columns@.len() && j != i ==> #[trigger] final(self).int_columns@[j] == old(self).int_columns@[j]
                &&& final(self).int_columns@[i].0 == old(self).int_columns@[i].0
                &&& final(self).int_columns@[i].1.v == c.v
                &&& final(self).int_columns@[i].1.crk@ == crk
                &&& final(self).int_columns@[i].1.crk_idx == c.crk_idx
                &&& final(self).int_columns@[i].1.base_idx == c.base_idx
                &&& final(self).int_columns@[i].1.ofs == c.ofs
                &&& final(self).int_columns@[i].1.run_lengths == c.run_lengths
                &&& final(self).crk_col.v@ == crk
                &&& final(self).crk_col.crk@ == crk
            },
    {
        self.crk_col_name = String::from_str(col_name);
        match find_col(&self.int_columns, col_name) {
            Some(i) => {
                if self.int_columns[i].1.crk.len() == 0 {
                    let copied = copy_vec(&self.int_columns[i].1.v);
                    self.int_columns[i].1.crk = copied;
                }
                self.crk_col.v = copy_vec(&self.int_columns[i].1.crk);
                self.crk_col.crk = copy_vec(&self.int_columns[i].1.crk);
                self.crk_col.base_idx = iota(self.count);
                proof {
                    assert(first_named(old(self).int_columns@, col_name@, i as int));
                }
            },
            None => {
                proof {
                    assert(false);
                }
            },
        }
    }

    /// Adds an empty column for each name, after the existing ones; no name may be taken.
    pub fn new_columns(&mut self, cols: Vec<&str>)
        requires
            forall|j: int| 0 <= j < cols@.len() ==> !has_name(old(self).int_columns@, (#[trigger] cols@[j])@),
            forall|j: int, k: int| 0 <= j < cols@.len() && 0 <= k < cols@.len() && j != k ==> (#[trigger] cols@[j])@ != (#[trigger] cols@[k])@,
        ensures
            final(self).count == old(self).count,
            final(self).crk_col == old(self).crk_col,
            final(self).crk_col_name == old(self).crk_col_name,
            final(self).int_columns@.len() == old(self).int_columns@.len() + cols@.len(),
            forall|i: int| 0 <= i < old(self).int_columns@.len() ==> #[trigger] final(self).int_columns@[i] == old(self).int_columns@[i],
            forall|k: int| 0 <= k < cols@.len() ==> {
                &&& final(self).int_columns@[old(self).int_columns@.len() + k].0@ == (#[trigger] cols@[k])@
                &&& is_fresh(final(self).int_columns@[old(self).int_columns@.len() + k].1)
            },
            names_distinct(old(self).int_columns@) ==> names_distinct(final(self).int_columns@),
    {
        let ghost before = self.int_columns@;
        let mut j: usize = 0;
        while j < cols.len()
            invariant
                j <= cols@.len(),
                self.count == old(self).count,
                self.crk_col == old(self).crk_col,
                self.crk_col_name == old(self).crk_col_name,
                before == old(self).int_columns@,
                forall|j2: int| 0 <= j2 < cols@.len() ==> !has_name(before, (#[trigger] cols@[j2])@),
                forall|j2: int, k: int| 0 <= j2 < cols@.len() && 0 <= k < cols@.len() && j2 != k ==> (#[trigger] cols@[j2])@ != (#[trigger] cols@[k])@,
                self.int_columns@.len() == before.len() + j,
                forall|i: int| 0 <= i < before.len() ==> #[trigger] self.int_columns@[i] == before[i],
                forall|k: int| 0 <= k < j ==> {
                    &&& (#[trigger] self.int_columns@[before.len() + k]).0@ == cols@[k]@
                    &&& is_fresh(self.int_columns@[before.len() + k].1)
                },
                names_distinct(before) ==> names_distinct(self.int_columns@),
            decreases cols@.len() - j,
        {
            let ghost prev = self.int_columns@;
            let nm = String::from_str(cols[j]);
            self.int_columns.push((nm, IntCol::empty()));
            proof {
                let last = prev.len() as int;
                assert forall|k: int| 0 <= k < j + 1 implies {
                    &&& (#[trigger] self.int_columns@[before.len() + k]).0@ == cols@[k]@
                    &&& is_fresh(self.int_columns@[before.len() + k].1)
                } by {
                    if k < j {
                        assert(self.int_columns@[before.len() + k] == prev[before.len() + k]);
                    }
                }
                if names_distinct(before) {
                    assert forall|a: int, b: int| 0 <= a < self.int_columns@.len() && 0 <= b < self.int_columns@.len() && a != b
                        implies (#[trigger] self.int_columns@[a]).0@ != (#[trigger] self.int_columns@[b]).0@ by {
                        let c = self.int_columns@;
                        if a != last && b != last {
                            assert(c[a] == prev[a]);
                            assert(c[b] == prev[b]);
                        } else {
                            let o = if a == last { b } else { a };
                            assert(c[o] == prev[o]);
                            if o < before.len() {
                                assert(!has_name(before, cols@[j as int]@));
                                assert(prev[o] == before[o]);
                            } else {
                                let k = o - before.len();
                                assert(prev[before.len() + k].0@ == cols@[k]@);
                                assert(cols@[k]@ != cols@[j as int]@);
                            }
                        }
                    }
                }
            }
            j += 1;
        }
    }

    /// Adds rows to the columns: each entry's values are appended to the column it names, or
    /// become a new column when it names none.
    pub fn insert(&mut self, new_values: Vec<(&str, Vec<i64>)>)
        requires
            cols_batch_ok(old(self).int_columns@, old(self).count as nat, new_values@),
        ensures
            final(self).count == cols_count_after(old(self).int_columns@, old(self).count as nat, new_values@),
            appended_intcols(final(self).int_columns@, old(self).int_columns@, new_values@),
            final(self).crk_col == old(self).crk_col,
            final(self).crk_col_name == old(self).crk_col_name,
    {
        let count = batch_count(&self.int_columns, self.count, &new_values);
        let mut entries = new_values;
        append_batch(&mut self.int_columns, &mut entries);
        self.count = count;
    }

    /// Keeps, in every column and in the cracker column, the rows listed in `indices`, in that
    /// order; the cracked copies and the cracker index are dropped.
    pub fn rearrange(&mut self, indices: &[usize])
        requires
            rows_in_cols(old(self).int_columns@, indices@),
            all_below(indices@, old(self).crk_col.v@.len() as int),
        ensures
            final(self).count == old(self).count,
            final(self).crk_col_name == old(self).crk_col_name,
            is_col_selection(final(self).int_columns@, old(self).int_columns@, indices@),
            final(self).crk_col.v@ == gather(old(self).crk_col.v@, indices@),
            final(self).crk_col.crk@ == Seq::<i64>::empty(),
            final(self).crk_col.crk_idx.wf(),
            final(self).crk_col.crk_idx@ == Map::<i64, usize>::empty(),
            final(self).crk_col.base_idx@ == Seq::<usize>::empty(),
            final(self).crk_col.ofs@ == Seq::<usize>::empty(),
            final(self).crk_col.run_lengths@ == Seq::<usize>::empty(),
    {
        let selection = select_columns(&self.int_columns, indices);
        self.int_columns = selection;
        self.crk_col.rearrange(indices);
    }

    /// The column named `col`.
    pub fn get_i64_col(&self, col: &str) -> (r: &IntCol)
        requires
            has_name(self.int_columns@, col@),
        ensures
            *r == col_named(self.int_columns@, col@),
    {
        match find_col(&self.int_columns, col) {
            Some(i) => {
                proof {
                    lemma_col_named(self.int_columns@, col@, i as int);
                }
                &self.int_columns[i].1
            },
            None => {
                proof {
                    assert(false);
                }
                &self.crk_col
            },
        }
    }

    /// The rows listed in `base_indices`, in that order, as a new table whose cracker column
    /// holds the cracked positions `compressed_indices` under a fresh index.
    pub fn get_indices(&self, base_indices: &[usize], compressed_indices: std::ops::Range<usize>) -> (t: CoCoTable)
        requires
            rows_in_cols(self.int_columns@, base_indices@),
            all_below(base_indices@, self.crk_col.v@.len() as int),
            self.crk_col.crk@.len() > 0 && compressed_indices.start < compressed_indices.end ==> compressed_indices.end <= self.crk_col.crk@.len(),
        ensures
            t.count == base_indices@.len(),
            t.crk_col_name@ == Seq::<char>::empty(),
            is_col_selection(t.int_columns@, self.int_columns@, base_indices@),
            t.crk_col.v@ == gather(self.crk_col.v@, base_indices@),
            t.crk_col.crk@ == if self.crk_col.crk@.len() > 0 && compressed_indices.start < compressed_indices.end {
                self.crk_col.crk@.subrange(compressed_indices.start as int, compressed_indices.end as int)
            } else {
                Seq::<i64>::empty()
            },
            t.crk_col.crk_idx.wf(),
            t.crk_col.crk_idx@ == Map::<i64, usize>::empty(),
            t.crk_col.base_idx@ == Seq::<usize>::empty(),
            t.crk_col.ofs@ == Seq::<usize>::empty(),
            t.crk_col.run_lengths@ == Seq::<usize>::empty(),
    {
        let selection = select_columns(&self.int_columns, base_indices);
        let mut t = CoCoTable::new();
        t.int_columns = selection;
        t.count = base_indices.len();
        if self.crk_col.crk.len() > 0 {
            if compressed_indices.start < compressed_indices.end {
                t.crk_col.crk = copy_range(&self.crk_col.crk, compressed_indices.start, compressed_indices.end);
            }
            t.crk_col.crk_idx = AVLCrackerIndex::new();
        }
        t.crk_col.v = gather_vec(&self.crk_col.v, base_indices);
        t
    }

    /// The base rows of the piece at compressed position `compressed_index`, as a new table of
    /// the columns' values there.
    pub fn decompress_index(&self, compressed_index: usize) -> (t: CoCoTable)
        requires
            compressed_index < self.crk_col.ofs@.len(),
            self.crk_col.ofs@[compressed_index as int] <= run_end(self.crk_col, compressed_index as int) <= self.crk_col.base_idx@.len(),
            rows_in_cols(self.int_columns@, run_rows(self.crk_col, compressed_index as int)),
        ensures
            t.count == run_rows(self.crk_col, compressed_index as int).len(),
            t.crk_col_name@ == Seq::<char>::empty(),
            is_col_selection(t.int_columns@, self.int_columns@, run_rows(self.crk_col, compressed_index as int)),
            is_fresh(t.crk_col),
    {
        let offset = self.crk_col.ofs[compressed_index];
        let next_offset = if compressed_index >= self.crk_col.ofs.len() - 1 {
            self.crk_col.base_idx.len()
        } else {
            self.crk_col.ofs[compressed_index + 1]
        };
        let base_indices = copy_range(&self.crk_col.base_idx, offset, next_offset);
        let int_selection = select_columns(&self.int_columns, base_indices.as_slice());
        let mut t = CoCoTable::new();
        t.int_columns = int_selection;
        t.count = base_indices.len();
        t
    }

    /// Compacts the cracked column around the entry just recorded for `v` at position `i`: when
    /// the index delimits the piece of `v`, its positions after `i` go; when it delimits the piece
    /// of `v - 1`, that piece's positions after its first go. The index entries of the larger
    /// keys move down accordingly, and the offsets follow the cracked column.
    pub fn compact(&mut self, v: i64, i: usize)
        requires
            old(self).crk_col.crk_idx.wf(),
            compact_ok(old(self).crk_col.crk@, start_ofs(old(self).crk_col.ofs@, old(self).count), old(self).crk_col.crk_idx@, v, i),
        ensures
            final(self).count == old(self).count,
            final(self).crk_col_name == old(self).crk_col_name,
            final(self).int_columns == old(self).int_columns,
            final(self).crk_col.v == old(self).crk_col.v,
            final(self).crk_col.base_idx == old(self).crk_col.base_idx,
            final(self).crk_col.run_lengths == old(self).crk_col.run_lengths,
            final(self).crk_col.crk_idx.wf(),
            compacted(old(self).crk_col.crk@, start_ofs(old(self).crk_col.ofs@, old(self).count), old(self).crk_col.crk_idx@, v, i)
                == (final(self).crk_col.crk@, final(self).crk_col.ofs@, final(self).crk_col.crk_idx@),
    {
        if self.crk_col.ofs.len() == 0 {
            self.crk_col.ofs = iota(self.count);
        }
        match self.crk_col.crk_idx.get(v + 1) {
            Some(j) => {
                if i >= j - 1 {
                    return;
                }
                cut_range(&mut self.crk_col.crk, i + 1, j);
                cut_range(&mut self.crk_col.ofs, i + 1, j);
                self.crk_col.crk_idx.subtract_where_greater_than(v, j - i - 1);
            },
            None => {},
        }
        match self.crk_col.crk_idx.get(v - 1) {
            Some(j) => {
                if j >= i - 1 {
                    return;
                }
                cut_range(&mut self.crk_col.crk, j + 1, i);
                cut_range(&mut self.crk_col.ofs, j + 1, i);
                self.crk_col.crk_idx.subtract_where_greater_than(v - 1, i - j - 1);
            },
            None => {},
        }
    }

    /// No rows: the selection answered when nothing lies in the range.
    fn no_rows(&self) -> (t: CoCoTable)
        requires
            self.select_ready(),
        ensures
            base_slice_selection(t, self.int_columns@, self.crk_col.base_idx@, 0, 0),
    {
        let none: Vec<usize> = Vec::new();
        proof {
            assert(self.crk_col.base_idx@.subrange(0, 0) =~= none@);
        }
        self.get_indices(none.as_slice(), 0..0)
    }

    /// The rows listed in positions `a..b` of the base-row indices, with the cracked positions
    /// `ca..cb`.
    fn base_rows(&self, a: usize, b: usize, ca: usize, cb: usize) -> (t: CoCoTable)
        requires
            self.select_ready(),
            self.crk_col.crk@.len() > 0,
            a <= b <= self.crk_col.base_idx@.len(),
            ca <= cb <= self.crk_col.crk@.len(),
        ensures
            base_slice_selection(t, self.int_columns@, self.crk_col.base_idx@, a as int, b as int),
    {
        let rows = copy_range(&self.crk_col.base_idx, a, b);
        proof {
            lemma_rows_ready(*self, a as int, b as int);
        }
        self.get_indices(rows.as_slice(), ca..cb)
    }

    /// Sets the cracker column up for cracking: a copy of the values, with the base rows in
    /// order, if it has not been cracked, and one offset per row if it has none.
    fn prepare_crack(&mut self)
        requires
            old(self).select_ready(),
        ensures
            final(self).select_ready(),
            final(self).count == old(self).count,
            final(self).int_columns == old(self).int_columns,
            final(self).crk_col_name == old(self).crk_col_name,
            final(self).crk_col.v == old(self).crk_col.v,
            final(self).crk_col.crk_idx == old(self).crk_col.crk_idx,
            final(self).crk_col.crk@.len() > 0,
            final(self).crk_col.ofs@.len() == final(self).crk_col.crk@.len(),
            old(self).coherent() ==> final(self).coherent(),
            old(self).coherent() ==> pieces_ok(final(self).crk_col.crk@, final(self).crk_col.ofs@, final(self).crk_col.base_idx@, final(self).crk_col.v@, final(self).crk_col.crk_idx@),
            old(self).crk_col.crk@.len() > 0 ==> final(self).crk_col.crk == old(self).crk_col.crk,
            old(self).crk_col.crk@.len() == 0 ==> final(self).crk_col.crk@.len() == final(self).count,
            coco_state(final(self).crk_col) == coco_start(old(self).crk_col, old(self).count),
    {
        let ghost was_empty = self.crk_col.crk@.len() == 0;
        if self.crk_col.crk.len() == 0 {
            self.crk_col.crk = copy_vec(&self.crk_col.v);
            self.crk_col.base_idx = iota(self.count);
        }
        if self.crk_col.ofs.len() == 0 {
            self.crk_col.ofs = iota(self.count);
        }
        proof {
            lemma_iota_offsets(self.count);
            let c = self.crk_col;
            let n = self.count as int;
            if old(self).coherent() && was_empty {
                assert(c.ofs@ == iota_seq(self.count as nat));
                assert forall|p: int, j: int| 0 <= p < c.crk@.len() && c.ofs@[p] <= j < end_at(c.ofs@, n, p) implies #[trigger] row_is(c.base_idx@, c.v@, j, c.crk@[p]) by {
                    assert(c.ofs@[p] == p);
                    if p < n - 1 {
                        assert(c.ofs@[p + 1] == p + 1);
                    }
                    assert(j == p);
                    assert(c.base_idx@[j] == j);
                }
                assert forall|k: i64| #[trigger] c.crk_idx@.dom().contains(k) implies false by {
                }
                assert forall|p: int| 0 <= p < c.crk@.len() && end_at(c.ofs@, n, p) > c.ofs@[p] + 1 implies #[trigger] crate::graph::compaction::delimited_at(c.crk@, c.crk_idx@, p) by {
                    assert(c.ofs@[p] == p);
                    if p < n - 1 {
                        assert(c.ofs@[p + 1] == p + 1);
                    }
                }
            }
        }
    }

    /// Records the ends of a cracked range, `hk` at `p_itr` (only while `hk` does not exceed
    /// the column's length `len`) and `al` at `p_low`, compacting after each. `false` stands for
    /// a state in which a compaction would leave the column.
    fn record_bounds(&mut self, hk: i64, al: i64, p_itr: usize, p_low: usize, len: usize) -> (ok: bool)
        requires
            old(self).select_ready(),
            old(self).crk_col.crk@.len() > 0,
            old(self).crk_col.ofs@.len() == old(self).crk_col.crk@.len(),
        ensures
            final(self).select_ready(),
            final(self).count == old(self).count,
            final(self).int_columns == old(self).int_columns,
            final(self).crk_col_name == old(self).crk_col_name,
            final(self).crk_col.v == old(self).crk_col.v,
            final(self).crk_col.base_idx == old(self).crk_col.base_idx,
            final(self).crk_col.crk@.len() > 0,
            final(self).crk_col.ofs@.len() == final(self).crk_col.crk@.len(),
            recorded(old(self).crk_col.crk@, old(self).crk_col.ofs@, old(self).crk_col.crk_idx@, hk, al, p_itr, p_low, len)
                == (ok, final(self).crk_col.crk@, final(self).crk_col.ofs@, final(self).crk_col.crk_idx@),
            ok ==> final(self).crk_col.crk_idx@.dom().contains(al),
            ({
                let c = old(self).crk_col;
                &&& pieces_ok(c.crk@, c.ofs@, c.base_idx@, c.v@, c.crk_idx@)
                &&& al < i64::MAX
                &&& hk == al + 1
                &&& entry_splits(c.crk@, hk as int, p_itr as int)
                &&& p_itr <= c.crk@.len()
                &&& entry_splits(c.crk@, al as int, p_low as int)
                &&& p_low <= p_itr
                &&& p_low < c.crk@.len()
            }) ==> {
                let c = final(self).crk_col;
                &&& pieces_ok(c.crk@, c.ofs@, c.base_idx@, c.v@, c.crk_idx@)
                &&& ok ==> c.crk_idx@[al] < c.crk@.len() && c.crk@[c.crk_idx@[al] as int] == old(self).crk_col.crk@[p_low as int]
            },
    {
        let n = self.count;
        let ghost c0 = self.crk_col;
        let ghost g = {
            &&& pieces_ok(c0.crk@, c0.ofs@, c0.base_idx@, c0.v@, c0.crk_idx@)
            &&& al < i64::MAX
            &&& hk == al + 1
            &&& entry_splits(c0.crk@, hk as int, p_itr as int)
            &&& p_itr <= c0.crk@.len()
            &&& entry_splits(c0.crk@, al as int, p_low as int)
            &&& p_low <= p_itr
            &&& p_low < c0.crk@.len()
        };
        if !(hk > len as i64) {
            self.crk_col.crk_idx.insert(hk, p_itr);
            proof {
                if g {
                    lemma_record_split(c0.crk@, c0.ofs@, c0.base_idx@, c0.v@, c0.crk_idx@, hk, p_itr);
                }
            }
            if !compact_fits(&self.crk_col, hk, p_itr) {
                return false;
            }
            let ghost c1 = self.crk_col;
            proof {
                lemma_compacted_shape(self.crk_col.crk@, self.crk_col.ofs@, self.crk_col.crk_idx@, hk, p_itr, n as int);
                if g {
                    lemma_compacted(c1.crk@, c1.ofs@, c1.base_idx@, c1.v@, c1.crk_idx@, hk, p_itr);
                }
            }
            self.compact(hk, p_itr);
            proof {
                if g {
                    assert(start_ofs(c1.ofs@, n) == c1.ofs@);
                    assert(entry_splits(c0.crk@, hk - 1, p_low as int));
                    assert(entry_splits(self.crk_col.crk@, al as int, p_low as int));
                }
            }
        }
        let ghost c2 = self.crk_col;
        proof {
            if g {
                assert(pieces_ok(c2.crk@, c2.ofs@, c2.base_idx@, c2.v@, c2.crk_idx@));
                assert(entry_splits(c2.crk@, al as int, p_low as int));
                assert(p_low < c2.crk@.len());
                assert(c2.crk@[p_low as int] == c0.crk@[p_low as int]);
            }
        }
        self.crk_col.crk_idx.insert(al, p_low);
        proof {
            if g {
                lemma_record_split(c2.crk@, c2.ofs@, c2.base_idx@, c2.v@, c2.crk_idx@, al, p_low);
            }
        }
        if !compact_fits(&self.crk_col, al, p_low) {
            return false;
        }
        let ghost c3 = self.crk_col;
        proof {
            lemma_compacted_shape(self.crk_col.crk@, self.crk_col.ofs@, self.crk_col.crk_idx@, al, p_low, n as int);
            lemma_compacted_keeps_key(self.crk_col.crk@, self.crk_col.ofs@, self.crk_col.crk_idx@, al, p_low, al);
            if g {
                lemma_compacted(c3.crk@, c3.ofs@, c3.base_idx@, c3.v@, c3.crk_idx@, al, p_low);
                assert(c3.crk_idx@.dom().contains(al));
            }
        }
        self.compact(al, p_low);
        proof {
            if g {
                assert(start_ofs(c3.ofs@, n) == c3.ofs@);
            }
        }
        true
    }

    /// The rows whose cracker value equals `x`.
    pub fn cracker_select_specific(&mut self, x: i64) -> (t: CoCoTable)
        requires
            old(self).select_ready(),
            x < i64::MAX,
        ensures
            final(self).select_ready(),
            final(self).count == old(self).count,
            final(self).int_columns == old(self).int_columns,
            final(self).crk_col_name == old(self).crk_col_name,
            final(self).crk_col.v == old(self).crk_col.v,
            final(self).crk_col.crk@.len() > 0,
            exists|a: int, b: int| base_slice_selection(t, old(self).int_columns@, final(self).crk_col.base_idx@, a, b),
            old(self).coherent() ==> final(self).coherent(),
            old(self).coherent() ==> answers_value(t, old(self).int_columns@, final(self).crk_col.base_idx@, final(self).crk_col.v@, x),
            old(self).coherent() ==> answers_value_exactly(t, old(self).int_columns@, final(self).crk_col.base_idx@, final(self).crk_col.v@, x),
            ({
                let (st, ab) = coco_lookup(coco_start(old(self).crk_col, old(self).count), x, x, (x + 1) as i64);
                coco_state(final(self).crk_col) == st && base_slice_selection(t, old(self).int_columns@, final(self).crk_col.base_idx@, ab.0, ab.1)
            }),
    {
        self.cracker_select_in_three(x, x, true, true)
    }

    /// Looks up the rows whose cracker value lies between `low` and `high`, each end included
    /// as `inc_l` and `inc_h` say, and answers with a stretch of the base rows: the rows of a
    /// compacted piece, the rows of the one position holding the value, the rows of the runs the
    /// crack gathered for a single value, or the rows at the offsets of the cracked range. The
    /// piece of the cracker column that can hold the range is cracked, exchanging the first base
    /// row at the offsets of each pair of positions it exchanges, and the ends of the range are
    /// recorded in the index and compacted. On a coherent table a single value is answered with
    /// exactly the rows holding it, and so is any range that the table has settled
    /// (`range_settled`): one whose answer the recording of its ends leaves in place. A range whose
    /// low end lies above its high end is answered with no rows on any table. What the lookup
    /// leaves and answers is `coco_lookup` of the state it starts from.
    #[verifier::rlimit(100)]
    pub fn cracker_select_in_three(&mut self, low: i64, high: i64, inc_l: bool, inc_h: bool) -> (t: CoCoTable)
        requires
            old(self).select_ready(),
            inc_l || low < i64::MAX,
            inc_h ==> high < i64::MAX,
            !inc_h ==> high > i64::MIN,
        ensures
            final(self).select_ready(),
            final(self).count == old(self).count,
            final(self).int_columns == old(self).int_columns,
            final(self).crk_col_name == old(self).crk_col_name,
            final(self).crk_col.v == old(self).crk_col.v,
            final(self).crk_col.crk@.len() > 0,
            exists|a: int, b: int| base_slice_selection(t, old(self).int_columns@, final(self).crk_col.base_idx@, a, b),
            old(self).coherent() && (if inc_l { low as int } else { low + 1 }) == (if inc_h { high as int } else { high - 1 }) ==> {
                &&& final(self).coherent()
                &&& answers_value(t, old(self).int_columns@, final(self).crk_col.base_idx@, final(self).crk_col.v@, (if inc_l { low as int } else { low + 1 }) as i64)
                &&& answers_value_exactly(t, old(self).int_columns@, final(self).crk_col.base_idx@, final(self).crk_col.v@, (if inc_l { low as int } else { low + 1 }) as i64)
            },
            (old(self).coherent() && range_settled(*old(self), if inc_l { low as int } else { low + 1 }, if inc_h { high as int } else { high - 1 }))
                || (if inc_l { low as int } else { low + 1 }) > (if inc_h { high as int } else { high - 1 }) ==>
                answers_range_exactly(t, old(self).int_columns@, final(self).crk_col.base_idx@, final(self).crk_col.v@,
                    if inc_l { low as int } else { low + 1 }, if inc_h { high as int } else { high - 1 }),
            ({
                let (st, ab) = coco_lookup(coco_start(old(self).crk_col, old(self).count),
                    (if inc_l { low as int } else { low + 1 }) as i64,
                    (if inc_h { high as int } else { high - 1 }) as i64,
                    (if inc_h { high + 1 } else { high as int }) as i64);
                coco_state(final(self).crk_col) == st && base_slice_selection(t, old(self).int_columns@, final(self).crk_col.base_idx@, ab.0, ab.1)
            }),
    {
        let ghost coh = old(self).coherent();
        self.prepare_crack();
        let al: i64 = if inc_l { low } else { low + 1 };
        let ah: i64 = if inc_h { high } else { high - 1 };
        let hk: i64 = if inc_h { high + 1 } else { high };
        let ghost sc = coh && al == ah;
        let ghost rg = coh && al < ah && range_settled(*old(self), al as int, ah as int);
        let ghost cz = sc || rg;
        let count = self.crk_col.crk.len();
        let ghost c0 = self.crk_col;
        proof {
            if cz {
                assert(pieces_ok(c0.crk@, c0.ofs@, c0.base_idx@, c0.v@, c0.crk_idx@));
                assert(self.coherent());
            }
        }
        let ghost goal = coco_lookup(coco_state(c0), al, ah, hk);
        let lb = self.crk_col.crk_idx.lower_bound(&al);
        let mut p_low: usize = match lb {
            Some(p) => p,
            None => 0,
        };
        let ub = self.crk_col.crk_idx.upper_bound(&hk);
        let mut p_high: usize = match ub {
            Some(p) => p,
            None => count - 1,
        };
        proof {
            lemma_lower_entry(c0.crk_idx@, al, lb);
            lemma_upper_entry(c0.crk_idx@, hk, ub);
        }
        proof {
            if cz {
                if lb is Some {
                    let k = choose|k: i64| crate::graph::cracker_index::is_max_at_most(c0.crk_idx@, al, k) && p_low == c0.crk_idx@[k];
                    assert(entry_splits(c0.crk@, k as int, p_low as int));
                }
                if ub is Some {
                    let k = choose|k: i64| crate::graph::cracker_index::is_min_at_least(c0.crk_idx@, hk, k) && p_high == c0.crk_idx@[k];
                    assert(entry_splits(c0.crk@, k as int, p_high as int));
                }
            }
        }
        if p_high >= count {
            p_high = count - 1;
        }
        if p_low >= count {
            p_low = count - 1;
        }
        let ghost pre = *self;
        let ghost pl1 = p_low as int;
        let ghost ph1 = p_high as int;
        proof {
            if cz {
                assert(forall|i: int| 0 <= i < p_low ==> #[trigger] c0.crk@[i] < al);
                assert(forall|i: int| p_high < i < count ==> #[trigger] c0.crk@[i] > ah);
            }
        }
        while self.crk_col.crk[p_low] < al
            invariant
                *self == pre,
                pre.select_ready(),
                pre.count == old(self).count,
                pre.int_columns == old(self).int_columns,
                pre.crk_col_name == old(self).crk_col_name,
                pre.crk_col.v == old(self).crk_col.v,
                pre.crk_col.crk@.len() > 0,
                count == pre.crk_col.crk@.len(),
                count > 0,
                p_low < count,
                pre.crk_col == c0,
                sc == (old(self).coherent() && al == ah),
                rg == (old(self).coherent() && al < ah && range_settled(*old(self), al as int, ah as int)),
                cz == (sc || rg),
                al == (if inc_l { low as int } else { low + 1 }),
                ah == (if inc_h { high as int } else { high - 1 }),
                cz ==> pre.coherent() && pieces_ok(c0.crk@, c0.ofs@, c0.base_idx@, c0.v@, c0.crk_idx@),
                cz ==> forall|i: int| 0 <= i < p_low ==> #[trigger] c0.crk@[i] < al,
                cz ==> forall|i: int| p_high < i < count ==> #[trigger] c0.crk@[i] > ah,
                sc ==> al < i64::MAX,
                scan_up(c0.crk@, count as int, p_low as int, al) == scan_up(c0.crk@, count as int, pl1, al),
                goal == coco_lookup(coco_state(c0), al, ah, hk),
                coco_state(c0) == coco_start(old(self).crk_col, old(self).count),
                hk == (if inc_h { high + 1 } else { high as int }),
                0 <= pl1 < count,
                0 <= ph1 < count,
                pl1 == start_low(c0.crk_idx@, al, count as int),
                ph1 == start_high(c0.crk_idx@, hk, count as int),
                p_high as int == ph1,
            decreases count - p_low,
        {
            p_low += 1;
            if p_low == count {
                let t = self.no_rows();
                proof {
                    assert(scan_up(c0.crk@, count as int, p_low as int, al) == count);
                    assert(goal == (coco_state(c0), (0int, 0int)));
                    assert(base_slice_selection(t, old(self).int_columns@, self.crk_col.base_idx@, 0, 0));
                    assert(answers_value(t, old(self).int_columns@, self.crk_col.base_idx@, self.crk_col.v@, al));
                    if cz {
                        if al <= ah + 1 {
                            assert(entry_splits(c0.crk@, al as int, count as int));
                            assert(entry_splits(c0.crk@, ah + 1, count as int));
                        }
                        lemma_no_rows_range_exact(t, old(self).int_columns@, c0, al as int, ah as int, count as int);
                    }
                    if al > ah {
                        lemma_empty_range_exact(t, old(self).int_columns@, self.crk_col.base_idx@, self.crk_col.v@, al as int, ah as int, 0);
                    }
                    if sc {
                        assert(entry_splits(c0.crk@, al as int, count as int));
                        assert(entry_splits(c0.crk@, al + 1, count as int));
                        lemma_no_rows_exact(t, old(self).int_columns@, c0, al, count as int);
                    }
                }
                return t;
            }
        }
        while self.crk_col.crk[p_high] > ah
            invariant
                *self == pre,
                pre.select_ready(),
                pre.count == old(self).count,
                pre.int_columns == old(self).int_columns,
                pre.crk_col_name == old(self).crk_col_name,
                pre.crk_col.v == old(self).crk_col.v,
                pre.crk_col.crk@.len() > 0,
                count == pre.crk_col.crk@.len(),
                count > 0,
                p_high < count,
                p_low < count,
                pre.crk_col == c0,
                c0.crk@[p_low as int] >= al,
                sc == (old(self).coherent() && al == ah),
                rg == (old(self).coherent() && al < ah && range_settled(*old(self), al as int, ah as int)),
                cz == (sc || rg),
                al == (if inc_l { low as int } else { low + 1 }),
                ah == (if inc_h { high as int } else { high - 1 }),
                cz ==> pre.coherent() && pieces_ok(c0.crk@, c0.ofs@, c0.base_idx@, c0.v@, c0.crk_idx@),
                cz ==> forall|i: int| 0 <= i < p_low ==> #[trigger] c0.crk@[i] < al,
                cz ==> forall|i: int| p_high < i < count ==> #[trigger] c0.crk@[i] > ah,
                sc ==> al < i64::MAX,
                p_low as int == scan_up(c0.crk@, count as int, pl1, al),
                scan_down(c0.crk@, p_high as int, ah) == scan_down(c0.crk@, ph1, ah),
                goal == coco_lookup(coco_state(c0), al, ah, hk),
                coco_state(c0) == coco_start(old(self).crk_col, old(self).count),
                hk == (if inc_h { high + 1 } else { high as int }),
                0 <= pl1 < count,
                0 <= ph1 < count,
                pl1 == start_low(c0.crk_idx@, al, count as int),
                ph1 == start_high(c0.crk_idx@, hk, count as int),
            decreases p_high,
        {
            if p_high == 0 {
                let t = self.no_rows();
                proof {
                    assert(scan_down(c0.crk@, 0, ah) == 0);
                    assert(goal == (coco_state(c0), (0int, 0int)));
                    assert(base_slice_selection(t, old(self).int_columns@, self.crk_col.base_idx@, 0, 0));
                    assert(answers_value(t, old(self).int_columns@, self.crk_col.base_idx@, self.crk_col.v@, al));
                    if cz {
                        if al <= ah + 1 {
                            assert(entry_splits(c0.crk@, al as int, 0));
                            assert(entry_splits(c0.crk@, ah + 1, 0));
                        }
                        lemma_no_rows_range_exact(t, old(self).int_columns@, c0, al as int, ah as int, 0);
                    }
                    if al > ah {
                        lemma_empty_range_exact(t, old(self).int_columns@, self.crk_col.base_idx@, self.crk_col.v@, al as int, ah as int, 0);
                    }
                    if sc {
                        assert(entry_splits(c0.crk@, al as int, 0));
                        assert(entry_splits(c0.crk@, al + 1, 0));
                        lemma_no_rows_exact(t, old(self).int_columns@, c0, al, 0);
                    }
                }
                return t;
            }
            p_high -= 1;
        }
        let ghost n = c0.base_idx@.len() as int;
        if p_low == p_high {
            let t = self.single_position_answer(al, ah, p_low, Ghost(sc), Ghost(cz));
            proof {
                assert(goal == (coco_state(c0), one_position_stretch(coco_state(c0), p_low as int)));
            }
            return t;
        }
        proof {
            if rg {
                let o = old(self).crk_col;
                if o.crk@.len() > 0 {
                    assert(c0.crk == o.crk);
                }
                lemma_offsets_len(c0.ofs@, self.count as int);
                if o.crk@.len() == 0 {
                    assert(o.crk_idx@ == Map::<i64, usize>::empty());
                    assert(c0.crk_idx@ == o.crk_idx@);
                    assert(!c0.crk_idx@.dom().contains((ah + 2) as i64));
                    assert(!c0.crk_idx@.dom().contains(ah as i64));
                    assert(!c0.crk_idx@.dom().contains((al + 1) as i64));
                    assert(!c0.crk_idx@.dom().contains((al - 1) as i64));
                }
                assert(c0.crk@.len() == c0.base_idx@.len() || exists|q: int| 0 <= q < c0.crk@.len() && #[trigger] c0.crk@[q] > ah);
            }
        }
        self.crack_and_answer(al, ah, hk, p_low, p_high, Ghost(sc), Ghost(rg))
    }

    /// The rows answered when position `p` alone can hold `al..=ah`: its whole run when the index
    /// delimits the piece of its value, else its first row.
    fn single_position_answer(&self, al: i64, ah: i64, p: usize, Ghost(sc): Ghost<bool>, Ghost(cz): Ghost<bool>) -> (t: CoCoTable)
        requires
            self.select_ready(),
            self.crk_col.crk@.len() > 0,
            self.crk_col.ofs@.len() == self.crk_col.crk@.len(),
            p < self.crk_col.crk@.len(),
            self.crk_col.crk@[p as int] >= al,
            self.crk_col.crk@[p as int] <= ah,
            sc ==> al == ah && al < i64::MAX && cz,
            cz ==> {
                let c = self.crk_col;
                &&& pieces_ok(c.crk@, c.ofs@, c.base_idx@, c.v@, c.crk_idx@)
                &&& forall|i: int| 0 <= i < p ==> #[trigger] c.crk@[i] < al
                &&& forall|i: int| p < i < c.crk@.len() ==> #[trigger] c.crk@[i] > ah
            },
        ensures
            ({
                let ab = one_position_stretch(coco_state(self.crk_col), p as int);
                base_slice_selection(t, self.int_columns@, self.crk_col.base_idx@, ab.0, ab.1)
            }),
            cz ==> answers_range_exactly(t, self.int_columns@, self.crk_col.base_idx@, self.crk_col.v@, al as int, ah as int),
            sc ==> answers_value(t, self.int_columns@, self.crk_col.base_idx@, self.crk_col.v@, al)
                && answers_value_exactly(t, self.int_columns@, self.crk_col.base_idx@, self.crk_col.v@, al),
            al <= ah,
    {
        let ghost c0 = self.crk_col;
        let ghost n = c0.base_idx@.len() as int;
        let len = self.crk_col.crk.len();
        assert(p < len);
        let v = self.crk_col.crk[p];
        if v < i64::MAX && self.crk_col.crk_idx.contains(v) && self.crk_col.crk_idx.contains(v + 1) {
            let t = self.piece_rows(p);
            proof {
                let a = c0.ofs@[p as int] as int;
                let b = run_end(c0, p as int);
                if cz {
                    assert(b == end_at(c0.ofs@, n, p as int));
                    assert(base_slice_selection(t, self.int_columns@, self.crk_col.base_idx@, a, b));
                    lemma_one_position_range_exact(t, self.int_columns@, c0, al as int, ah as int, p as int, a, b);
                }
                if sc {
                    assert(c0.crk@[p as int] == al);
                    assert forall|j: int| a <= j < b implies #[trigger] row_is(c0.base_idx@, c0.v@, j, al) by {
                        assert(row_is(c0.base_idx@, c0.v@, j, c0.crk@[p as int]));
                    }
                    assert(answers_value(t, self.int_columns@, self.crk_col.base_idx@, self.crk_col.v@, al));
                    lemma_one_position_exact(t, self.int_columns@, c0, al, p as int, a, b);
                }
            }
            return t;
        }
        let o = self.crk_col.ofs[p];
        let t = self.base_rows(o, o + 1, p, p + 1);
        proof {
            if cz {
                assert(o < end_at(c0.ofs@, n, p as int));
                assert(base_slice_selection(t, self.int_columns@, self.crk_col.base_idx@, o as int, o + 1));
                lemma_one_position_range_exact(t, self.int_columns@, c0, al as int, ah as int, p as int, o as int, o + 1);
            }
            if sc {
                assert(c0.crk@[p as int] == al);
                assert forall|j: int| o <= j < o + 1 implies #[trigger] row_is(c0.base_idx@, c0.v@, j, al) by {
                    assert(row_is(c0.base_idx@, c0.v@, j, c0.crk@[p as int]));
                }
                assert(answers_value(t, self.int_columns@, self.crk_col.base_idx@, self.crk_col.v@, al));
                lemma_one_position_exact(t, self.int_columns@, c0, al, p as int, o as int, o + 1);
            }
        }
        t
    }

    /// Cracks positions `p_low..=p_high` (none when `p_low > p_high`) around `al..=ah`, records
    /// the ends of the range and answers with the rows the crack gathered, as
    /// `cracker_select_in_three` does once it has found where the range can lie.
    #[verifier::rlimit(100)]
    #[verifier::spinoff_prover]
    fn crack_and_answer(&mut self, al: i64, ah: i64, hk: i64, p_low: usize, p_high: usize, Ghost(sc): Ghost<bool>, Ghost(rg): Ghost<bool>) -> (t: CoCoTable)
        requires
            old(self).select_ready(),
            old(self).crk_col.crk@.len() > 0,
            old(self).crk_col.ofs@.len() == old(self).crk_col.crk@.len(),
            p_low < old(self).crk_col.crk@.len(),
            p_high < old(self).crk_col.crk@.len(),
            p_low != p_high,
            old(self).crk_col.crk@[p_low as int] >= al,
            old(self).crk_col.crk@[p_high as int] <= ah,
            hk == ah + 1,
            sc ==> al == ah && al < i64::MAX,
            rg ==> al < ah && (i64::MIN < al || old(self).crk_col.crk_idx@.dom().contains((al + 1) as i64)) && old(self).crk_col.crk@.len() < i64::MAX,
            rg ==> ends_collapse_nothing(old(self).crk_col.crk@, old(self).crk_col.crk_idx@, al as int, ah as int),
            rg ==> old(self).crk_col.crk@.len() == old(self).crk_col.base_idx@.len()
                || exists|q: int| 0 <= q < old(self).crk_col.crk@.len() && #[trigger] old(self).crk_col.crk@[q] > ah,
            sc || rg ==> {
                let c = old(self).crk_col;
                &&& old(self).coherent()
                &&& pieces_ok(c.crk@, c.ofs@, c.base_idx@, c.v@, c.crk_idx@)
                &&& forall|i: int| 0 <= i < p_low ==> #[trigger] c.crk@[i] < al
                &&& forall|i: int| p_high < i < c.crk@.len() ==> #[trigger] c.crk@[i] > ah
            },
        ensures
            final(self).select_ready(),
            final(self).count == old(self).count,
            final(self).int_columns == old(self).int_columns,
            final(self).crk_col_name == old(self).crk_col_name,
            final(self).crk_col.v == old(self).crk_col.v,
            final(self).crk_col.crk@.len() > 0,
            exists|a: int, b: int| base_slice_selection(t, old(self).int_columns@, final(self).crk_col.base_idx@, a, b),
            sc ==> {
                &&& final(self).coherent()
                &&& answers_value(t, old(self).int_columns@, final(self).crk_col.base_idx@, final(self).crk_col.v@, al)
                &&& answers_value_exactly(t, old(self).int_columns@, final(self).crk_col.base_idx@, final(self).crk_col.v@, al)
            },
            sc || rg || al > ah ==> answers_range_exactly(t, old(self).int_columns@, final(self).crk_col.base_idx@, final(self).crk_col.v@, al as int, ah as int),
            ({
                let (st, ab) = coco_tail(coco_state(old(self).crk_col), al, ah, hk, p_low as int, p_high as int);
                coco_state(final(self).crk_col) == st && base_slice_selection(t, old(self).int_columns@, final(self).crk_col.base_idx@, ab.0, ab.1)
            }),
    {
        let ghost cz = sc || rg;
        let ghost tail = coco_tail(coco_state(self.crk_col), al, ah, hk, p_low as int, p_high as int);
        let count = self.crk_col.crk.len();
        let ghost c0 = self.crk_col;
        let ghost n = c0.base_idx@.len() as int;
        proof {
            if cz {
                lemma_pieces_first_rows(c0.crk@, c0.ofs@, c0.base_idx@, c0.v@, c0.crk_idx@);
            }
        }
        let (p_low2, p_itr, p_high2) = if p_low <= p_high {
            match crack_in_three_loop_ofs(&mut self.crk_col.crk, &mut self.crk_col.base_idx, &self.crk_col.ofs, p_low, p_high, al, ah, Ghost(self.crk_col.v@)) {
                Some(r) => r,
                None => {
                    let t = self.no_rows();
                    proof {
                        assert(crate::crack::disjoint(al, ah) ==> !cz) by {
                            if cz && crate::crack::disjoint(al, ah) {
                                assert(false);
                            }
                        }
                        if al > ah {
                            lemma_empty_range_exact(t, old(self).int_columns@, self.crk_col.base_idx@, self.crk_col.v@, al as int, ah as int, 0);
                        }
                    }
                    return t;
                },
            }
        } else {
            (p_low, p_low, p_high)
        };
        let ghost c1 = self.crk_col;
        proof {
            if cz {
                assert({
                    &&& pieces_ok(c1.crk@, c1.ofs@, c1.base_idx@, c1.v@, c1.crk_idx@)
                    &&& al <= ah + 1 ==> entry_splits(c1.crk@, al as int, p_low2 as int) && entry_splits(c1.crk@, ah + 1, p_itr as int)
                }) by {
                if p_low <= p_high {
                    lemma_cracked_pieces(c0.crk@, c1.crk@, c0.ofs@, c0.base_idx@, c1.base_idx@, c0.v@, c0.crk_idx@, p_low as int, p_high as int, al, ah);
                    assert forall|i: int| 0 <= i < p_low implies #[trigger] c1.crk@[i] < al by {
                        assert(c1.crk@[i] == c0.crk@[i]);
                    }
                    assert forall|i: int| p_high < i < c1.crk@.len() implies #[trigger] c1.crk@[i] > ah by {
                        assert(c1.crk@[i] == c0.crk@[i]);
                    }
                    if al <= ah + 1 {
                        lemma_range_split_after_crack(c1.crk@, p_low as int, p_high as int, al, ah, p_low2 as int, p_itr as int, p_high2 as int);
                    } else {
                        if p_low2 < p_itr {
                            assert(crate::crack::in_range(c1.crk@[p_low2 as int], al as int, ah as int));
                        }
                    }
                } else {
                    assert(c1 == c0);
                    if al <= ah + 1 {
                        assert(entry_splits(c1.crk@, al as int, p_low as int));
                        assert(entry_splits(c1.crk@, ah + 1, p_low as int));
                    }
                }
                }
            }
        }
        assert(p_low2 <= p_itr);
        proof {
            if al > ah && p_low <= p_high && p_low2 < p_itr {
                assert(crate::crack::in_range(c1.crk@[p_low2 as int], al as int, ah as int));
            }
            if al > ah {
                assert(p_low2 == p_itr);
                assert(p_low2 < count);
            }
        }
        proof {
            if rg && al <= ah + 1 && p_itr >= count {
                if count != n && p_low <= p_high {
                    lemma_range_end_inside(c0.crk@, c1.crk@, p_low as int, p_high as int, al, ah, p_low2 as int, p_itr as int, p_high2 as int);
                }
                assert(count == n);
            }
        }
        let olen = self.crk_col.ofs.len();
        let nbase = self.crk_col.base_idx.len();
        let s_a: usize = if p_low2 < olen { self.crk_col.ofs[p_low2] } else { nbase };
        let s_b: usize = if p_itr < olen { self.crk_col.ofs[p_itr] } else { nbase };
        proof {
            if sc {
                assert(hk == al + 1);
                assert(s_a == ofs_at(c1.ofs@, c1.base_idx@.len() as int, p_low2 as int));
                assert(s_b == ofs_at(c1.ofs@, c1.base_idx@.len() as int, p_itr as int));
            }
            if rg {
                assert({
                    let (ok, c, o, m) = recorded(c1.crk@, c1.ofs@, c1.crk_idx@, hk, al, p_itr, p_low2, count);
                    &&& c == c1.crk@
                    &&& o == c1.ofs@
                    &&& !ok ==> p_low2 == p_itr
                }) by {
                assert(c1.crk_idx == c0.crk_idx);
                assert forall|w: i64| #[trigger] at_most_one(c0.crk@, w) implies at_most_one(c1.crk@, w) by {
                    if p_low > p_high {
                        assert(c1 == c0);
                    }
                }
                if c0.crk_idx@.dom().contains((al - 1) as i64) && !c0.crk_idx@.dom().contains((al + 1) as i64) {
                    let q = choose|q: int| 0 <= q < c0.crk@.len() && #[trigger] c0.crk@[q] < al;
                    if p_low <= p_high && p_low <= q <= p_high {
                        assert(crate::crack::holds_below(c0.crk@, p_low as int, p_high as int, al));
                        let q1 = choose|q1: int| p_low <= q1 <= p_high && #[trigger] c1.crk@[q1] < al;
                        assert(q1 < p_low2);
                    } else if q < p_low {
                        assert(c1.crk@[q] == c0.crk@[q]);
                    } else if p_low <= p_high {
                        assert(c0.crk@[q] > ah);
                    } else {
                        assert(c1 == c0);
                        assert(q < p_low2);
                    }
                    assert(p_low2 > 0);
                }
                lemma_recorded_unique(c1.crk@, c1.ofs@, c1.base_idx@, c1.v@, c1.crk_idx@, hk, al, p_itr, p_low2, count);
                }
            }
        }
        let ok = self.record_bounds(hk, al, p_itr, p_low2, count);
        let ghost c2 = self.crk_col;
        proof {
            if sc {
                assert(pieces_ok(c2.crk@, c2.ofs@, c2.base_idx@, c2.v@, c2.crk_idx@));
                assert(start_ofs(c2.ofs@, self.count) == c2.ofs@);
                assert(self.coherent());
            }
        }
        if al == ah {
            // The rows of a single value are those of the runs that the crack gathered; base
            // rows stay where they are while the ends are recorded and compacted.
            if s_a <= s_b && s_b <= self.crk_col.base_idx.len() {
                let t = self.base_rows(s_a, s_b, 0, 0);
                proof {
                    if sc {
                        assert(c2.base_idx == c1.base_idx);
                        lemma_exact_after_crack(t, old(self).int_columns@, c1, al, p_low2 as int, p_itr as int, s_a as int, s_b as int);
                        lemma_range_of_value_exact(t, old(self).int_columns@, self.crk_col.base_idx@, self.crk_col.v@, al);
                    }
                }
                return t;
            }
            let t = self.no_rows();
            proof {
                assert(base_slice_selection(t, old(self).int_columns@, self.crk_col.base_idx@, 0, 0));
                if sc {
                    lemma_exact_bounds(c1, al, p_low2 as int, p_itr as int);
                }
            }
            return t;
        }
        if !ok {
            let t = self.no_rows();
            proof {
                assert(base_slice_selection(t, old(self).int_columns@, self.crk_col.base_idx@, 0, 0));
                if al > ah {
                    lemma_empty_range_exact(t, old(self).int_columns@, self.crk_col.base_idx@, self.crk_col.v@, al as int, ah as int, 0);
                }
                if rg {
                    lemma_no_rows_range_exact(t, old(self).int_columns@, c1, al as int, ah as int, p_low2 as int);
                }
            }
            return t;
        }
        proof {
            if sc {
                assert(p_itr == p_low2);
            }
        }
        let chp: usize = if p_itr >= count {
            p_itr
        } else if p_itr < self.crk_col.ofs.len() {
            self.crk_col.ofs[p_itr]
        } else {
            let t = self.no_rows();
            proof {
                assert(base_slice_selection(t, old(self).int_columns@, self.crk_col.base_idx@, 0, 0));
                assert(answers_value(t, old(self).int_columns@, self.crk_col.base_idx@, self.crk_col.v@, al));
                if al > ah {
                    lemma_empty_range_exact(t, old(self).int_columns@, self.crk_col.base_idx@, self.crk_col.v@, al as int, ah as int, 0);
                }
            }
            return t;
        };
        if p_low2 >= self.crk_col.ofs.len() {
            let t = self.no_rows();
            proof {
                assert(base_slice_selection(t, old(self).int_columns@, self.crk_col.base_idx@, 0, 0));
                assert(answers_value(t, old(self).int_columns@, self.crk_col.base_idx@, self.crk_col.v@, al));
                if al > ah {
                    lemma_empty_range_exact(t, old(self).int_columns@, self.crk_col.base_idx@, self.crk_col.v@, al as int, ah as int, 0);
                }
            }
            return t;
        }
        let start = self.crk_col.ofs[p_low2];
        proof {
            if rg {
                lemma_exact_bounds(c1, al, p_low2 as int, p_itr as int);
                assert(start == ofs_at(c1.ofs@, n, p_low2 as int));
                assert(chp == ofs_at(c1.ofs@, n, p_itr as int));
            }
        }
        if !(start <= chp && chp <= self.crk_col.base_idx.len()) {
            let t = self.no_rows();
            proof {
                assert(base_slice_selection(t, old(self).int_columns@, self.crk_col.base_idx@, 0, 0));
                assert(answers_value(t, old(self).int_columns@, self.crk_col.base_idx@, self.crk_col.v@, al));
                if al > ah {
                    lemma_empty_range_exact(t, old(self).int_columns@, self.crk_col.base_idx@, self.crk_col.v@, al as int, ah as int, 0);
                }
            }
            return t;
        }
        let (ca, cb) = if p_itr <= self.crk_col.crk.len() {
            (p_low2, p_itr)
        } else if p_low2 == p_itr {
            (0, 0)
        } else {
            let t = self.no_rows();
            proof {
                assert(base_slice_selection(t, old(self).int_columns@, self.crk_col.base_idx@, 0, 0));
                assert(answers_value(t, old(self).int_columns@, self.crk_col.base_idx@, self.crk_col.v@, al));
                if al > ah {
                    lemma_empty_range_exact(t, old(self).int_columns@, self.crk_col.base_idx@, self.crk_col.v@, al as int, ah as int, 0);
                }
            }
            return t;
        };
        let t = self.base_rows(start, chp, ca, cb);
        proof {
            if rg {
                lemma_range_exact_after_crack(t, old(self).int_columns@, c1, al as int, ah as int, p_low2 as int, p_itr as int, start as int, chp as int);
            }
            if al > ah {
                assert(chp == start);
                lemma_empty_range_exact(t, old(self).int_columns@, self.crk_col.base_idx@, self.crk_col.v@, al as int, ah as int, start as int);
            }
        }
        t
    }

    /// The rows of the piece at compressed position `ci`, as `decompress_index` gives them.
    fn piece_rows(&self, ci: usize) -> (t: CoCoTable)
        requires
            self.select_ready(),
            self.crk_col.crk@.len() > 0,
            ci < self.crk_col.ofs@.len(),
        ensures
            base_slice_selection(t, self.int_columns@, self.crk_col.base_idx@, self.crk_col.ofs@[ci as int] as int, run_end(self.crk_col, ci as int)),
            exists|a: int, b: int| base_slice_selection(t, self.int_columns@, self.crk_col.base_idx@, a, b),
    {
        let ghost c = self.crk_col;
        let ghost a = c.ofs@[ci as int] as int;
        let ghost b = run_end(c, ci as int);
        proof {
            if ci < c.ofs@.len() - 1 {
                assert(c.ofs@[ci as int] < c.ofs@[ci + 1]);
            }
            lemma_rows_ready(*self, a, b);
        }
        let t = self.decompress_index(ci);
        assert(base_slice_selection(t, self.int_columns@, c.base_idx@, a, b));
        t
    }

    /// Counts the rows where column `col` equals `eq`.
    pub fn count_col_eq(&self, col: &str, eq: i64) -> (r: i64)
        requires
            has_name(self.int_columns@, col@),
            col_named(self.int_columns@, col@).v@.len() <= i64::MAX,
        ensures
            r == count_eq(col_named(self.int_columns@, col@).v@, eq),
    {
        let c = self.get_i64_col(col);
        count_in(&c.v, eq)
    }
}

/// An adjacency list of the edges `src_node[i] -> dst_node[i]`, with columns `"src"` and `"dst"`,
/// cracked on the column `crk`.
pub fn from_adjacency_vectors(src_node: Vec<i64>, dst_node: Vec<i64>, crk: &str) -> (t: CoCoTable)
    requires
        src_node@.len() == dst_node@.len(),
        crk@ == "src"@ || crk@ == "dst"@,
    ensures
        t.count > 0 ==> t.select_ready(),
        t.count == src_node@.len(),
        names_distinct(t.int_columns@),
        t.int_columns@.len() == 2,
        t.int_columns@[0].0@ == "src"@,
        t.int_columns@[1].0@ == "dst"@,
        t.int_columns@[0].1.v@ == src_node@,
        t.int_columns@[1].1.v@ == dst_node@,
        t.crk_col_name@ == crk@,
        t.crk_col.crk@ == col_named(t.int_columns@, crk@).v@,
        t.crk_col.v@ == t.crk_col.crk@,
        t.crk_col.base_idx@ == iota_seq(t.count as nat),
        t.crk_col.crk_idx@ == Map::<i64, usize>::empty(),
        t.count > 0 ==> t.coherent(),
{
    proof {
        reveal_strlit("src");
        reveal_strlit("dst");
    }
    let ghost src0 = src_node@;
    let ghost dst0 = dst_node@;
    let n = src_node.len();
    assert("src"@ != "dst"@) by {
        assert("src"@[0] == 's');
        assert("dst"@[0] == 'd');
    }
    let mut adjacency_list = CoCoTable::new();
    let names: Vec<&str> = vec!["src", "dst"];
    let ghost nm = names@;
    assert(nm.len() == 2 && nm[0] == "src" && nm[1] == "dst");
    adjacency_list.new_columns(names);
    let ghost cols1 = adjacency_list.int_columns@;
    proof {
        assert(cols1[0int].0@ == nm[0int]@);
        assert(cols1[1int].0@ == nm[1int]@);
        assert(cols1.len() == 2);
        assert(cols1[0].0@ == "src"@);
        assert(cols1[1].0@ == "dst"@);
        assert(names_distinct(cols1));
    }
    let ins: Vec<(&str, Vec<i64>)> = vec![("src", src_node), ("dst", dst_node)];
    proof {
        assert(ins@[0].0@ == "src"@ && ins@[1].0@ == "dst"@);
        assert(has_name(cols1, ins@[0].0@)) by { assert(cols1[0].0@ == ins@[0].0@); }
        assert(has_name(cols1, ins@[1].0@)) by { assert(cols1[1].0@ == ins@[1].0@); }
        assert forall|k: int| 0 <= k < ins@.len() implies has_name(cols1, (#[trigger] ins@[k]).0@) by {
        }
        assert forall|i: int| 0 <= i < cols1.len() implies exists|j: int| 0 <= j < ins@.len() && (#[trigger] ins@[j]).0@ == (#[trigger] cols1[i]).0@ by {
            assert(ins@[i].0@ == cols1[i].0@);
        }
        assert(cols_batch_ok(cols1, 0, ins@));
        crate::graph::decomposed_cracking::lemma_data_for_entry(ins@, 0);
        crate::graph::decomposed_cracking::lemma_data_for_entry(ins@, 1);
        assert(cols_count_after(cols1, 0, ins@) == src0.len());
    }
    adjacency_list.insert(ins);
    let ghost cols2 = adjacency_list.int_columns@;
    proof {
        assert(new_entries_empty(ins@, cols1)) by {
            crate::db::lemma_new_entries_from(ins@, cols1);
            let fr = crate::db::new_entries(ins@, cols1);
            if fr.len() > 0 {
                assert(!has_name(cols1, fr[0].0@));
                let j = choose|j: int| 0 <= j < ins@.len() && ins@[j] == fr[0];
                assert(has_name(cols1, ins@[j].0@));
            }
        }
        assert(cols2.len() == 2);
        assert(Seq::<i64>::empty() + src0 =~= src0);
        assert(Seq::<i64>::empty() + dst0 =~= dst0);
        assert(cols2[0].1.v@ == src0);
        assert(cols2[1].1.v@ == dst0);
        assert(names_distinct(cols2)) by {
            assert(cols2[0].0 == cols1[0].0);
            assert(cols2[1].0 == cols1[1].0);
        }
        assert(has_name(cols2, crk@)) by {
            if crk@ == "src"@ {
                assert(cols2[0].0@ == crk@);
            } else {
                assert(cols2[1].0@ == crk@);
            }
        }
        assert(adjacency_list.crk_col.crk_idx.wf());
    }
    adjacency_list.set_crk_col(crk);
    proof {
        let t = adjacency_list;
        let i = choose|i: int| #![trigger first_named(cols2, crk@, i)] {
            let c = cols2[i].1;
            let ck = if c.crk@.len() == 0 { c.v@ } else { c.crk@ };
            &&& first_named(cols2, crk@, i)
            &&& forall|j: int| 0 <= j < cols2.len() && j != i ==> #[trigger] t.int_columns@[j] == cols2[j]
            &&& t.int_columns@[i].0 == cols2[i].0
            &&& t.int_columns@[i].1.v == c.v
            &&& t.int_columns@[i].1.crk@ == ck
            &&& t.crk_col.v@ == ck
            &&& t.crk_col.crk@ == ck
        };
        assert(first_named(t.int_columns@, crk@, i));
        lemma_col_named(t.int_columns@, crk@, i);
        assert(t.int_columns@[0].1.v == cols2[0].1.v);
        assert(t.int_columns@[1].1.v == cols2[1].1.v);
        assert(names_distinct(t.int_columns@)) by {
            assert(t.int_columns@[0].0 == cols2[0].0);
            assert(t.int_columns@[1].0 == cols2[1].0);
        }
        assert(t.crk_col.v@.len() == t.count);
        assert(aligned(t.crk_col.crk@, t.crk_col.base_idx@, t.crk_col.v@));
        assert(distinct(t.crk_col.base_idx@));
        if t.count > 0 {
            lemma_uncracked_coherent(t);
        }
    }
    adjacency_list
}

/// No entry of the batch names a new column.
pub open spec fn new_entries_empty(ins: Seq<(&str, Vec<i64>)>, cols: Seq<(String, IntCol)>) -> bool {
    crate::db::new_entries(ins, cols).len() == 0
}

} // verus!
