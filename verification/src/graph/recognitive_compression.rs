//! Decomposed cracking with fragmentary, recognitive compression: range lookups crack the
//! cracker column and answer with the values of another column at the matching rows, and a
//! value whose piece the index already delimits is answered from the index alone.

use vstd::prelude::*;
use crate::crack::{
    aligned, distinct, gather, gather_vec, iota, iota_seq, copy_vec, copy_range, all_below,
    in_range, c_low, c_high, disjoint, crack_in_three_loop,
};
use crate::db::{
    Column, has_name, first_named, find_col, names_distinct, count_eq, count_in, adj_low, adj_high,
};
use crate::graph::column::{
    IntCol, is_fresh, col_named, lemma_col_named, lemma_col_named_is_first, map_index_valid,
    map_index_in_bounds, is_col_selection, rows_in_cols, select_columns,
    values_of, lemma_map_index_after_crack, lemma_map_index_after_split, cols_batch_ok,
    cols_count_after, appended_intcols, batch_count, append_batch,
};
use crate::graph::cracker_index::{AVLCrackerIndex, is_min_at_least, is_max_at_most};

verus! {

/// A table of named integer columns, one of them copied into a cracker column.
pub struct ReCoTable {
    pub count: usize,
    pub crk_col_name: String,
    pub crk_col: IntCol,
    pub int_columns: Vec<(String, IntCol)>,
}

/// What a range lookup returns: the values of column `col` at the base rows of positions
/// `a..b` of the cracked column, with the index either unchanged or given the entries `a` for
/// `al` and (unless the range is reversed) `b` for the value above `ah`; when the index was valid, those positions are exactly those holding a
/// value in `al..=ah`.
pub open spec fn range_outcome(pre: ReCoTable, post: ReCoTable, r: Seq<i64>, al: int, ah: int, col: Seq<char>, a: int, b: int) -> bool {
    &&& 0 <= a <= b <= post.count
    &&& r == gather(col_named(post.int_columns@, col).v@, post.crk_col.base_idx@.subrange(a, b))
    &&& (post.crk_col.crk_idx@ == pre.crk_col.crk_idx@
        || (post.crk_col.crk_idx@ == pre.crk_col.crk_idx@.insert(al as i64, a as usize).insert((ah + 1) as i64, post.crk_col.crk_idx@[(ah + 1) as i64])
            && (al <= ah + 1 ==> post.crk_col.crk_idx@[(ah + 1) as i64] == b)))
    &&& map_index_valid(pre.crk_col.crk_idx@, pre.crk_col.crk@)
        ==> forall|i: int| 0 <= i < post.count ==> ((a <= i < b) == in_range(#[trigger] post.crk_col.crk@[i], al, ah))
}

/// The entry of `k`, if the index has one, is on the right side of position `i`.
pub open spec fn entry_splits_at(crk: Seq<i64>, m: Map<i64, usize>, k: i64, i: int) -> bool {
    m.dom().contains(k) ==> ((i < m[k] ==> crk[i] < k) && (i >= m[k] ==> crk[i] >= k))
}

impl ReCoTable {
    /// The table is set up for lookups: the cracker column holds one cracked value and one base
    /// row per row, every base row once, every index entry points into it, and every column
    /// has a value per row.
    pub open spec fn select_ready(&self) -> bool {
        &&& self.count > 0
        &&& self.crk_col.crk_idx.wf()
        &&& map_index_in_bounds(self.crk_col.crk_idx@, self.count as nat)
        &&& self.crk_col.crk@.len() == self.count
        &&& self.crk_col.v@.len() == self.count
        &&& aligned(self.crk_col.crk@, self.crk_col.base_idx@, self.crk_col.v@)
        &&& distinct(self.crk_col.base_idx@)
        &&& forall|i: int| 0 <= i < self.int_columns@.len() ==> (#[trigger] self.int_columns@[i]).1.v@.len() == self.count
    }

    pub fn new() -> (r: ReCoTable)
        ensures
            r.count == 0,
            r.crk_col_name@ == Seq::<char>::empty(),
            is_fresh(r.crk_col),
            r.int_columns@ == Seq::<(String, IntCol)>::empty(),
    {
        ReCoTable { count: 0, crk_col_name: String::new(), crk_col: IntCol::empty(), int_columns: Vec::new() }
    }

    /// Makes the column `col_name` the cracker column: its values are copied into the cracked
    /// column, whose base rows start in order. The cracker index is kept.
    pub fn set_crk_col(&mut self, col_name: &str)
        requires
            has_name(old(self).int_columns@, col_name@),
        ensures
            final(self).count == old(self).count,
            final(self).crk_col_name@ == col_name@,
            final(self).int_columns == old(self).int_columns,
            final(self).crk_col.v@ == col_named(old(self).int_columns@, col_name@).v@,
            final(self).crk_col.crk@ == col_named(old(self).int_columns@, col_name@).v@,
            final(self).crk_col.base_idx@ == iota_seq(old(self).count as nat),
            final(self).crk_col.crk_idx == old(self).crk_col.crk_idx,
            final(self).crk_col.ofs == old(self).crk_col.ofs,
            final(self).crk_col.run_lengths == old(self).crk_col.run_lengths,
    {
        self.crk_col_name = String::from_str(col_name);
        match find_col(&self.int_columns, col_name) {
            Some(i) => {
                proof {
                    lemma_col_named(self.int_columns@, col_name@, i as int);
                }
                self.crk_col.v = copy_vec(&self.int_columns[i].1.v);
                self.crk_col.crk = copy_vec(&self.int_columns[i].1.v);
                self.crk_col.base_idx = iota(self.count);
            },
            None => {
                proof {
                    assert(false);
                }
            },
        }
    }

    /// Adds an empty column for each name, after the existing ones; no name may be taken.
    pub fn new_columns(&mut self, cols: Vec<&str>)
        requires
            forall|j: int| 0 <= j < cols@.len() ==> !has_name(old(self).int_columns@, (#[trigger] cols@[j])@),
            forall|j: int, k: int| 0 <= j < cols@.len() && 0 <= k < cols@.len() && j != k ==> (#[trigger] cols@[j])@ != (#[trigger] cols@[k])@,
        ensures
            final(self).count == old(self).count,
            final(self).crk_col == old(self).crk_col,
            final(self).crk_col_name == old(self).crk_col_name,
            final(self).int_columns@.len() == old(self).int_columns@.len() + cols@.len(),
            forall|i: int| 0 <= i < old(self).int_columns@.len() ==> #[trigger] final(self).int_columns@[i] == old(self).int_columns@[i],
            forall|k: int| 0 <= k < cols@.len() ==> {
                &&& final(self).int_columns@[old(self).int_columns@.len() + k].0@ == (#[trigger] cols@[k])@
                &&& is_fresh(final(self).int_columns@[old(self).int_columns@.len() + k].1)
            },
            names_distinct(old(self).int_columns@) ==> names_distinct(final(self).int_columns@),
    {
        let ghost before = self.int_columns@;
        let mut j: usize = 0;
        while j < cols.len()
            invariant
                j <= cols@.len(),
                self.count == old(self).count,
                self.crk_col == old(self).crk_col,
                self.crk_col_name == old(self).crk_col_name,
                before == old(self).int_columns@,
                forall|j2: int| 0 <= j2 < cols@.len() ==> !has_name(before, (#[trigger] cols@[j2])@),
                forall|j2: int, k: int| 0 <= j2 < cols@.len() && 0 <= k < cols@.len() && j2 != k ==> (#[trigger] cols@[j2])@ != (#[trigger] cols@[k])@,
                self.int_columns@.len() == before.len() + j,
                forall|i: int| 0 <= i < before.len() ==> #[trigger] self.int_columns@[i] == before[i],
                forall|k: int| 0 <= k < j ==> {
                    &&& (#[trigger] self.int_columns@[before.len() + k]).0@ == cols@[k]@
                    &&& is_fresh(self.int_columns@[before.len() + k].1)
                },
                names_distinct(before) ==> names_distinct(self.int_columns@),
            decreases cols@.len() - j,
        {
            let ghost prev = self.int_columns@;
            let nm = String::from_str(cols[j]);
            self.int_columns.push((nm, IntCol::empty()));
            proof {
                let last = prev.len() as int;
                assert forall|k: int| 0 <= k < j + 1 implies {
                    &&& (#[trigger] self.int_columns@[before.len() + k]).0@ == cols@[k]@
                    &&& is_fresh(self.int_columns@[before.len() + k].1)
                } by {
                    if k < j {
                        assert(self.int_columns@[before.len() + k] == prev[before.len() + k]);
                    }
                }
                if names_distinct(before) {
                    assert forall|a: int, b: int| 0 <= a < self.int_columns@.len() && 0 <= b < self.int_columns@.len() && a != b
                        implies (#[trigger] self.int_columns@[a]).0@ != (#[trigger] self.int_columns@[b]).0@ by {
                        let c = self.int_columns@;
                        if a != last && b != last {
                            assert(c[a] == prev[a]);
                            assert(c[b] == prev[b]);
                        } else {
                            let o = if a == last { b } else { a };
                            assert(c[o] == prev[o]);
                            if o < before.len() {
                                assert(!has_name(before, cols@[j as int]@));
                                assert(prev[o] == before[o]);
                            } else {
                                let k = o - before.len();
                                assert(prev[before.len() + k].0@ == cols@[k]@);
                                assert(cols@[k]@ != cols@[j as int]@);
                            }
                        }
                    }
                }
            }
            j += 1;
        }
    }

    /// Adds rows to the columns: each entry's values are appended to the column it names, or
    /// become a new column when it names none.
    pub fn insert(&mut self, new_values: Vec<(&str, Vec<i64>)>)
        requires
            cols_batch_ok(old(self).int_columns@, old(self).count as nat, new_values@),
        ensures
            final(self).count == cols_count_after(old(self).int_columns@, old(self).count as nat, new_values@),
            appended_intcols(final(self).int_columns@, old(self).int_columns@, new_values@),
            final(self).crk_col == old(self).crk_col,
            final(self).crk_col_name == old(self).crk_col_name,
    {
        let count = batch_count(&self.int_columns, self.count, &new_values);
        let mut entries = new_values;
        append_batch(&mut self.int_columns, &mut entries);
        self.count = count;
    }

    /// The values of column `col` at the listed rows.
    pub fn get_values(&self, indices: &[usize], col: &str) -> (r: Vec<i64>)
        requires
            has_name(self.int_columns@, col@),
            all_below(indices@, col_named(self.int_columns@, col@).v@.len() as int),
        ensures
            r@ == gather(col_named(self.int_columns@, col@).v@, indices@),
    {
        values_of(&self.int_columns, indices, col)
    }

    /// Keeps, in every column and in the cracker column, the rows listed in `indices`, in that
    /// order; the cracked copies and the cracker index are dropped.
    pub fn rearrange(&mut self, indices: &[usize])
        requires
            rows_in_cols(old(self).int_columns@, indices@),
            all_below(indices@, old(self).crk_col.v@.len() as int),
        ensures
            final(self).count == old(self).count,
            final(self).crk_col_name == old(self).crk_col_name,
            is_col_selection(final(self).int_columns@, old(self).int_columns@, indices@),
            final(self).crk_col.v@ == gather(old(self).crk_col.v@, indices@),
            final(self).crk_col.crk@ == Seq::<i64>::empty(),
            final(self).crk_col.crk_idx.wf(),
            final(self).crk_col.crk_idx@ == Map::<i64, usize>::empty(),
            final(self).crk_col.base_idx@ == Seq::<usize>::empty(),
            final(self).crk_col.ofs@ == Seq::<usize>::empty(),
            final(self).crk_col.run_lengths@ == Seq::<usize>::empty(),
    {
        let selection = select_columns(&self.int_columns, indices);
        self.int_columns = selection;
        self.crk_col.rearrange(indices);
    }

    /// The column named `col`.
    pub fn get_i64_col(&self, col: &str) -> (r: &IntCol)
        requires
            has_name(self.int_columns@, col@),
        ensures
            *r == col_named(self.int_columns@, col@),
    {
        match find_col(&self.int_columns, col) {
            Some(i) => {
                proof {
                    lemma_col_named(self.int_columns@, col@, i as int);
                }
                &self.int_columns[i].1
            },
            None => {
                proof {
                    assert(false);
                }
                &self.crk_col
            },
        }
    }

    /// The rows listed in `indices`, in that order, as a new table whose cracker column holds
    /// the matching cracked values under a fresh index.
    pub fn get_indices(&self, indices: &[usize]) -> (t: ReCoTable)
        requires
            rows_in_cols(self.int_columns@, indices@),
            all_below(indices@, self.crk_col.v@.len() as int),
            self.crk_col.crk@.len() > 0 ==> all_below(indices@, self.crk_col.crk@.len() as int),
        ensures
            t.count == indices@.len(),
            t.crk_col_name@ == Seq::<char>::empty(),
            is_col_selection(t.int_columns@, self.int_columns@, indices@),
            t.crk_col.v@ == gather(self.crk_col.v@, indices@),
            t.crk_col.crk@ == if self.crk_col.crk@.len() > 0 { gather(self.crk_col.crk@, indices@) } else { Seq::<i64>::empty() },
            t.crk_col.crk_idx.wf(),
            t.crk_col.crk_idx@ == Map::<i64, usize>::empty(),
            t.crk_col.base_idx@ == Seq::<usize>::empty(),
            t.crk_col.ofs@ == Seq::<usize>::empty(),
            t.crk_col.run_lengths@ == Seq::<usize>::empty(),
    {
        let selection = select_columns(&self.int_columns, indices);
        let mut t = ReCoTable::new();
        t.int_columns = selection;
        t.count = indices.len();
        if self.crk_col.crk.len() > 0 {
            t.crk_col.crk = gather_vec(&self.crk_col.crk, indices);
            t.crk_col.crk_idx = AVLCrackerIndex::new();
        }
        t.crk_col.v = gather_vec(&self.crk_col.v, indices);
        t
    }

    /// Looks up the rows whose cracker value is `x` and answers with the values of column `col`
    /// there.
    pub fn cracker_select_specific(&mut self, x: i64, col: &str) -> (r: Vec<i64>)
        requires
            old(self).select_ready(),
            x < i64::MAX,
            has_name(old(self).int_columns@, col@),
        ensures
            final(self).select_ready(),
            final(self).count == old(self).count,
            final(self).int_columns == old(self).int_columns,
            final(self).crk_col_name == old(self).crk_col_name,
            final(self).crk_col.v == old(self).crk_col.v,
            exists|a: int, b: int| range_outcome(*old(self), *final(self), r@, x as int, x as int, col@, a, b),
            map_index_valid(old(self).crk_col.crk_idx@, old(self).crk_col.crk@)
                ==> map_index_valid(final(self).crk_col.crk_idx@, final(self).crk_col.crk@),
    {
        self.cracker_select_in_three(x, x, true, true, col)
    }

    /// Looks up the rows whose cracker value lies between `low` and `high`, each end included as
    /// `inc_l` and `inc_h` say, and answers with the values of column `col` there. A single value
    /// whose piece the index delimits is answered from the index; otherwise the piece of the
    /// cracker column that can hold the range is cracked and its bounds are recorded.
    #[verifier::rlimit(100)]
    pub fn cracker_select_in_three(&mut self, low: i64, high: i64, inc_l: bool, inc_h: bool, col: &str) -> (r: Vec<i64>)
        requires
            old(self).select_ready(),
            inc_l || low < i64::MAX,
            inc_h ==> high < i64::MAX,
            !inc_h ==> high > i64::MIN,
            has_name(old(self).int_columns@, col@),
        ensures
            final(self).select_ready(),
            final(self).count == old(self).count,
            final(self).int_columns == old(self).int_columns,
            final(self).crk_col_name == old(self).crk_col_name,
            final(self).crk_col.v == old(self).crk_col.v,
            exists|a: int, b: int| range_outcome(*old(self), *final(self), r@, adj_low(low, inc_l), adj_high(high, inc_h), col@, a, b),
            map_index_valid(old(self).crk_col.crk_idx@, old(self).crk_col.crk@) && adj_low(low, inc_l) <= adj_high(high, inc_h) + 1
                ==> map_index_valid(final(self).crk_col.crk_idx@, final(self).crk_col.crk@),
    {
        let al: i64 = if inc_l { low } else { low + 1 };
        let ah: i64 = if inc_h { high } else { high - 1 };
        let hk: i64 = if inc_h { high + 1 } else { high };
        let count = self.count;
        let ghost pre = *self;
        let ghost m0 = self.crk_col.crk_idx@;
        let ghost crk0 = self.crk_col.crk@;
        let ghost valid = map_index_valid(m0, crk0);
        let ghost colv = col_named(self.int_columns@, col@).v@;
        assert(al as int == adj_low(low, inc_l));
        assert(ah as int == adj_high(high, inc_h));
        proof {
            lemma_col_named_is_first(self.int_columns@, col@);
            let i = choose|i: int| first_named(self.int_columns@, col@, i) && col_named(self.int_columns@, col@) == self.int_columns@[i].1;
            assert(colv.len() == count);
            assert(gather(colv, self.crk_col.base_idx@.subrange(0, 0)) =~= Seq::<i64>::empty());
        }
        let p_low0: usize = match self.crk_col.crk_idx.lower_bound(&al) {
            Some(p) => p,
            None => 0,
        };
        let p_high0: usize = match self.crk_col.crk_idx.upper_bound(&hk) {
            Some(p) => p,
            None => count,
        };
        proof {
            if p_low0 > 0 {
                let k = choose|k: i64| is_max_at_most(m0, al, k) && p_low0 == m0[k];
                assert(m0.dom().contains(k));
            }
            if p_high0 < count {
                let k = choose|k: i64| is_min_at_least(m0, hk, k) && p_high0 == m0[k];
                assert(m0.dom().contains(k));
            }
        }
        assert(p_low0 <= count && p_high0 <= count);
        assert(valid ==> forall|i: int| 0 <= i < p_low0 ==> #[trigger] crk0[i] < al);
        assert(valid ==> forall|i: int| p_high0 <= i < count ==> #[trigger] crk0[i] > ah);
        let is_uniform_column_piece = al == ah && self.crk_col.crk_idx.contains(al) && self.crk_col.crk_idx.contains(hk);
        if is_uniform_column_piece {
            proof {
                assert(is_max_at_most(m0, al, al));
                assert(is_min_at_least(m0, hk, hk));
                if valid && p_low0 > p_high0 {
                    assert(crk0[p_high0 as int] > ah);
                    assert(crk0[p_high0 as int] < al);
                }
            }
            if p_low0 <= p_high0 {
                let rows = copy_range(&self.crk_col.base_idx, p_low0, p_high0);
                proof {
                    assert forall|j: int| 0 <= j < rows@.len() implies (#[trigger] rows@[j]) < colv.len() by {
                        assert(rows@[j] == self.crk_col.base_idx@[p_low0 + j]);
                    }
                }
                let r = self.get_values(rows.as_slice(), col);
                proof {
                    assert(range_outcome(pre, *self, r@, al as int, ah as int, col@, p_low0 as int, p_high0 as int)) by {
                        if valid {
                            assert forall|i: int| 0 <= i < count implies (p_low0 <= i < p_high0) == in_range(#[trigger] crk0[i], al as int, ah as int) by {
                                if i < p_low0 {
                                } else if i >= p_high0 {
                                } else {
                                    assert(entry_splits_at(crk0, m0, al, i));
                                    assert(entry_splits_at(crk0, m0, hk, i));
                                }
                            }
                        }
                    }
                }
                return r;
            }
            proof {
                assert(range_outcome(pre, *self, Seq::<i64>::empty(), al as int, ah as int, col@, 0, 0));
            }
            return Vec::new();
        }
        let ghost f1 = forall|i: int| 0 <= i < p_low0 ==> #[trigger] crk0[i] < al;
        let ghost f2 = forall|i: int| p_high0 <= i < count ==> #[trigger] crk0[i] > ah;
        let mut p_high: usize = if p_high0 == count { count - 1 } else { p_high0 };
        let mut p_low: usize = if p_low0 == count { count - 1 } else { p_low0 };
        assert(valid ==> forall|i: int| 0 <= i < p_low ==> #[trigger] crk0[i] < al);
        let ghost g1 = forall|i: int| 0 <= i < p_low ==> #[trigger] crk0[i] < al;
        let ghost p_start = p_low;
        while self.crk_col.crk[p_low] < al
            invariant
                gather(colv, self.crk_col.base_idx@.subrange(0, 0)) == Seq::<i64>::empty(),
                al as int == adj_low(low, inc_l),
                ah as int == adj_high(high, inc_h),
                hk as int == ah + 1,
                valid == map_index_valid(m0, crk0),
                valid ==> g1 && f2,
                g1 == forall|i: int| 0 <= i < p_start ==> #[trigger] crk0[i] < al,
                f2 == forall|i: int| p_high0 <= i < count ==> #[trigger] crk0[i] > ah,
                *self == pre,
                count == pre.count,
                self.select_ready(),
                crk0 == self.crk_col.crk@,
                m0 == self.crk_col.crk_idx@,
                colv == col_named(self.int_columns@, col@).v@,
                p_start <= p_low < count,
                forall|i: int| p_start <= i < p_low ==> #[trigger] crk0[i] < al,
            decreases count - p_low,
        {
            p_low += 1;
            if p_low == count {
                proof {
                    assert(range_outcome(pre, *self, Seq::<i64>::empty(), al as int, ah as int, col@, 0, 0)) by {
                        if valid {
                            assert forall|i: int| 0 <= i < count implies !in_range(#[trigger] crk0[i], al as int, ah as int) by {
                                if i < p_start {
                                }
                            }
                        }
                    }
                }
                return Vec::new();
            }
        }
        while self.crk_col.crk[p_high] > ah
            invariant
                gather(colv, self.crk_col.base_idx@.subrange(0, 0)) == Seq::<i64>::empty(),
                al as int == adj_low(low, inc_l),
                ah as int == adj_high(high, inc_h),
                hk as int == ah + 1,
                valid == map_index_valid(m0, crk0),
                valid ==> g1 && f2,
                g1 == forall|i: int| 0 <= i < p_start ==> #[trigger] crk0[i] < al,
                f2 == forall|i: int| p_high0 <= i < count ==> #[trigger] crk0[i] > ah,
                *self == pre,
                count == pre.count,
                self.select_ready(),
                crk0 == self.crk_col.crk@,
                m0 == self.crk_col.crk_idx@,
                colv == col_named(self.int_columns@, col@).v@,
                p_start <= p_low < count,
                forall|i: int| p_start <= i < p_low ==> #[trigger] crk0[i] < al,
                crk0[p_low as int] >= al,
                p_high < count,
                p_high0 == count ==> p_high <= count - 1,
                p_high0 < count ==> p_high <= p_high0,
                forall|i: int| p_high < i < count && i < p_high0 ==> #[trigger] crk0[i] > ah,
                p_high0 == count ==> forall|i: int| p_high < i < count ==> #[trigger] crk0[i] > ah,
            decreases p_high,
        {
            if p_high == 0 {
                proof {
                    assert(range_outcome(pre, *self, Seq::<i64>::empty(), al as int, ah as int, col@, 0, 0)) by {
                        if valid {
                            assert forall|i: int| 0 <= i < count implies !in_range(#[trigger] crk0[i], al as int, ah as int) by {
                                if i >= p_high0 {
                                }
                            }
                        }
                    }
                }
                return Vec::new();
            }
            p_high -= 1;
        }
        proof {
            if valid {
                assert forall|i: int| p_high < i < count implies #[trigger] crk0[i] > ah by {
                    if i >= p_high0 {
                    }
                }
                assert forall|i: int| 0 <= i < p_low implies #[trigger] crk0[i] < al by {
                    if i < p_start {
                    }
                }
            }
        }
        if p_low == p_high {
            let rows = copy_range(&self.crk_col.base_idx, p_low, p_low + 1);
            proof {
                assert forall|j: int| 0 <= j < rows@.len() implies (#[trigger] rows@[j]) < colv.len() by {
                    assert(rows@[j] == self.crk_col.base_idx@[p_low + j]);
                }
            }
            let r = self.get_values(rows.as_slice(), col);
            proof {
                assert(range_outcome(pre, *self, r@, al as int, ah as int, col@, p_low as int, p_low + 1)) by {
                    if valid {
                        assert forall|i: int| 0 <= i < count implies (p_low <= i < p_low + 1) == in_range(#[trigger] crk0[i], al as int, ah as int) by {
                        }
                    }
                }
            }
            return r;
        }
        if p_low > p_high {
            if p_low == p_high + 1 {
                self.crk_col.crk_idx.insert(al, p_low);
                self.crk_col.crk_idx.insert(hk, p_low);
                proof {
                    if valid && al <= ah + 1 {
                        lemma_map_index_after_split(m0, crk0, al, ah, p_low as int, p_low as int);
                    }
                }
            }
            proof {
                assert(range_outcome(pre, *self, Seq::<i64>::empty(), al as int, ah as int, col@, p_low as int, p_low as int)) by {
                    assert(gather(colv, self.crk_col.base_idx@.subrange(p_low as int, p_low as int)) =~= Seq::<i64>::empty());
                }
            }
            return Vec::new();
        }
        let ghost v = self.crk_col.v@;
        match crack_in_three_loop(&mut self.crk_col.crk, &mut self.crk_col.base_idx, p_low, p_high, al, ah, Ghost(v)) {
            Some((a, b, h)) => {
                let ghost crk1 = self.crk_col.crk@;
                self.crk_col.crk_idx.insert(al, a);
                self.crk_col.crk_idx.insert(hk, h + 1);
                let rows = copy_range(&self.crk_col.base_idx, a, b);
                proof {
                    assert forall|j: int| 0 <= j < rows@.len() implies (#[trigger] rows@[j]) < colv.len() by {
                        assert(rows@[j] == self.crk_col.base_idx@[a + j]);
                    }
                }
                let r = self.get_values(rows.as_slice(), col);
                proof {
                    assert(forall|i: int| 0 <= i < count && !(p_low <= i <= p_high) ==> #[trigger] crk1[i] == crk0[i]);
                    if valid {
                        assert forall|i: int| 0 <= i < a implies #[trigger] crk1[i] < al by {
                            if i < p_low {
                                assert(crk1[i] == crk0[i]);
                            } else {
                                assert(c_low(crk1[i], al as int));
                            }
                        }
                        assert forall|i: int| b <= i < count implies #[trigger] crk1[i] > ah by {
                            if i > p_high {
                                assert(crk1[i] == crk0[i]);
                            } else {
                                assert(c_high(crk1[i], ah as int));
                            }
                        }
                        assert forall|i: int| a <= i < b implies in_range(#[trigger] crk1[i], al as int, ah as int) by {
                        }
                        if disjoint(al, ah) {
                            lemma_map_index_after_crack(m0, crk0, crk1, p_low as int, p_high as int, al, ah, a as int, b as int);
                        }
                    }
                    assert(range_outcome(pre, *self, r@, al as int, ah as int, col@, a as int, b as int)) by {
                        if valid {
                            assert forall|i: int| 0 <= i < count implies (a <= i < b) == in_range(#[trigger] self.crk_col.crk@[i], al as int, ah as int) by {
                                if i < a {
                                    assert(crk1[i] < al);
                                } else if i >= b {
                                    assert(crk1[i] > ah);
                                }
                            }
                        }
                    }
                }
                r
            },
            None => {
                proof {
                    assert(gather(colv, self.crk_col.base_idx@.subrange(0, 0)) =~= Seq::<i64>::empty());
                    assert(range_outcome(pre, *self, Seq::<i64>::empty(), al as int, ah as int, col@, 0, 0));
                }
                Vec::new()
            },
        }
    }

    /// Counts the rows where column `col` equals `eq`.
    pub fn count_col_eq(&self, col: &str, eq: i64) -> (r: i64)
        requires
            has_name(self.int_columns@, col@),
            col_named(self.int_columns@, col@).v@.len() <= i64::MAX,
        ensures
            r == count_eq(col_named(self.int_columns@, col@).v@, eq),
    {
        let c = self.get_i64_col(col);
        count_in(&c.v, eq)
    }
}

/// An adjacency list of the edges `src_node[i] -> dst_node[i]`, with columns `"src"` and `"dst"`,
/// cracked on the column `crk`.
pub fn from_adjacency_vectors(src_node: Vec<i64>, dst_node: Vec<i64>, crk: &str) -> (t: ReCoTable)
    requires
        src_node@.len() == dst_node@.len(),
        crk@ == "src"@ || crk@ == "dst"@,
    ensures
        t.count > 0 ==> t.select_ready(),
        t.count == src_node@.len(),
        names_distinct(t.int_columns@),
        t.int_columns@.len() == 2,
        t.int_columns@[0].0@ == "src"@,
        t.int_columns@[1].0@ == "dst"@,
        t.int_columns@[0].1.v@ == src_node@,
        t.int_columns@[1].1.v@ == dst_node@,
        t.crk_col_name@ == crk@,
        t.crk_col.crk@ == col_named(t.int_columns@, crk@).v@,
        t.crk_col.base_idx@ == iota_seq(t.count as nat),
        t.crk_col.crk_idx@ == Map::<i64, usize>::empty(),
{
    proof {
        reveal_strlit("src");
        reveal_strlit("dst");
    }
    let ghost src0 = src_node@;
    let ghost dst0 = dst_node@;
    let n = src_node.len();
    assert("src"@ != "dst"@) by {
        assert("src"@[0] == 's');
        assert("dst"@[0] == 'd');
    }
    let mut adjacency_list = ReCoTable::new();
    let names: Vec<&str> = vec!["src", "dst"];
    let ghost nm = names@;
    assert(nm.len() == 2 && nm[0] == "src" && nm[1] == "dst");
    adjacency_list.new_columns(names);
    let ghost cols1 = adjacency_list.int_columns@;
    proof {
        assert(cols1[0int].0@ == nm[0int]@);
        assert(cols1[1int].0@ == nm[1int]@);
        assert(cols1.len() == 2);
        assert(cols1[0].0@ == "src"@);
        assert(cols1[1].0@ == "dst"@);
        assert(names_distinct(cols1));
    }
    let ins: Vec<(&str, Vec<i64>)> = vec![("src", src_node), ("dst", dst_node)];
    proof {
        assert(ins@[0].0@ == "src"@ && ins@[1].0@ == "dst"@);
        assert(has_name(cols1, ins@[0].0@)) by { assert(cols1[0].0@ == ins@[0].0@); }
        assert(has_name(cols1, ins@[1].0@)) by { assert(cols1[1].0@ == ins@[1].0@); }
        assert forall|k: int| 0 <= k < ins@.len() implies has_name(cols1, (#[trigger] ins@[k]).0@) by {
        }
        assert forall|i: int| 0 <= i < cols1.len() implies exists|j: int| 0 <= j < ins@.len() && (#[trigger] ins@[j]).0@ == (#[trigger] cols1[i]).0@ by {
            assert(ins@[i].0@ == cols1[i].0@);
        }
        assert(cols_batch_ok(cols1, 0, ins@));
        crate::graph::decomposed_cracking::lemma_data_for_entry(ins@, 0);
        crate::graph::decomposed_cracking::lemma_data_for_entry(ins@, 1);
        assert(cols_count_after(cols1, 0, ins@) == src0.len());
    }
    adjacency_list.insert(ins);
    let ghost cols2 = adjacency_list.int_columns@;
    proof {
        assert(new_entries_empty(ins@, cols1)) by {
            crate::db::lemma_new_entries_from(ins@, cols1);
            let fr = crate::db::new_entries(ins@, cols1);
            if fr.len() > 0 {
                assert(!has_name(cols1, fr[0].0@));
                let j = choose|j: int| 0 <= j < ins@.len() && ins@[j] == fr[0];
                assert(has_name(cols1, ins@[j].0@));
            }
        }
        assert(cols2.len() == 2);
        assert(Seq::<i64>::empty() + src0 =~= src0);
        assert(Seq::<i64>::empty() + dst0 =~= dst0);
        assert(cols2[0].1.v@ == src0);
        assert(cols2[1].1.v@ == dst0);
        assert(names_distinct(cols2)) by {
            assert(cols2[0].0 == cols1[0].0);
            assert(cols2[1].0 == cols1[1].0);
        }
        assert(has_name(cols2, crk@)) by {
            if crk@ == "src"@ {
                assert(cols2[0].0@ == crk@);
            } else {
                assert(cols2[1].0@ == crk@);
            }
        }
        assert(adjacency_list.crk_col.crk_idx.wf());
    }
    adjacency_list.set_crk_col(crk);
    proof {
        let t = adjacency_list;
        lemma_col_named_is_first(cols2, crk@);
        assert(t.crk_col.v@.len() == t.count);
        assert(aligned(t.crk_col.crk@, t.crk_col.base_idx@, t.crk_col.v@));
        assert(distinct(t.crk_col.base_idx@));
    }
    adjacency_list
}

/// No entry of the batch names a new column.
pub open spec fn new_entries_empty(ins: Seq<(&str, Vec<i64>)>, cols: Seq<(String, IntCol)>) -> bool {
    crate::db::new_entries(ins, cols).len() == 0
}

} // verus!
