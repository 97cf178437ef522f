//! Decomposed cracking without compression: each lookup of a vertex cracks the cracker column
//! around it and answers with the values of another column at the matching rows.

use vstd::prelude::*;
use crate::crack::{
    aligned, distinct, gather, iota, iota_seq, copy_vec, copy_range, all_below, in_range, c_low,
    c_high, crack_in_three_loop,
};
use crate::db::{
    Column, has_name, first_named, find_col, names_distinct, batch_distinct, data_for, count_eq,
    count_in,
};
use crate::graph::column::{
    IntCol, is_fresh, col_named, lemma_col_named, map_index_valid, map_index_in_bounds,
    is_col_selection, rows_in_cols, select_columns, values_of, lemma_map_index_after_crack,
    lemma_map_index_after_split, lemma_col_named_is_first,
};
use crate::graph::cracker_index::{AVLCrackerIndex, is_min_at_least, is_max_at_most};

verus! {

/// A table of named integer columns, one of them copied into a cracker column.
pub struct DeCrackedTable {
    pub count: usize,
    pub crk_col: IntCol,
    pub columns: Vec<(String, IntCol)>,
}

/// `n` is one of the given names.
pub open spec fn named_in(names: Seq<String>, n: Seq<char>) -> bool {
    exists|j: int| 0 <= j < names.len() && (#[trigger] names[j])@ == n
}

/// The length of the first non-empty entry among `ls`, or 0.
pub open spec fn run_len(ls: Seq<nat>) -> nat
    decreases ls.len(),
{
    if ls.len() == 0 {
        0
    } else {
        let r = run_len(ls.drop_last());
        if r == 0 { ls.last() } else { r }
    }
}

/// The lengths of the values that a batch holds for each column, in column order.
pub open spec fn batch_lengths(cols: Seq<(String, IntCol)>, ins: Seq<(&str, Vec<i64>)>) -> Seq<nat> {
    Seq::new(cols.len(), |i: int| data_for(ins, cols[i].0@).len())
}

/// Every column gets as many values as every other.
pub open spec fn lengths_agree(ls: Seq<nat>) -> bool {
    forall|i: int, j: int| 0 <= i < ls.len() && 0 <= j < ls.len() ==> #[trigger] ls[j] == #[trigger] ls[i]
}

/// Every column of `cols` is named by some entry of the batch.
pub open spec fn batch_names_all<T>(ins: Seq<(&str, Vec<T>)>, cols: Seq<(String, IntCol)>) -> bool {
    forall|i: int| 0 <= i < cols.len() ==> exists|j: int| 0 <= j < ins.len() && (#[trigger] ins[j]).0@ == (#[trigger] cols[i]).0@
}

/// In a batch without repeated names, the values for the name of entry `j` are that entry's.
pub proof fn lemma_data_for_entry<T>(ins: Seq<(&str, Vec<T>)>, j: int)
    requires
        batch_distinct(ins),
        0 <= j < ins.len(),
    ensures
        data_for(ins, ins[j].0@) == ins[j].1@,
    decreases ins.len(),
{
    let n = ins[j].0@;
    let last = ins.len() - 1;
    if j == last {
        lemma_data_for_absent(ins.drop_last(), n);
        assert(Seq::<T>::empty() + ins[j].1@ =~= ins[j].1@);
    } else {
        assert forall|a: int, b: int| 0 <= a < ins.drop_last().len() && 0 <= b < ins.drop_last().len() && a != b
            implies (#[trigger] ins.drop_last()[a]).0@ != (#[trigger] ins.drop_last()[b]).0@ by {
            assert(ins.drop_last()[a] == ins[a]);
            assert(ins.drop_last()[b] == ins[b]);
        }
        assert(ins.drop_last()[j] == ins[j]);
        lemma_data_for_entry(ins.drop_last(), j);
        assert(ins.last().0@ != n) by {
            assert(ins[last] == ins.last());
        }
        assert(data_for(ins, n) =~= data_for(ins.drop_last(), n));
    }
}

/// A name that no entry carries gets no values.
pub proof fn lemma_data_for_absent<T>(ins: Seq<(&str, Vec<T>)>, n: Seq<char>)
    requires
        forall|k: int| 0 <= k < ins.len() ==> (#[trigger] ins[k]).0@ != n,
    ensures
        data_for(ins, n) == Seq::<T>::empty(),
    decreases ins.len(),
{
    if ins.len() > 0 {
        assert forall|k: int| 0 <= k < ins.drop_last().len() implies (#[trigger] ins.drop_last()[k]).0@ != n by {
            assert(ins.drop_last()[k] == ins[k]);
        }
        lemma_data_for_absent(ins.drop_last(), n);
        assert(data_for(ins, n) =~= Seq::<T>::empty());
    }
}

/// The position of the first entry of the batch named `name`.
pub(crate) fn find_entry(ins: &Vec<(&str, Vec<i64>)>, name: &String) -> (r: Option<usize>)
    ensures
        match r {
            Some(j) => j < ins@.len() && ins@[j as int].0@ == name@,
            None => forall|j: int| 0 <= j < ins@.len() ==> (#[trigger] ins@[j]).0@ != name@,
        },
{
    let mut j: usize = 0;
    while j < ins.len()
        invariant
            j <= ins@.len(),
            forall|k: int| 0 <= k < j ==> (#[trigger] ins@[k]).0@ != name@,
        decreases ins@.len() - j,
    {
        let key = String::from_str(ins[j].0);
        if key == *name {
            return Some(j);
        }
        j += 1;
    }
    None
}

impl DeCrackedTable {
    /// The table is set up for lookups: the cracker column holds one cracked value and one base
    /// row per row, every base row once, every index entry points into it, and every column
    /// has a value per row.
    pub open spec fn select_ready(&self) -> bool {
        &&& self.crk_col.crk_idx.wf()
        &&& map_index_in_bounds(self.crk_col.crk_idx@, self.count as nat)
        &&& self.crk_col.crk@.len() == self.count
        &&& self.crk_col.v@.len() == self.count
        &&& aligned(self.crk_col.crk@, self.crk_col.base_idx@, self.crk_col.v@)
        &&& distinct(self.crk_col.base_idx@)
        &&& forall|i: int| 0 <= i < self.columns@.len() ==> (#[trigger] self.columns@[i]).1.v@.len() == self.count
    }

    pub fn new() -> (r: DeCrackedTable)
        ensures
            r.count == 0,
            is_fresh(r.crk_col),
            r.columns@ == Seq::<(String, IntCol)>::empty(),
    {
        DeCrackedTable { count: 0, crk_col: IntCol::empty(), columns: Vec::new() }
    }

    /// Gives every listed name an empty column, replacing a column of that name if there is one.
    pub fn new_columns(&mut self, col_names: Vec<String>)
        requires
            names_distinct(old(self).columns@),
        ensures
            final(self).count == old(self).count,
            final(self).crk_col == old(self).crk_col,
            final(self).columns@.len() >= old(self).columns@.len(),
            forall|i: int| 0 <= i < old(self).columns@.len() ==> {
                &&& (#[trigger] final(self).columns@[i]).0 == old(self).columns@[i].0
                &&& if named_in(col_names@, old(self).columns@[i].0@) {
                    is_fresh(final(self).columns@[i].1)
                } else {
                    final(self).columns@[i].1 == old(self).columns@[i].1
                }
            },
            forall|i: int| old(self).columns@.len() <= i < final(self).columns@.len() ==>
                is_fresh((#[trigger] final(self).columns@[i]).1) && named_in(col_names@, final(self).columns@[i].0@),
            forall|j: int| 0 <= j < col_names@.len() ==> has_name(final(self).columns@, (#[trigger] col_names@[j])@),
            names_distinct(final(self).columns@),
    {
        let ghost before = self.columns@;
        let ghost names = col_names@;
        let mut j: usize = 0;
        while j < col_names.len()
            invariant
                j <= names.len(),
                col_names@ == names,
                self.count == old(self).count,
                self.crk_col == old(self).crk_col,
                before == old(self).columns@,
                self.columns@.len() >= before.len(),
                forall|i: int| 0 <= i < before.len() ==> {
                    &&& (#[trigger] self.columns@[i]).0 == before[i].0
                    &&& if named_in(names.subrange(0, j as int), before[i].0@) {
                        is_fresh(self.columns@[i].1)
                    } else {
                        self.columns@[i].1 == before[i].1
                    }
                },
                forall|i: int| before.len() <= i < self.columns@.len() ==>
                    is_fresh((#[trigger] self.columns@[i]).1) && named_in(names.subrange(0, j as int), self.columns@[i].0@),
                forall|k: int| 0 <= k < j ==> has_name(self.columns@, (#[trigger] names[k])@),
                names_distinct(before),
                names_distinct(self.columns@),
            decreases names.len() - j,
        {
            let ghost prev = self.columns@;
            let ghost sub0 = names.subrange(0, j as int);
            let ghost sub1 = names.subrange(0, j + 1);
            proof {
                assert forall|n: Seq<char>| named_in(sub0, n) implies named_in(sub1, n) by {
                    let k = choose|k: int| 0 <= k < sub0.len() && (#[trigger] sub0[k])@ == n;
                    assert(sub1[k] == sub0[k]);
                }
                assert(sub1[j as int] == names[j as int]);
                assert(named_in(sub1, names[j as int]@));
                assert forall|n: Seq<char>| named_in(sub1, n) && n != names[j as int]@ implies named_in(sub0, n) by {
                    let k = choose|k: int| 0 <= k < sub1.len() && (#[trigger] sub1[k])@ == n;
                    assert(sub0[k] == sub1[k]);
                }
            }
            let name_ref: &str = col_names[j].as_str();
            match find_col(&self.columns, name_ref) {
                Some(i) => {
                    self.columns[i].1 = IntCol::empty();
                    proof {
                        assert(self.columns@[i as int].0@ == names[j as int]@);
                        assert forall|k: int| 0 <= k <= j implies has_name(self.columns@, (#[trigger] names[k])@) by {
                            if k < j {
                                let i2 = choose|i2: int| 0 <= i2 < prev.len() && (#[trigger] prev[i2]).0@ == names[k]@;
                                assert(self.columns@[i2].0 == prev[i2].0);
                            }
                        }
                        assert forall|i2: int| 0 <= i2 < before.len() implies {
                            &&& (#[trigger] self.columns@[i2]).0 == before[i2].0
                            &&& if named_in(sub1, before[i2].0@) {
                                is_fresh(self.columns@[i2].1)
                            } else {
                                self.columns@[i2].1 == before[i2].1
                            }
                        } by {
                            if i2 == i {
                                assert(before[i2].0@ == names[j as int]@);
                            } else {
                                assert(self.columns@[i2] == prev[i2]);
                                assert(prev[i2].0@ != prev[i as int].0@);
                            }
                        }
                        assert forall|i2: int| before.len() <= i2 < self.columns@.len() implies
                            is_fresh((#[trigger] self.columns@[i2]).1) && named_in(sub1, self.columns@[i2].0@) by {
                            if i2 != i {
                                assert(self.columns@[i2] == prev[i2]);
                            }
                        }
                    }
                },
                None => {
                    let nm = col_names[j].clone();
                    self.columns.push((nm, IntCol::empty()));
                    proof {
                        let last = self.columns@.len() - 1;
                        assert(self.columns@[last].0@ == names[j as int]@);
                        assert forall|k: int| 0 <= k <= j implies has_name(self.columns@, (#[trigger] names[k])@) by {
                            if k < j {
                                let i2 = choose|i2: int| 0 <= i2 < prev.len() && (#[trigger] prev[i2]).0@ == names[k]@;
                                assert(self.columns@[i2] == prev[i2]);
                            } else {
                                assert(self.columns@[last].0@ == names[k]@);
                            }
                        }
                        assert forall|i2: int| 0 <= i2 < before.len() implies {
                            &&& (#[trigger] self.columns@[i2]).0 == before[i2].0
                            &&& if named_in(sub1, before[i2].0@) {
                                is_fresh(self.columns@[i2].1)
                            } else {
                                self.columns@[i2].1 == before[i2].1
                            }
                        } by {
                            assert(self.columns@[i2] == prev[i2]);
                            assert(prev[i2].0@ != names[j as int]@);
                        }
                        {
                            assert forall|a: int, b: int| 0 <= a < self.columns@.len() && 0 <= b < self.columns@.len() && a != b
                                implies (#[trigger] self.columns@[a]).0@ != (#[trigger] self.columns@[b]).0@ by {
                                if a < last && b < last {
                                    assert(self.columns@[a] == prev[a]);
                                    assert(self.columns@[b] == prev[b]);
                                } else if a == last {
                                    assert(self.columns@[b] == prev[b]);
                                } else {
                                    assert(self.columns@[a] == prev[a]);
                                }
                            }
                        }
                    }
                },
            }
            j += 1;
        }
        proof {
            assert(names.subrange(0, names.len() as int) =~= names);
        }
    }

    /// Makes the column `col_name` the cracker column: its values are copied into the cracked
    /// column, whose base rows start in order. The cracker index is kept.
    pub fn set_crk_col(&mut self, col_name: String)
        requires
            has_name(old(self).columns@, col_name@),
        ensures
            final(self).count == old(self).count,
            final(self).columns == old(self).columns,
            final(self).crk_col.v@ == col_named(old(self).columns@, col_name@).v@,
            final(self).crk_col.crk@ == col_named(old(self).columns@, col_name@).v@,
            final(self).crk_col.base_idx@ == iota_seq(old(self).count as nat),
            final(self).crk_col.crk_idx == old(self).crk_col.crk_idx,
            final(self).crk_col.ofs == old(self).crk_col.ofs,
            final(self).crk_col.run_lengths == old(self).crk_col.run_lengths,
    {
        match find_col(&self.columns, col_name.as_str()) {
            Some(i) => {
                proof {
                    lemma_col_named(self.columns@, col_name@, i as int);
                }
                self.crk_col.v = copy_vec(&self.columns[i].1.v);
                self.crk_col.crk = copy_vec(&self.columns[i].1.v);
                self.crk_col.base_idx = iota(self.count);
            },
            None => {
                proof {
                    assert(false);
                }
            },
        }
    }

    /// Appends to every column the values the batch holds under its name; the row count grows
    /// by the length of the first non-empty of them.
    pub fn insert(&mut self, new_values: Vec<(&str, Vec<i64>)>)
        requires
            batch_distinct(new_values@),
            batch_names_all(new_values@, old(self).columns@),
            lengths_agree(batch_lengths(old(self).columns@, new_values@)),
            old(self).count + run_len(batch_lengths(old(self).columns@, new_values@)) <= usize::MAX,
        ensures
            final(self).count == old(self).count + run_len(batch_lengths(old(self).columns@, new_values@)),
            final(self).crk_col == old(self).crk_col,
            final(self).columns@.len() == old(self).columns@.len(),
            forall|i: int| 0 <= i < old(self).columns@.len() ==> {
                let c = old(self).columns@[i].1;
                let d = (#[trigger] final(self).columns@[i]).1;
                &&& final(self).columns@[i].0 == old(self).columns@[i].0
                &&& d.v@ == c.v@ + data_for(new_values@, old(self).columns@[i].0@)
                &&& d.crk == c.crk
                &&& d.crk_idx == c.crk_idx
                &&& d.base_idx == c.base_idx
                &&& d.ofs == c.ofs
                &&& d.run_lengths == c.run_lengths
            },
    {
        let ghost ins = new_values@;
        let ghost before = self.columns@;
        let ghost ls = batch_lengths(before, ins);
        let mut n_new_tuples: usize = 0;
        let mut i: usize = 0;
        while i < self.columns.len()
            invariant
                new_values@ == ins,
                before == old(self).columns@,
                ls == batch_lengths(before, ins),
                batch_distinct(ins),
                batch_names_all(ins, before),
                lengths_agree(ls),
                old(self).count + run_len(ls) <= usize::MAX,
                self.count == old(self).count,
                self.crk_col == old(self).crk_col,
                self.columns@.len() == before.len(),
                i <= before.len(),
                n_new_tuples == run_len(ls.subrange(0, i as int)),
                forall|k: int| 0 <= k < before.len() ==> {
                    let c = before[k].1;
                    let d = (#[trigger] self.columns@[k]).1;
                    &&& self.columns@[k].0 == before[k].0
                    &&& d.v@ == if k < i { c.v@ + data_for(ins, before[k].0@) } else { c.v@ }
                    &&& d.crk == c.crk
                    &&& d.crk_idx == c.crk_idx
                    &&& d.base_idx == c.base_idx
                    &&& d.ofs == c.ofs
                    &&& d.run_lengths == c.run_lengths
                },
            decreases before.len() - i,
        {
            let j = match find_entry(&new_values, &self.columns[i].0) {
                Some(j) => j,
                None => {
                    proof {
                        let j2 = choose|j2: int| 0 <= j2 < ins.len() && (#[trigger] ins[j2]).0@ == (#[trigger] before[i as int]).0@;
                        assert(ins[j2].0@ == before[i as int].0@);
                    }
                    return;
                },
            };
            proof {
                lemma_data_for_entry(ins, j as int);
                lemma_run_len_prefix(ls, i as int);
                lemma_run_len_witness(ls.subrange(0, i as int));
                if n_new_tuples != 0 {
                    let f = choose|f: int| 0 <= f < i && ls.subrange(0, i as int)[f] == n_new_tuples && ls.subrange(0, i as int)[f] != 0;
                    assert(ls[f] == ls.subrange(0, i as int)[f]);
                    assert(ls[i as int] == ls[f]);
                }
                assert(ls[i as int] == new_values@[j as int].1@.len());
            }
            let n = new_values[j].1.len();
            let mut data = copy_vec(&new_values[j].1);
            self.columns[i].1.v.append(&mut data);
            if n_new_tuples == 0 {
                n_new_tuples = n;
            }
            i += 1;
        }
        proof {
            assert(ls.subrange(0, before.len() as int) =~= ls);
        }
        self.count = self.count + n_new_tuples;
    }

    /// The column named `col`, if there is one.
    pub fn get_col(&self, col: String) -> (r: Option<&IntCol>)
        ensures
            match r {
                Some(c) => has_name(self.columns@, col@) && *c == col_named(self.columns@, col@),
                None => !has_name(self.columns@, col@),
            },
    {
        match find_col(&self.columns, col.as_str()) {
            Some(i) => {
                proof {
                    lemma_col_named(self.columns@, col@, i as int);
                }
                Some(&self.columns[i].1)
            },
            None => None,
        }
    }

    /// The rows listed in `indices`, in that order, as a new table whose cracker column holds
    /// the matching cracked values under a fresh index.
    pub fn get_indices(&self, indices: &[usize]) -> (t: DeCrackedTable)
        requires
            rows_in_cols(self.columns@, indices@),
            all_below(indices@, self.crk_col.v@.len() as int),
            self.crk_col.crk@.len() > 0 ==> all_below(indices@, self.crk_col.crk@.len() as int),
        ensures
            t.count == indices@.len(),
            is_col_selection(t.columns@, self.columns@, indices@),
            t.crk_col.v@ == gather(self.crk_col.v@, indices@),
            t.crk_col.crk@ == if self.crk_col.crk@.len() > 0 { gather(self.crk_col.crk@, indices@) } else { Seq::<i64>::empty() },
            t.crk_col.crk_idx.wf(),
            t.crk_col.crk_idx@ == Map::<i64, usize>::empty(),
            t.crk_col.base_idx@ == Seq::<usize>::empty(),
            t.crk_col.ofs@ == Seq::<usize>::empty(),
            t.crk_col.run_lengths@ == Seq::<usize>::empty(),
    {
        let selection = select_columns(&self.columns, indices);
        let mut t = DeCrackedTable::new();
        t.columns = selection;
        t.count = indices.len();
        if self.crk_col.crk.len() > 0 {
            t.crk_col.crk = crate::crack::gather_vec(&self.crk_col.crk, indices);
            t.crk_col.crk_idx = AVLCrackerIndex::new();
        }
        t.crk_col.v = crate::crack::gather_vec(&self.crk_col.v, indices);
        t
    }

    /// The values of column `col` at the listed rows.
    pub fn get_values(&self, indices: &[usize], col: &str) -> (r: Vec<i64>)
        requires
            has_name(self.columns@, col@),
            all_below(indices@, col_named(self.columns@, col@).v@.len() as int),
        ensures
            r@ == gather(col_named(self.columns@, col@).v@, indices@),
    {
        values_of(&self.columns, indices, col)
    }

    /// Keeps, in every column and in the cracker column, the rows listed in `indices`, in that
    /// order; the cracked copies and the cracker index are dropped.
    pub fn rearrange(&mut self, indices: &[usize])
        requires
            rows_in_cols(old(self).columns@, indices@),
            all_below(indices@, old(self).crk_col.v@.len() as int),
        ensures
            final(self).count == old(self).count,
            is_col_selection(final(self).columns@, old(self).columns@, indices@),
            final(self).crk_col.v@ == gather(old(self).crk_col.v@, indices@),
            final(self).crk_col.crk@ == Seq::<i64>::empty(),
            final(self).crk_col.crk_idx.wf(),
            final(self).crk_col.crk_idx@ == Map::<i64, usize>::empty(),
            final(self).crk_col.base_idx@ == Seq::<usize>::empty(),
            final(self).crk_col.ofs@ == Seq::<usize>::empty(),
            final(self).crk_col.run_lengths@ == Seq::<usize>::empty(),
    {
        let selection = select_columns(&self.columns, indices);
        self.columns = selection;
        self.crk_col.rearrange(indices);
    }

    /// Looks up the rows whose cracker value is `x` and answers with the values of column `col`
    /// there, cracking the piece of the cracker column that can hold `x` on the way and
    /// recording where the rows of `x` start and end.
    #[verifier::rlimit(80)]
    pub fn cracker_select_specific(&mut self, x: i64, col: &str) -> (r: Vec<i64>)
        requires
            old(self).select_ready(),
            x < i64::MAX,
            has_name(old(self).columns@, col@),
        ensures
            final(self).select_ready(),
            final(self).count == old(self).count,
            final(self).columns == old(self).columns,
            final(self).crk_col.v == old(self).crk_col.v,
            exists|a: int, b: int| specific_outcome(*old(self), *final(self), r@, x, col@, a, b),
            map_index_valid(old(self).crk_col.crk_idx@, old(self).crk_col.crk@)
                ==> map_index_valid(final(self).crk_col.crk_idx@, final(self).crk_col.crk@),
    {
        let count = self.count;
        let ghost pre = *self;
        let ghost m0 = self.crk_col.crk_idx@;
        let ghost crk0 = self.crk_col.crk@;
        let ghost valid = map_index_valid(m0, crk0);
        let ghost colv = col_named(self.columns@, col@).v@;
        proof {
            lemma_col_named_is_first(self.columns@, col@);
            let i = choose|i: int| first_named(self.columns@, col@, i) && col_named(self.columns@, col@) == self.columns@[i].1;
            assert(colv.len() == count);
            assert(gather(colv, self.crk_col.base_idx@.subrange(0, 0)) =~= Seq::<i64>::empty());
        }
        let p_low0: usize = match self.crk_col.crk_idx.lower_bound(&x) {
            Some(p) => p,
            None => 0,
        };
        let p_high_plus: usize = match self.crk_col.crk_idx.upper_bound(&(x + 1)) {
            Some(p) => p,
            None => count,
        };
        proof {
            if p_low0 > 0 {
                let k = choose|k: i64| is_max_at_most(m0, x, k) && p_low0 == m0[k];
                assert(m0.dom().contains(k));
            }
            if p_high_plus < count {
                let k = choose|k: i64| is_min_at_least(m0, (x + 1) as i64, k) && p_high_plus == m0[k];
                assert(m0.dom().contains(k));
            }
        }
        assert(p_low0 <= count && p_high_plus <= count);
        assert(valid ==> forall|i: int| 0 <= i < p_low0 ==> #[trigger] crk0[i] < x);
        assert(valid ==> forall|i: int| p_high_plus <= i < count ==> #[trigger] crk0[i] > x);
        if p_high_plus == 0 || p_low0 >= count {
            proof {
                assert(specific_outcome(pre, *self, Seq::<i64>::empty(), x, col@, 0, 0));
            }
            return Vec::new();
        }
        let ghost f1 = forall|i: int| 0 <= i < p_low0 ==> #[trigger] crk0[i] < x;
        let ghost f2 = forall|i: int| p_high_plus <= i < count ==> #[trigger] crk0[i] > x;
        let mut p_low = p_low0;
        while self.crk_col.crk[p_low] < x
            invariant
                gather(colv, self.crk_col.base_idx@.subrange(0, 0)) == Seq::<i64>::empty(),
                valid == map_index_valid(m0, crk0),
                valid ==> f1 && f2,
                f1 == forall|i: int| 0 <= i < p_low0 ==> #[trigger] crk0[i] < x,
                f2 == forall|i: int| p_high_plus <= i < count ==> #[trigger] crk0[i] > x,
                *self == pre,
                count == pre.count,
                self.select_ready(),
                crk0 == self.crk_col.crk@,
                m0 == self.crk_col.crk_idx@,
                colv == col_named(self.columns@, col@).v@,
                p_low0 <= p_low < count,
                forall|i: int| p_low0 <= i < p_low ==> #[trigger] crk0[i] < x,
            decreases count - p_low,
        {
            p_low += 1;
            if p_low == count {
                proof {
                    assert(specific_outcome(pre, *self, Seq::<i64>::empty(), x, col@, 0, 0)) by {
                        if valid {
                            assert forall|i: int| 0 <= i < count implies !(#[trigger] crk0[i] == x) by {
                                if i < p_low0 {
                                }
                            }
                        }
                    }
                }
                return Vec::new();
            }
        }
        let mut p_high = p_high_plus - 1;
        while self.crk_col.crk[p_high] > x
            invariant
                gather(colv, self.crk_col.base_idx@.subrange(0, 0)) == Seq::<i64>::empty(),
                valid == map_index_valid(m0, crk0),
                valid ==> f1 && f2,
                f1 == forall|i: int| 0 <= i < p_low0 ==> #[trigger] crk0[i] < x,
                f2 == forall|i: int| p_high_plus <= i < count ==> #[trigger] crk0[i] > x,
                *self == pre,
                count == pre.count,
                self.select_ready(),
                crk0 == self.crk_col.crk@,
                m0 == self.crk_col.crk_idx@,
                colv == col_named(self.columns@, col@).v@,
                p_low0 <= p_low < count,
                forall|i: int| p_low0 <= i < p_low ==> #[trigger] crk0[i] < x,
                crk0[p_low as int] >= x,
                p_high < p_high_plus <= count,
                forall|i: int| p_high < i < p_high_plus ==> #[trigger] crk0[i] > x,
            decreases p_high,
        {
            if p_high == 0 {
                proof {
                    assert(specific_outcome(pre, *self, Seq::<i64>::empty(), x, col@, 0, 0)) by {
                        if valid {
                            assert forall|i: int| 0 <= i < count implies !(#[trigger] crk0[i] == x) by {
                                if i >= p_high_plus {
                                }
                            }
                        }
                    }
                }
                return Vec::new();
            }
            p_high -= 1;
        }
        if p_low == p_high {
            let rows = copy_range(&self.crk_col.base_idx, p_low, p_low + 1);
            proof {
                assert forall|j: int| 0 <= j < rows@.len() implies (#[trigger] rows@[j]) < colv.len() by {
                    assert(rows@[j] == self.crk_col.base_idx@[p_low + j]);
                }
            }
            let r = self.get_values(rows.as_slice(), col);
            proof {
                assert(specific_outcome(pre, *self, r@, x, col@, p_low as int, p_low + 1)) by {
                    if valid {
                        assert forall|i: int| 0 <= i < count implies (p_low <= i < p_low + 1) == (#[trigger] crk0[i] == x) by {
                            if i < p_low0 {
                            } else if i >= p_high_plus {
                            }
                        }
                    }
                }
            }
            return r;
        }
        if p_low > p_high {
            if p_low == p_high + 1 {
                self.crk_col.crk_idx.insert(x, p_low);
                self.crk_col.crk_idx.insert(x + 1, p_low);
                proof {
                    if valid {
                        lemma_map_index_after_split(m0, crk0, x, x, p_low as int, p_low as int);
                    }
                    assert(specific_outcome(pre, *self, Seq::<i64>::empty(), x, col@, p_low as int, p_low as int)) by {
                        assert(gather(colv, self.crk_col.base_idx@.subrange(p_low as int, p_low as int)) =~= Seq::<i64>::empty());
                        if valid {
                            assert forall|i: int| 0 <= i < count implies !(#[trigger] crk0[i] == x) by {
                                if i < p_low0 {
                                } else if i >= p_high_plus {
                                }
                            }
                        }
                    }
                }
            } else {
                proof {
                    assert(specific_outcome(pre, *self, Seq::<i64>::empty(), x, col@, 0, 0));
                }
            }
            return Vec::new();
        }
        let ghost v = self.crk_col.v@;
        match crack_in_three_loop(&mut self.crk_col.crk, &mut self.crk_col.base_idx, p_low, p_high, x, x, Ghost(v)) {
            Some((a, b, h)) => {
                let ghost crk1 = self.crk_col.crk@;
                self.crk_col.crk_idx.insert(x, a);
                self.crk_col.crk_idx.insert(x + 1, h + 1);
                let rows = copy_range(&self.crk_col.base_idx, a, b);
                proof {
                    assert forall|j: int| 0 <= j < rows@.len() implies (#[trigger] rows@[j]) < colv.len() by {
                        assert(rows@[j] == self.crk_col.base_idx@[a + j]);
                    }
                }
                let r = self.get_values(rows.as_slice(), col);
                proof {
                    assert(forall|i: int| 0 <= i < count && !(p_low <= i <= p_high) ==> #[trigger] crk1[i] == crk0[i]);
                    if valid {
                        assert forall|i: int| 0 <= i < a implies #[trigger] crk1[i] < x by {
                            if i < p_low {
                                assert(crk1[i] == crk0[i]);
                            } else {
                                assert(c_low(crk1[i], x as int));
                            }
                        }
                        assert forall|i: int| b <= i < count implies #[trigger] crk1[i] > x by {
                            if i > p_high {
                                assert(crk1[i] == crk0[i]);
                            } else {
                                assert(c_high(crk1[i], x as int));
                            }
                        }
                        assert forall|i: int| a <= i < b implies in_range(#[trigger] crk1[i], x as int, x as int) by {
                        }
                        lemma_map_index_after_crack(m0, crk0, crk1, p_low as int, p_high as int, x, x, a as int, b as int);
                    }
                    assert(specific_outcome(pre, *self, r@, x, col@, a as int, b as int)) by {
                        if valid {
                            assert forall|i: int| 0 <= i < count implies (a <= i < b) == (#[trigger] self.crk_col.crk@[i] == x) by {
                                if i < a {
                                    assert(crk1[i] < x);
                                } else if i >= b {
                                    assert(crk1[i] > x);
                                } else {
                                    assert(in_range(crk1[i], x as int, x as int));
                                }
                            }
                        }
                    }
                }
                r
            },
            None => {
                proof {
                    assert(false);
                }
                Vec::new()
            },
        }
    }

    /// Counts the rows where column `col` equals `eq`.
    pub fn count_col_eq(&self, col: &str, eq: i64) -> (r: i64)
        requires
            has_name(self.columns@, col@),
            col_named(self.columns@, col@).v@.len() <= i64::MAX,
        ensures
            r == count_eq(col_named(self.columns@, col@).v@, eq),
    {
        match find_col(&self.columns, col) {
            Some(i) => {
                proof {
                    lemma_col_named(self.columns@, col@, i as int);
                }
                count_in(&self.columns[i].1.v, eq)
            },
            None => {
                proof {
                    assert(false);
                }
                0
            },
        }
    }
}

/// An adjacency list of the edges `src_node[i] -> dst_node[i]`, with columns `"src"` and `"dst"`,
/// cracked on the column `crk`.
pub fn from_adjacency_vectors(src_node: Vec<i64>, dst_node: Vec<i64>, crk: &str) -> (t: DeCrackedTable)
    requires
        src_node@.len() == dst_node@.len(),
        crk@ == "src"@ || crk@ == "dst"@,
    ensures
        t.select_ready(),
        t.count == src_node@.len(),
        names_distinct(t.columns@),
        t.columns@.len() == 2,
        has_name(t.columns@, "src"@),
        has_name(t.columns@, "dst"@),
        col_named(t.columns@, "src"@).v@ == src_node@,
        col_named(t.columns@, "dst"@).v@ == dst_node@,
        t.crk_col.crk@ == col_named(t.columns@, crk@).v@,
        t.crk_col.base_idx@ == iota_seq(t.count as nat),
        t.crk_col.crk_idx@ == Map::<i64, usize>::empty(),
{
    proof {
        reveal_strlit("src");
        reveal_strlit("dst");
    }
    let ghost src0 = src_node@;
    let ghost dst0 = dst_node@;
    let n = src_node.len();
    assert("src"@ != "dst"@) by {
        assert("src"@[0] == 's');
        assert("dst"@[0] == 'd');
    }
    let mut adjacency_list = DeCrackedTable::new();
    let names: Vec<String> = vec![String::from_str("src"), String::from_str("dst")];
    adjacency_list.new_columns(names);
    let ghost cols1 = adjacency_list.columns@;
    proof {
        assert(named_in(names@, "src"@)) by { assert(names@[0]@ == "src"@); }
        assert(named_in(names@, "dst"@)) by { assert(names@[1]@ == "dst"@); }
        assert(has_name(cols1, names@[0]@));
        assert(has_name(cols1, names@[1]@));
        assert forall|i: int| 0 <= i < cols1.len() implies (#[trigger] cols1[i]).0@ == "src"@ || cols1[i].0@ == "dst"@ by {
            assert(named_in(names@, cols1[i].0@));
            let j = choose|j: int| 0 <= j < names@.len() && (#[trigger] names@[j])@ == cols1[i].0@;
        }
        let a = choose|a: int| 0 <= a < cols1.len() && (#[trigger] cols1[a]).0@ == "src"@;
        let b = choose|b: int| 0 <= b < cols1.len() && (#[trigger] cols1[b]).0@ == "dst"@;
        assert(a != b);
        if cols1.len() > 2 {
            let c = if a != 0 && b != 0 { 0 } else if a != 1 && b != 1 { 1 } else { 2 };
            assert(cols1[c].0@ == "src"@ || cols1[c].0@ == "dst"@);
            assert(false);
        }
        assert(cols1.len() == 2);
    }
    let ins: Vec<(&str, Vec<i64>)> = vec![("src", src_node), ("dst", dst_node)];
    let ghost ls = batch_lengths(cols1, ins@);
    proof {
        assert(ins@[0].0@ == "src"@ && ins@[1].0@ == "dst"@);
        assert(batch_distinct(ins@));
        lemma_data_for_entry(ins@, 0);
        lemma_data_for_entry(ins@, 1);
        assert forall|i: int| 0 <= i < cols1.len() implies exists|j: int| 0 <= j < ins@.len() && (#[trigger] ins@[j]).0@ == (#[trigger] cols1[i]).0@ by {
            if cols1[i].0@ == "src"@ {
                assert(ins@[0].0@ == cols1[i].0@);
            } else {
                assert(ins@[1].0@ == cols1[i].0@);
            }
        }
        assert forall|i: int| 0 <= i < ls.len() implies #[trigger] ls[i] == src0.len() by {
            if cols1[i].0@ == "src"@ {
            } else {
            }
        }
        assert(run_len(ls) == src0.len()) by {
            reveal_with_fuel(run_len, 3);
            assert(ls.drop_last().drop_last() =~= Seq::<nat>::empty());
        }
    }
    adjacency_list.insert(ins);
    let ghost cols2 = adjacency_list.columns@;
    proof {
        assert forall|i: int| 0 <= i < cols2.len() implies (#[trigger] cols2[i]).1.v@ == if cols2[i].0@ == "src"@ { src0 } else { dst0 } by {
            assert(cols1[i].1.v@ == Seq::<i64>::empty());
            if cols1[i].0@ == "src"@ {
                assert(Seq::<i64>::empty() + src0 =~= src0);
            } else {
                assert(Seq::<i64>::empty() + dst0 =~= dst0);
            }
        }
        assert(names_distinct(cols2)) by {
            assert forall|a: int, b: int| 0 <= a < cols2.len() && 0 <= b < cols2.len() && a != b implies (#[trigger] cols2[a]).0@ != (#[trigger] cols2[b]).0@ by {
                assert(cols2[a].0 == cols1[a].0);
                assert(cols2[b].0 == cols1[b].0);
            }
        }
        assert(has_name(cols2, "src"@)) by {
            let a = choose|a: int| 0 <= a < cols1.len() && (#[trigger] cols1[a]).0@ == "src"@;
            assert(cols2[a].0 == cols1[a].0);
        }
        assert(has_name(cols2, "dst"@)) by {
            let a = choose|a: int| 0 <= a < cols1.len() && (#[trigger] cols1[a]).0@ == "dst"@;
            assert(cols2[a].0 == cols1[a].0);
        }
        lemma_col_named_is_first(cols2, "src"@);
        lemma_col_named_is_first(cols2, "dst"@);
        assert(adjacency_list.crk_col.crk_idx.wf());
    }
    let crk_name = String::from_str(crk);
    adjacency_list.set_crk_col(crk_name);
    proof {
        let t = adjacency_list;
        lemma_col_named_is_first(cols2, crk@);
        assert(t.crk_col.v@.len() == t.count);
        assert(aligned(t.crk_col.crk@, t.crk_col.base_idx@, t.crk_col.v@));
        assert(distinct(t.crk_col.base_idx@));
    }
    adjacency_list
}

/// What a lookup of `x` returns: the values of column `col` at the base rows of positions
/// `a..b` of the cracked column, with the index either unchanged or extended by the split at
/// `a..b`; when the index was valid, those positions are exactly those holding `x`.
pub open spec fn specific_outcome(pre: DeCrackedTable, post: DeCrackedTable, r: Seq<i64>, x: i64, col: Seq<char>, a: int, b: int) -> bool {
    &&& 0 <= a <= b <= post.count
    &&& r == gather(col_named(post.columns@, col).v@, post.crk_col.base_idx@.subrange(a, b))
    &&& (post.crk_col.crk_idx@ == pre.crk_col.crk_idx@
        || post.crk_col.crk_idx@ == pre.crk_col.crk_idx@.insert(x, a as usize).insert((x + 1) as i64, b as usize))
    &&& map_index_valid(pre.crk_col.crk_idx@, pre.crk_col.crk@)
        ==> forall|i: int| 0 <= i < post.count ==> ((a <= i < b) == (#[trigger] post.crk_col.crk@[i] == x))
}

/// The first non-empty length of a sequence is that of one of its entries.
pub proof fn lemma_run_len_witness(ls: Seq<nat>)
    ensures
        run_len(ls) == 0 || exists|f: int| 0 <= f < ls.len() && ls[f] == run_len(ls) && ls[f] != 0,
    decreases ls.len(),
{
    if ls.len() > 0 {
        lemma_run_len_witness(ls.drop_last());
        if run_len(ls.drop_last()) != 0 {
            let f = choose|f: int| 0 <= f < ls.drop_last().len() && ls.drop_last()[f] == run_len(ls.drop_last()) && ls.drop_last()[f] != 0;
            assert(ls[f] == ls.drop_last()[f]);
        } else if ls.last() != 0 {
            assert(ls[ls.len() - 1] == ls.last());
        }
    }
}

/// Extending a prefix by one entry extends the first non-empty length accordingly.
pub proof fn lemma_run_len_prefix(ls: Seq<nat>, i: int)
    requires
        0 <= i < ls.len(),
    ensures
        run_len(ls.subrange(0, i + 1)) == if run_len(ls.subrange(0, i)) == 0 { ls[i] } else { run_len(ls.subrange(0, i)) },
{
    assert(ls.subrange(0, i + 1).drop_last() =~= ls.subrange(0, i));
}

} // verus!
