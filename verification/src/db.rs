//! The cracking database: columns, and a table whose cracker column is reorganised by the
//! range selections run on it.

use vstd::prelude::*;
use vstd::string::*;
use crate::cracker_index::{
    CrackerIndex, array_insert, array_get, array_upper_bound, array_lower_bound,
};
use crate::crack::{
    all_below, gather, gather_vec, iota, iota_seq, copy_vec, copy_range, aligned, distinct,
    c_low, c_high, in_range, disjoint, same_outside, from_region, crack_in_three_loop,
    crack_in_two_loop, scan_up, scan_down, crack3, lemma_scan_up_stops, lemma_scan_down_stops,
};

verus! {

/// A column of values that can be extended, read and reordered.
pub trait Column: Sized {
    type Item;

    /// The values held by the column.
    spec fn values(&self) -> Seq<Self::Item>;

    fn empty() -> (r: Self)
        ensures
            r.values() == Seq::<Self::Item>::empty(),
    ;

    /// Replaces the values by those at the listed positions, in that order.
    fn rearrange(&mut self, indices: &[usize])
        requires
            all_below(indices@, old(self).values().len() as int),
        ensures
            final(self).values() == gather(old(self).values(), indices@),
    ;

    fn at(self, idx: usize) -> (r: Self::Item)
        requires
            idx < self.values().len(),
        ensures
            r == self.values()[idx as int],
    ;

    /// Moves `values` onto the end of the column.
    fn append(&mut self, values: &mut Vec<Self::Item>)
        ensures
            final(self).values() == old(self).values() + old(values)@,
            final(values)@ == Seq::<Self::Item>::empty(),
    ;
}

/// A column of floating-point values, each held as its IEEE-754 bit pattern.
#[derive(Clone)]
pub struct FloatCol {
    pub v: Vec<u64>,
    pub base_idx: Vec<usize>,
}

impl Column for FloatCol {
    type Item = u64;

    open spec fn values(&self) -> Seq<u64> {
        self.v@
    }

    fn empty() -> (r: FloatCol)
        ensures
            r.base_idx@ == Seq::<usize>::empty(),
    {
        FloatCol { v: Vec::new(), base_idx: Vec::new() }
    }

    fn rearrange(&mut self, indices: &[usize])
        ensures
            final(self).base_idx@ == Seq::<usize>::empty(),
    {
        let replacement_v = gather_vec(&self.v, indices);
        self.v = replacement_v;
        self.base_idx = Vec::new();
    }

    fn at(self, idx: usize) -> (r: u64) {
        self.v[idx]
    }

    fn append(&mut self, values: &mut Vec<u64>)
        ensures
            final(self).base_idx == old(self).base_idx,
    {
        self.v.append(values);
    }
}

/// A column of integers that can serve as the cracker column of a table.
#[derive(Clone)]
pub struct CrackableCol {
    /// The values in base-row order.
    pub v: Vec<i64>,
    /// The cracked copy, reordered by the selections.
    pub crk: Vec<i64>,
    /// For a value `x`, the position in `crk` where the values `>= x` start.
    pub crk_idx: CrackerIndex,
    /// For each position of `crk`, the base row it came from.
    pub base_idx: Vec<usize>,
}

impl Column for CrackableCol {
    type Item = i64;

    open spec fn values(&self) -> Seq<i64> {
        self.v@
    }

    fn empty() -> (r: CrackableCol)
        ensures
            r.crk@ == Seq::<i64>::empty(),
            r.crk_idx@ == Seq::<Option<usize>>::empty(),
            r.base_idx@ == Seq::<usize>::empty(),
    {
        CrackableCol { v: Vec::new(), crk: Vec::new(), crk_idx: CrackerIndex::new(), base_idx: Vec::new() }
    }

    fn rearrange(&mut self, indices: &[usize])
        ensures
            final(self).crk@ == Seq::<i64>::empty(),
            final(self).crk_idx@ == Seq::<Option<usize>>::empty(),
            final(self).base_idx@ == Seq::<usize>::empty(),
    {
        let replacement_v = gather_vec(&self.v, indices);
        self.v = replacement_v;
        self.crk = Vec::new();
        self.crk_idx = CrackerIndex::new();
        self.base_idx = Vec::new();
    }

    fn at(self, idx: usize) -> (r: i64) {
        self.v[idx]
    }

    fn append(&mut self, values: &mut Vec<i64>)
        ensures
            final(self).crk == old(self).crk,
            final(self).crk_idx == old(self).crk_idx,
            final(self).base_idx == old(self).base_idx,
    {
        self.v.append(values);
    }
}

/// The names of a list of named columns.
pub open spec fn names<C>(cols: Seq<(String, C)>) -> Seq<Seq<char>> {
    cols.map_values(|p: (String, C)| p.0@)
}

/// `n` names one of the columns.
pub open spec fn has_name<C>(cols: Seq<(String, C)>, n: Seq<char>) -> bool {
    exists|i: int| 0 <= i < cols.len() && (#[trigger] cols[i]).0@ == n
}

/// `i` is the first column named `n`.
pub open spec fn first_named<C>(cols: Seq<(String, C)>, n: Seq<char>, i: int) -> bool {
    &&& 0 <= i < cols.len()
    &&& cols[i].0@ == n
    &&& forall|j: int| 0 <= j < i ==> (#[trigger] cols[j]).0@ != n
}

/// The position of the first column named `name`.
pub fn find_col<C>(cols: &Vec<(String, C)>, name: &str) -> (r: Option<usize>)
    ensures
        match r {
            Some(i) => first_named(cols@, name@, i as int),
            None => !has_name(cols@, name@),
        },
{
    let key = String::from_str(name);
    let mut i: usize = 0;
    while i < cols.len()
        invariant
            i <= cols@.len(),
            key@ == name@,
            forall|j: int| 0 <= j < i ==> (#[trigger] cols@[j]).0@ != name@,
        decreases cols@.len() - i,
    {
        if cols[i].0 == key {
            return Some(i);
        }
        i += 1;
    }
    None
}

/// A table of named integer and floating-point columns, with one integer column copied into a
/// cracker column.
#[derive(Clone)]
pub struct Table {
    pub count: usize,
    pub crk_col_name: String,
    pub crk_col: CrackableCol,
    pub i64_columns: Vec<(String, CrackableCol)>,
    pub f64_columns: Vec<(String, FloatCol)>,
}

/// `t` holds, in the same columns as `src`, the rows of `src` listed in `idx`: what
/// `get_indices` returns.
pub open spec fn is_selection(t: Table, src: Table, idx: Seq<usize>) -> bool {
    &&& t.count == idx.len()
    &&& t.crk_col_name@ == Seq::<char>::empty()
    &&& t.i64_columns@.len() == src.i64_columns@.len()
    &&& forall|i: int| 0 <= i < t.i64_columns@.len() ==> {
        &&& (#[trigger] t.i64_columns@[i]).0@ == src.i64_columns@[i].0@
        &&& t.i64_columns@[i].1.v@ == gather(src.i64_columns@[i].1.v@, idx)
        &&& t.i64_columns@[i].1.crk@ == Seq::<i64>::empty()
        &&& t.i64_columns@[i].1.crk_idx@ == Seq::<Option<usize>>::empty()
        &&& t.i64_columns@[i].1.base_idx@ == Seq::<usize>::empty()
    }
    &&& t.f64_columns@.len() == src.f64_columns@.len()
    &&& forall|i: int| 0 <= i < t.f64_columns@.len() ==> {
        &&& (#[trigger] t.f64_columns@[i]).0@ == src.f64_columns@[i].0@
        &&& t.f64_columns@[i].1.v@ == gather(src.f64_columns@[i].1.v@, idx)
        &&& t.f64_columns@[i].1.base_idx@ == Seq::<usize>::empty()
    }
    &&& t.crk_col.v@ == gather(src.crk_col.v@, idx)
    &&& t.crk_col.crk@ == if src.crk_col.crk@.len() > 0 { gather(src.crk_col.crk@, idx) } else { Seq::<i64>::empty() }
    &&& t.crk_col.crk_idx@ == Seq::<Option<usize>>::empty()
    &&& t.crk_col.base_idx@ == Seq::<usize>::empty()
}

/// Every listed row exists in every column that `get_indices` reads.
pub open spec fn rows_exist(t: Table, idx: Seq<usize>) -> bool {
    &&& forall|i: int| 0 <= i < t.i64_columns@.len() ==> all_below(idx, (#[trigger] t.i64_columns@[i]).1.v@.len() as int)
    &&& forall|i: int| 0 <= i < t.f64_columns@.len() ==> all_below(idx, (#[trigger] t.f64_columns@[i]).1.v@.len() as int)
    &&& all_below(idx, t.crk_col.v@.len() as int)
    &&& t.crk_col.crk@.len() > 0 ==> all_below(idx, t.crk_col.crk@.len() as int)
}

impl Table {
    pub fn new() -> (r: Table)
        ensures
            r.count == 0,
            r.crk_col_name@ == Seq::<char>::empty(),
            r.crk_col.v@ == Seq::<i64>::empty(),
            r.crk_col.crk@ == Seq::<i64>::empty(),
            r.crk_col.crk_idx@ == Seq::<Option<usize>>::empty(),
            r.crk_col.base_idx@ == Seq::<usize>::empty(),
            r.i64_columns@ == Seq::<(String, CrackableCol)>::empty(),
            r.f64_columns@ == Seq::<(String, FloatCol)>::empty(),
    {
        Table {
            count: 0,
            crk_col_name: String::new(),
            crk_col: CrackableCol::empty(),
            i64_columns: Vec::new(),
            f64_columns: Vec::new(),
        }
    }

    /// The integer column named `col`.
    pub fn get_i64_col(&self, col: &str) -> (r: &CrackableCol)
        requires
            has_name(self.i64_columns@, col@),
        ensures
            exists|i: int| first_named(self.i64_columns@, col@, i) && *r == self.i64_columns@[i].1,
    {
        match find_col(&self.i64_columns, col) {
            Some(i) => &self.i64_columns[i].1,
            None => {
                proof {
                    assert(false);
                }
                &self.crk_col
            },
        }
    }

    /// The floating-point column named `col`.
    pub fn get_f64_col(&self, col: &str) -> (r: &FloatCol)
        requires
            has_name(self.f64_columns@, col@),
        ensures
            exists|i: int| first_named(self.f64_columns@, col@, i) && *r == self.f64_columns@[i].1,
    {
        match find_col(&self.f64_columns, col) {
            Some(i) => &self.f64_columns[i].1,
            None => {
                proof {
                    assert(false);
                }
                &self.f64_columns[0].1
            },
        }
    }

    /// Makes the integer column `col_name` the cracker column: its cracked copy (made from its
    /// values if it has none) is copied into the cracker column, whose base rows start in order.
    /// The cracker index is kept.
    pub fn set_crk_col(&mut self, col_name: &str)
        requires
            has_name(old(self).i64_columns@, col_name@),
        ensures
            final(self).crk_col_name@ == col_name@,
            final(self).count == old(self).count,
            final(self).f64_columns == old(self).f64_columns,
            final(self).crk_col.crk_idx == old(self).crk_col.crk_idx,
            final(self).crk_col.base_idx@ == iota_seq(old(self).count as nat),
            final(self).i64_columns@.len() == old(self).i64_columns@.len(),
            exists|i: int| #![trigger first_named(old(self).i64_columns@, col_name@, i)] {
                let c = old(self).i64_columns@[i].1;
                let crk = if c.crk@.len() == 0 { c.v@ } else { c.crk@ };
                &&& first_named(old(self).i64_columns@, col_name@, i)
                &&& forall|j: int| 0 <= j < old(self).i64_columns@.len() && j != i ==> #[trigger] final(self).i64_columns@[j] == old(self).i64_columns@[j]
                &&& final(self).i64_columns@[i].0 == old(self).i64_columns@[i].0
                &&& final(self).i64_columns@[i].1.v == c.v
                &&& final(self).i64_columns@[i].1.crk@ == crk
                &&& final(self).i64_columns@[i].1.crk_idx == c.crk_idx
                &&& final(self).i64_columns@[i].1.base_idx == c.base_idx
                &&& final(self).crk_col.v@ == crk
                &&& final(self).crk_col.crk@ == crk
            },
    {
        self.crk_col_name = String::from_str(col_name);
        match find_col(&self.i64_columns, col_name) {
            Some(i) => {
                if self.i64_columns[i].1.crk.len() == 0 {
                    let copied = copy_vec(&self.i64_columns[i].1.v);
                    self.i64_columns[i].1.crk = copied;
                }
                self.crk_col.v = copy_vec(&self.i64_columns[i].1.crk);
                self.crk_col.crk = copy_vec(&self.i64_columns[i].1.crk);
                self.crk_col.base_idx = iota(self.count);
                proof {
                    assert(first_named(old(self).i64_columns@, col_name@, i as int));
                }
            },
            None => {
                proof {
                    assert(false);
                }
            },
        }
    }

    /// Creates an empty column for each name: of integers for type `'j'`, of floats for `'f'`.
    pub fn new_columns(&mut self, cols: Vec<(&str, char)>)
        requires
            forall|j: int| 0 <= j < cols@.len() ==> (#[trigger] cols@[j]).1 == 'j' || cols@[j].1 == 'f',
            forall|j: int, k: int| 0 <= j < cols@.len() && 0 <= k < cols@.len() && j != k ==> (#[trigger] cols@[j]).0@ != (#[trigger] cols@[k]).0@,
            forall|j: int| 0 <= j < cols@.len() && (#[trigger] cols@[j]).1 == 'j' ==> !has_name(old(self).i64_columns@, cols@[j].0@),
            forall|j: int| 0 <= j < cols@.len() && (#[trigger] cols@[j]).1 == 'f' ==> !has_name(old(self).f64_columns@, cols@[j].0@),
        ensures
            final(self).count == old(self).count,
            final(self).crk_col == old(self).crk_col,
            final(self).crk_col_name == old(self).crk_col_name,
            names(final(self).i64_columns@) == names(old(self).i64_columns@) + typed_names(cols@, 'j'),
            names(final(self).f64_columns@) == names(old(self).f64_columns@) + typed_names(cols@, 'f'),
            forall|i: int| 0 <= i < old(self).i64_columns@.len() ==> #[trigger] final(self).i64_columns@[i] == old(self).i64_columns@[i],
            forall|i: int| 0 <= i < old(self).f64_columns@.len() ==> #[trigger] final(self).f64_columns@[i] == old(self).f64_columns@[i],
            forall|i: int| old(self).i64_columns@.len() <= i < final(self).i64_columns@.len() ==> is_empty_int_col((#[trigger] final(self).i64_columns@[i]).1),
            forall|i: int| old(self).f64_columns@.len() <= i < final(self).f64_columns@.len() ==> is_empty_float_col((#[trigger] final(self).f64_columns@[i]).1),
    {
        let mut j: usize = 0;
        while j < cols.len()
            invariant
                j <= cols@.len(),
                forall|k: int| 0 <= k < cols@.len() ==> (#[trigger] cols@[k]).1 == 'j' || cols@[k].1 == 'f',
                self.count == old(self).count,
                self.crk_col == old(self).crk_col,
                self.crk_col_name == old(self).crk_col_name,
                names(self.i64_columns@) == names(old(self).i64_columns@) + typed_names(cols@.subrange(0, j as int), 'j'),
                names(self.f64_columns@) == names(old(self).f64_columns@) + typed_names(cols@.subrange(0, j as int), 'f'),
                forall|i: int| 0 <= i < old(self).i64_columns@.len() ==> #[trigger] self.i64_columns@[i] == old(self).i64_columns@[i],
                forall|i: int| 0 <= i < old(self).f64_columns@.len() ==> #[trigger] self.f64_columns@[i] == old(self).f64_columns@[i],
                old(self).i64_columns@.len() <= self.i64_columns@.len(),
                old(self).f64_columns@.len() <= self.f64_columns@.len(),
                forall|i: int| old(self).i64_columns@.len() <= i < self.i64_columns@.len() ==> is_empty_int_col((#[trigger] self.i64_columns@[i]).1),
                forall|i: int| old(self).f64_columns@.len() <= i < self.f64_columns@.len() ==> is_empty_float_col((#[trigger] self.f64_columns@[i]).1),
            decreases cols@.len() - j,
        {
            let (name, t) = cols[j];
            let ghost before = cols@.subrange(0, j as int);
            proof {
                assert(cols@.subrange(0, j + 1) =~= before.push(cols@[j as int]));
                assert(cols@.subrange(0, j + 1).drop_last() =~= before);
            }
            let ghost prev_i = self.i64_columns@;
            let ghost prev_f = self.f64_columns@;
            if t == 'j' {
                let nm = String::from_str(name);
                self.i64_columns.push((nm, CrackableCol::empty()));
                proof {
                    assert(names(self.i64_columns@) =~= names(prev_i).push(cols@[j as int].0@));
                }
                proof {
                    lemma_typed_names_step(cols@, j as int);
                    assert(names(self.i64_columns@) =~= names(old(self).i64_columns@) + typed_names(cols@.subrange(0, j + 1), 'j'));
                    assert(names(self.f64_columns@) =~= names(old(self).f64_columns@) + typed_names(cols@.subrange(0, j + 1), 'f'));
                }
            } else {
                proof {
                    assert(cols@[j as int].1 == 'f');
                }
                let nm = String::from_str(name);
                self.f64_columns.push((nm, FloatCol::empty()));
                proof {
                    assert(names(self.f64_columns@) =~= names(prev_f).push(cols@[j as int].0@));
                }
                proof {
                    lemma_typed_names_step(cols@, j as int);
                    assert(names(self.i64_columns@) =~= names(old(self).i64_columns@) + typed_names(cols@.subrange(0, j + 1), 'j'));
                    assert(names(self.f64_columns@) =~= names(old(self).f64_columns@) + typed_names(cols@.subrange(0, j + 1), 'f'));
                }
            }
            j += 1;
        }
        proof {
            assert(cols@.subrange(0, cols@.len() as int) =~= cols@);
        }
    }

    /// Keeps, in every column, the rows listed in `indices`, in that order; the cracked copies and
    /// the cracker index are dropped.
    pub fn rearrange(&mut self, indices: &[usize])
        requires
            forall|i: int| 0 <= i < old(self).i64_columns@.len() ==> all_below(indices@, (#[trigger] old(self).i64_columns@[i]).1.v@.len() as int),
            forall|i: int| 0 <= i < old(self).f64_columns@.len() ==> all_below(indices@, (#[trigger] old(self).f64_columns@[i]).1.v@.len() as int),
            all_below(indices@, old(self).crk_col.v@.len() as int),
        ensures
            final(self).count == old(self).count,
            final(self).crk_col_name == old(self).crk_col_name,
            final(self).i64_columns@.len() == old(self).i64_columns@.len(),
            forall|i: int| 0 <= i < final(self).i64_columns@.len() ==> {
                &&& (#[trigger] final(self).i64_columns@[i]).0 == old(self).i64_columns@[i].0
                &&& final(self).i64_columns@[i].1.v@ == gather(old(self).i64_columns@[i].1.v@, indices@)
                &&& final(self).i64_columns@[i].1.crk@ == Seq::<i64>::empty()
                &&& final(self).i64_columns@[i].1.crk_idx@ == Seq::<Option<usize>>::empty()
                &&& final(self).i64_columns@[i].1.base_idx@ == Seq::<usize>::empty()
            },
            final(self).f64_columns@.len() == old(self).f64_columns@.len(),
            forall|i: int| 0 <= i < final(self).f64_columns@.len() ==> {
                &&& (#[trigger] final(self).f64_columns@[i]).0 == old(self).f64_columns@[i].0
                &&& final(self).f64_columns@[i].1.v@ == gather(old(self).f64_columns@[i].1.v@, indices@)
                &&& final(self).f64_columns@[i].1.base_idx@ == Seq::<usize>::empty()
            },
            final(self).crk_col.v@ == gather(old(self).crk_col.v@, indices@),
            final(self).crk_col.crk@ == Seq::<i64>::empty(),
            final(self).crk_col.crk_idx@ == Seq::<Option<usize>>::empty(),
            final(self).crk_col.base_idx@ == Seq::<usize>::empty(),
    {
        let mut i: usize = 0;
        while i < self.i64_columns.len()
            invariant
                i <= self.i64_columns@.len(),
                self.i64_columns@.len() == old(self).i64_columns@.len(),
                self.f64_columns == old(self).f64_columns,
                self.crk_col == old(self).crk_col,
                self.count == old(self).count,
                self.crk_col_name == old(self).crk_col_name,
                forall|k: int| 0 <= k < old(self).i64_columns@.len() ==> all_below(indices@, (#[trigger] old(self).i64_columns@[k]).1.v@.len() as int),
                forall|k: int| i <= k < self.i64_columns@.len() ==> #[trigger] self.i64_columns@[k] == old(self).i64_columns@[k],
                forall|k: int| 0 <= k < i ==> {
                    &&& (#[trigger] self.i64_columns@[k]).0 == old(self).i64_columns@[k].0
                    &&& self.i64_columns@[k].1.v@ == gather(old(self).i64_columns@[k].1.v@, indices@)
                    &&& self.i64_columns@[k].1.crk@ == Seq::<i64>::empty()
                    &&& self.i64_columns@[k].1.crk_idx@ == Seq::<Option<usize>>::empty()
                    &&& self.i64_columns@[k].1.base_idx@ == Seq::<usize>::empty()
                },
            decreases self.i64_columns@.len() - i,
        {
            proof {
                assert(self.i64_columns@[i as int] == old(self).i64_columns@[i as int]);
            }
            self.i64_columns[i].1.rearrange(indices);
            i += 1;
        }
        let ghost mid = self.i64_columns;
        let mut i: usize = 0;
        while i < self.f64_columns.len()
            invariant
                i <= self.f64_columns@.len(),
                self.f64_columns@.len() == old(self).f64_columns@.len(),
                self.i64_columns == mid,
                self.crk_col == old(self).crk_col,
                self.count == old(self).count,
                self.crk_col_name == old(self).crk_col_name,
                forall|k: int| 0 <= k < old(self).f64_columns@.len() ==> all_below(indices@, (#[trigger] old(self).f64_columns@[k]).1.v@.len() as int),
                forall|k: int| i <= k < self.f64_columns@.len() ==> #[trigger] self.f64_columns@[k] == old(self).f64_columns@[k],
                forall|k: int| 0 <= k < i ==> {
                    &&& (#[trigger] self.f64_columns@[k]).0 == old(self).f64_columns@[k].0
                    &&& self.f64_columns@[k].1.v@ == gather(old(self).f64_columns@[k].1.v@, indices@)
                    &&& self.f64_columns@[k].1.base_idx@ == Seq::<usize>::empty()
                },
            decreases self.f64_columns@.len() - i,
        {
            proof {
                assert(self.f64_columns@[i as int] == old(self).f64_columns@[i as int]);
            }
            self.f64_columns[i].1.rearrange(indices);
            i += 1;
        }
        self.crk_col.rearrange(indices);
    }

    /// The length the batch gives the table: the length of its entries for new columns if there
    /// are any, else the count plus the length of its entries for existing columns.
    fn batch_count(&self, new_ints: &Vec<(&str, Vec<i64>)>) -> (r: usize)
        requires
            int_batch_ok(*self, new_ints@),
        ensures
            r == count_after(*self, new_ints@),
    {
        let ghost ins = new_ints@;
        let ghost cols = self.i64_columns@;
        let mut l_old: Option<usize> = None;
        let mut l_new: Option<usize> = None;
        let mut j: usize = 0;
        while j < new_ints.len()
            invariant
                j <= ins.len(),
                new_ints@ == ins,
                self.i64_columns@ == cols,
                int_batch_ok(*self, ins),
                match l_old {
                    Some(l) => exists|k: int| 0 <= k < j && has_name(cols, (#[trigger] ins[k]).0@) && ins[k].1@.len() == l,
                    None => forall|k: int| 0 <= k < j ==> !has_name(cols, (#[trigger] ins[k]).0@),
                },
                match l_new {
                    Some(l) => exists|k: int| 0 <= k < j && !has_name(cols, (#[trigger] ins[k]).0@) && ins[k].1@.len() == l,
                    None => forall|k: int| 0 <= k < j ==> has_name(cols, (#[trigger] ins[k]).0@),
                },
            decreases ins.len() - j,
        {
            if find_col(&self.i64_columns, new_ints[j].0).is_some() {
                l_old = Some(new_ints[j].1.len());
            } else {
                l_new = Some(new_ints[j].1.len());
            }
            j += 1;
        }
        match l_new {
            Some(n) => {
                proof {
                    let k = choose|k: int| 0 <= k < ins.len() && !has_name(cols, (#[trigger] ins[k]).0@) && ins[k].1@.len() == n;
                    let c = choose|j2: int| 0 <= j2 < ins.len() && !has_name(cols, (#[trigger] ins[j2]).0@);
                    assert(has_name(cols, ins[k].0@) == has_name(cols, ins[c].0@));
                }
                n
            },
            None => {
                match l_old {
                    Some(o) => {
                        proof {
                            let k = choose|k: int| 0 <= k < ins.len() && has_name(cols, (#[trigger] ins[k]).0@) && ins[k].1@.len() == o;
                            assert(has_name(cols, ins[0].0@));
                            assert(has_name(cols, ins[k].0@) == has_name(cols, ins[0].0@));
                        }
                        self.count + o
                    },
                    None => {
                        proof {
                            assert(has_name(cols, ins[0].0@));
                        }
                        self.count
                    },
                }
            },
        }
    }

    /// Adds rows to the integer columns: each entry's values are appended to the column it
    /// names, or become a new column when it names none.
    pub fn insert(&mut self, new_ints: Vec<(&str, Vec<i64>)>)
        requires
            int_batch_ok(*old(self), new_ints@),
        ensures
            final(self).count == count_after(*old(self), new_ints@),
            appended_int_cols(final(self).i64_columns@, old(self).i64_columns@, new_ints@),
            final(self).f64_columns == old(self).f64_columns,
            final(self).crk_col == old(self).crk_col,
            final(self).crk_col_name == old(self).crk_col_name,
    {
        let count = self.batch_count(&new_ints);
        let mut entries = new_ints;
        append_int_batch(&mut self.i64_columns, &mut entries);
        self.count = count;
    }

    /// Adds rows to the integer and float columns together.
    pub fn insert_multityped(&mut self, new_ints: Vec<(&str, Vec<i64>)>, new_floats: Vec<(&str, Vec<u64>)>)
        requires
            int_batch_ok(*old(self), new_ints@),
            float_batch_ok(*old(self), new_ints@, new_floats@),
        ensures
            final(self).count == count_after(*old(self), new_ints@),
            appended_int_cols(final(self).i64_columns@, old(self).i64_columns@, new_ints@),
            appended_float_cols(final(self).f64_columns@, old(self).f64_columns@, new_floats@),
            final(self).crk_col == old(self).crk_col,
            final(self).crk_col_name == old(self).crk_col_name,
    {
        let count = self.batch_count(&new_ints);
        let mut entries = new_ints;
        append_int_batch(&mut self.i64_columns, &mut entries);
        let mut fentries = new_floats;
        append_float_batch(&mut self.f64_columns, &mut fentries);
        self.count = count;
    }

    /// The cracker column is set up for selections: it holds one cracked value and one base row
    /// per row, every base row once, and every index entry points into it.
    pub open spec fn select_ready(&self) -> bool {
        &&& self.count > 0
        &&& self.crk_col.crk@.len() == self.count
        &&& self.crk_col.v@.len() == self.count
        &&& aligned(self.crk_col.crk@, self.crk_col.base_idx@, self.crk_col.v@)
        &&& distinct(self.crk_col.base_idx@)
        &&& forall|i: int| 0 <= i < self.i64_columns@.len() ==> (#[trigger] self.i64_columns@[i]).1.v@.len() == self.count
        &&& forall|i: int| 0 <= i < self.f64_columns@.len() ==> (#[trigger] self.f64_columns@[i]).1.v@.len() == self.count
        &&& index_in_bounds(self.crk_col.crk_idx@, self.count as nat)
    }

    /// Rows `a..b` of the cracked order as a selection.
    fn select_rows(&self, a: usize, b: usize) -> (t: Table)
        requires
            self.select_ready(),
            a <= b <= self.count,
        ensures
            is_selection(t, *self, self.crk_col.base_idx@.subrange(a as int, b as int)),
    {
        let idx = copy_range(&self.crk_col.base_idx, a, b);
        proof {
            assert forall|j: int| 0 <= j < idx@.len() implies (#[trigger] idx@[j]) < self.count by {
                assert(idx@[j] == self.crk_col.base_idx@[a + j]);
            }
            assert forall|i: int| 0 <= i < self.i64_columns@.len() implies all_below(idx@, (#[trigger] self.i64_columns@[i]).1.v@.len() as int) by {
            }
            assert forall|i: int| 0 <= i < self.f64_columns@.len() implies all_below(idx@, (#[trigger] self.f64_columns@[i]).1.v@.len() as int) by {
            }
        }
        self.get_indices(idx.as_slice())
    }

    /// Selects the rows whose cracker value lies between `low` and `high`, each end included as
    /// `inc_l` and `inc_h` say, partitioning the cracked column on the way and recording the
    /// piece boundaries in the cracker index.
    #[verifier::rlimit(100)]
    pub fn cracker_select_in_three(&mut self, low: i64, high: i64, inc_l: bool, inc_h: bool) -> (r: Table)
        requires
            old(self).select_ready(),
            inc_l || low < i64::MAX,
            inc_h ==> high < i64::MAX,
            !inc_h ==> high > i64::MIN,
            adj_low(low, inc_l) < usize::MAX,
            high_key(high, inc_h) < usize::MAX,
        ensures
            final(self).select_ready(),
            final(self).count == old(self).count,
            final(self).crk_col.v == old(self).crk_col.v,
            final(self).i64_columns == old(self).i64_columns,
            final(self).f64_columns == old(self).f64_columns,
            final(self).crk_col_name == old(self).crk_col_name,
            uniform_piece(old(self).crk_col.crk_idx@, adj_low(low, inc_l), adj_high(high, inc_h)) ==> *final(self) == *old(self),
            exists|a: int, b: int| crack_outcome(*old(self), *final(self), r, adj_low(low, inc_l), adj_high(high, inc_h), a, b),
            index_valid(old(self).crk_col.crk_idx@, old(self).crk_col.crk@) && adj_low(low, inc_l) <= adj_high(high, inc_h) + 1
                ==> index_valid(final(self).crk_col.crk_idx@, final(self).crk_col.crk@),
            ({
                let (c, b2, ix, a, b) = select3(old(self).crk_col.crk@, old(self).crk_col.base_idx@, old(self).crk_col.crk_idx@,
                    old(self).count as int, adj_low(low, inc_l), adj_high(high, inc_h));
                &&& final(self).crk_col.crk@ == c
                &&& final(self).crk_col.base_idx@ == b2
                &&& final(self).crk_col.crk_idx@ == ix
                &&& is_selection(r, *final(self), b2.subrange(a, b))
            }),
    {
        let adjusted_low: i64 = if inc_l { low } else { low + 1 };
        let adjusted_high: i64 = if inc_h { high } else { high - 1 };
        let hkey: i64 = if inc_h { high + 1 } else { high };
        let count = self.count;
        let ghost pre = *self;
        let ghost idx0 = self.crk_col.crk_idx@;
        let ghost crk0 = self.crk_col.crk@;
        let ghost al = adjusted_low as int;
        let ghost ah = adjusted_high as int;
        let ghost valid = index_valid(idx0, crk0) && disjoint(adjusted_low, adjusted_high);
        assert(hkey == ah + 1);
        let p_low0: usize = match self.crk_col.crk_idx.lower_bound(&adjusted_low) {
            Some(p) => p,
            None => 0,
        };
        let p_high0: usize = match self.crk_col.crk_idx.upper_bound(&hkey) {
            Some(p) => p,
            None => count - 1,
        };
        proof {
            if array_lower_bound(idx0, al) is Some {
                lemma_lower_bound_entry(idx0, al);
                let k = choose|k: int| 0 <= k <= al && k < idx0.len() && idx0[k] == array_lower_bound(idx0, al);
                assert(idx0[k] is Some);
                if valid {
                    assert(entry_valid(crk0, k, p_low0 as int));
                }
            }
            if array_upper_bound(idx0, hkey as int) is Some {
                lemma_upper_bound_entry(idx0, hkey as int);
                let k = choose|k: int| 0 <= k && hkey <= k < idx0.len() && idx0[k] == array_upper_bound(idx0, hkey as int);
                assert(idx0[k] is Some);
                if valid {
                    assert(entry_valid(crk0, k, p_high0 as int));
                }
            }
        }
        assert(p_low0 < count && p_high0 < count);
        assert(valid ==> forall|i: int| 0 <= i < p_low0 ==> c_low(#[trigger] crk0[i], al));
        assert(valid ==> forall|i: int| p_high0 < i < count ==> c_high(#[trigger] crk0[i], ah));
        proof {
            reveal(start_low);
            reveal(start_high);
            assert(p_low0 as int == start_low(idx0, al));
            assert(p_high0 as int == start_high(idx0, ah + 1, count as int));
        }
        let is_uniform_column_piece = adjusted_low == adjusted_high && self.crk_col.crk_idx.contains(adjusted_low)
            && adjusted_low < i64::MAX && self.crk_col.crk_idx.contains(adjusted_low + 1);
        if is_uniform_column_piece {
            proof {
                assert(hkey == al + 1);
                assert(idx0[al] is Some);
                assert(array_lower_bound(idx0, al) == idx0[al]);
                assert(array_upper_bound(idx0, al + 1) == idx0[al + 1]);
            }
            proof {
                lemma_select3_uniform(crk0, pre.crk_col.base_idx@, idx0, count as int, al, ah, p_low0 as int, p_high0 as int);
            }
            // The piece of the value lies between the two entries; each end position belongs
            // to it only when it holds the value.
            let a: usize = if self.crk_col.crk[p_low0] < adjusted_low { p_low0 + 1 } else { p_low0 };
            let b: usize = if self.crk_col.crk[p_high0] <= adjusted_high { p_high0 + 1 } else { p_high0 };
            proof {
                if index_valid(idx0, crk0) {
                    assert(entry_valid(crk0, al, p_low0 as int));
                    assert(entry_valid(crk0, al + 1, p_high0 as int));
                    assert forall|i: int| 0 <= i < count implies ((a <= i < b) == in_range(#[trigger] crk0[i], al, ah)) by {
                        if i < p_low0 {
                            assert(crk0[i] < al);
                        } else if i > p_high0 {
                            assert(crk0[i] >= al + 1);
                        } else if i > p_low0 && i < p_high0 {
                            assert(crk0[i] >= al && crk0[i] < al + 1);
                        }
                    }
                }
            }
            if a <= b {
                let r = self.select_rows(a, b);
                proof {
                    assert(al == adj_low(low, inc_l) && ah == adj_high(high, inc_h));
                    assert(crack_outcome(*old(self), *self, r, adj_low(low, inc_l), adj_high(high, inc_h), a as int, b as int));
                }
                return r;
            }
            let r = self.select_rows(0, 0);
            proof {
                if index_valid(idx0, crk0) {
                    assert forall|i: int| 0 <= i < count implies ((0 <= i < 0) == in_range(#[trigger] crk0[i], al, ah)) by {
                        assert(!(a <= i < b));
                    }
                }
                assert(al == adj_low(low, inc_l) && ah == adj_high(high, inc_h));
                assert(crack_outcome(*old(self), *self, r, adj_low(low, inc_l), adj_high(high, inc_h), 0, 0));
            }
            return r;
        }
        let ghost f1 = forall|i: int| 0 <= i < p_low0 ==> c_low(#[trigger] crk0[i], al);
        let ghost f2 = forall|i: int| p_high0 < i < count ==> c_high(#[trigger] crk0[i], ah);
        let mut p_low = p_low0;
        while self.crk_col.crk[p_low] < adjusted_low
            invariant
                p_low0 as int == start_low(idx0, al),
                p_high0 as int == start_high(idx0, ah + 1, count as int),
                !uniform_piece(idx0, al, ah),
                al == adj_low(low, inc_l),
                ah == adj_high(high, inc_h),
                adjusted_low as int == al,
                adjusted_high as int == ah,
                valid == (index_valid(idx0, crk0) && disjoint(adjusted_low, adjusted_high)),
                valid ==> f1 && f2,
                f1 == forall|i: int| 0 <= i < p_low0 ==> c_low(#[trigger] crk0[i], al),
                f2 == forall|i: int| p_high0 < i < count ==> c_high(#[trigger] crk0[i], ah),
                *self == pre,
                pre == *old(self),
                count == pre.count,
                self.select_ready(),
                crk0 == self.crk_col.crk@,
                idx0 == self.crk_col.crk_idx@,
                p_low0 <= p_low < count,
                forall|i: int| p_low0 <= i < p_low ==> c_low(#[trigger] crk0[i], al),
            decreases count - p_low,
        {
            assert(c_low(crk0[p_low as int], al));
            p_low += 1;
            if p_low == count {
                let r = self.select_rows(0, 0);
                proof {
                    if valid {
                        assert forall|i: int| 0 <= i < count implies !in_range(#[trigger] crk0[i], al, ah) by {
                            if i < p_low0 {
                                assert(c_low(crk0[i], al));
                            } else {
                                assert(c_low(crk0[i], al));
                            }
                        }
                    }
                    assert(crack_outcome(pre, *self, r, al, ah, 0, 0));
                    lemma_scan_up_stops(crk0, count as int, p_low0 as int, p_low as int, adjusted_low);
                    lemma_select3_empty(crk0, pre.crk_col.base_idx@, idx0, count as int, al, ah, p_low0 as int, p_high0 as int);
                }
                return r;
            }
        }
        let mut p_high = p_high0;
        proof {
            lemma_scan_up_stops(crk0, count as int, p_low0 as int, p_low as int, adjusted_low);
        }
        while self.crk_col.crk[p_high] > adjusted_high
            invariant
                p_low0 as int == start_low(idx0, al),
                p_high0 as int == start_high(idx0, ah + 1, count as int),
                !uniform_piece(idx0, al, ah),
                al == adj_low(low, inc_l),
                ah == adj_high(high, inc_h),
                adjusted_low as int == al,
                adjusted_high as int == ah,
                valid == (index_valid(idx0, crk0) && disjoint(adjusted_low, adjusted_high)),
                valid ==> f1 && f2,
                f1 == forall|i: int| 0 <= i < p_low0 ==> c_low(#[trigger] crk0[i], al),
                f2 == forall|i: int| p_high0 < i < count ==> c_high(#[trigger] crk0[i], ah),
                p_low0 <= p_low < count,
                forall|i: int| 0 <= i < p_low ==> valid ==> c_low(#[trigger] crk0[i], al),
                forall|i: int| p_low0 <= i < p_low ==> c_low(#[trigger] crk0[i], al),
                !c_low(crk0[p_low as int], al),
                *self == pre,
                pre == *old(self),
                count == pre.count,
                self.select_ready(),
                crk0 == self.crk_col.crk@,
                idx0 == self.crk_col.crk_idx@,
                p_high <= p_high0 < count,
                forall|i: int| p_high < i <= p_high0 ==> c_high(#[trigger] crk0[i], ah),
            decreases p_high,
        {
            assert(c_high(crk0[p_high as int], ah));
            if p_high == 0 {
                let r = self.select_rows(0, 0);
                proof {
                    if valid {
                        assert forall|i: int| 0 <= i < count implies !in_range(#[trigger] crk0[i], al, ah) by {
                            if i > p_high0 {
                                assert(c_high(crk0[i], ah));
                            } else {
                                assert(c_high(crk0[i], ah));
                            }
                        }
                    }
                    assert(crack_outcome(pre, *self, r, al, ah, 0, 0));
                    lemma_scan_up_stops(crk0, count as int, p_low0 as int, p_low as int, adjusted_low);
                    lemma_scan_down_stops(crk0, p_high0 as int, p_high as int, adjusted_high);
                    lemma_select3_empty(crk0, pre.crk_col.base_idx@, idx0, count as int, al, ah, p_low0 as int, p_high0 as int);
                }
                return r;
            }
            p_high -= 1;
            if p_high == 0 && self.crk_col.crk[p_high] > adjusted_high {
                let r = self.select_rows(0, 0);
                proof {
                    if valid {
                        assert forall|i: int| 0 <= i < count implies !in_range(#[trigger] crk0[i], al, ah) by {
                            if i > p_high0 {
                                assert(c_high(crk0[i], ah));
                            } else {
                                assert(c_high(crk0[i], ah));
                            }
                        }
                    }
                    assert(crack_outcome(pre, *self, r, al, ah, 0, 0));
                    lemma_scan_up_stops(crk0, count as int, p_low0 as int, p_low as int, adjusted_low);
                    lemma_scan_down_stops(crk0, p_high0 as int, p_high as int, adjusted_high);
                    lemma_select3_empty(crk0, pre.crk_col.base_idx@, idx0, count as int, al, ah, p_low0 as int, p_high0 as int);
                }
                return r;
            }
        }
        proof {
            lemma_scan_down_stops(crk0, p_high0 as int, p_high as int, adjusted_high);
            lemma_select3_scanned(crk0, pre.crk_col.base_idx@, idx0, count as int, al, ah, p_low0 as int, p_high0 as int, p_low as int, p_high as int);
        }
        let r = self.crack_between(p_low, p_high, adjusted_low, adjusted_high);
        proof {
            assert(al == adj_low(low, inc_l) && ah == adj_high(high, inc_h));
        }
        r
    }

    /// The end of a selection in three once its scans have stopped at `p_low` (the first value
    /// not below `al`) and `p_high` (the last not above `ah`): a single row when they meet, the
    /// split recorded when they crossed, and otherwise the piece between them cracked in three
    /// and both ends recorded.
    #[verifier::rlimit(60)]
    fn crack_between(&mut self, p_low: usize, p_high: usize, adjusted_low: i64, adjusted_high: i64) -> (r: Table)
        requires
            old(self).select_ready(),
            p_low < old(self).count,
            p_high < old(self).count,
            !c_low(old(self).crk_col.crk@[p_low as int], adjusted_low as int),
            !c_high(old(self).crk_col.crk@[p_high as int], adjusted_high as int),
            adjusted_low < usize::MAX,
            adjusted_high < i64::MAX,
            adjusted_high + 1 < usize::MAX,
            index_valid(old(self).crk_col.crk_idx@, old(self).crk_col.crk@) && disjoint(adjusted_low, adjusted_high) ==> {
                &&& forall|i: int| 0 <= i < p_low ==> c_low(#[trigger] old(self).crk_col.crk@[i], adjusted_low as int)
                &&& forall|i: int| p_high < i < old(self).count ==> c_high(#[trigger] old(self).crk_col.crk@[i], adjusted_high as int)
            },
        ensures
            final(self).select_ready(),
            final(self).count == old(self).count,
            final(self).crk_col.v == old(self).crk_col.v,
            final(self).i64_columns == old(self).i64_columns,
            final(self).f64_columns == old(self).f64_columns,
            final(self).crk_col_name == old(self).crk_col_name,
            exists|a: int, b: int| crack_outcome(*old(self), *final(self), r, adjusted_low as int, adjusted_high as int, a, b),
            index_valid(old(self).crk_col.crk_idx@, old(self).crk_col.crk@) && disjoint(adjusted_low, adjusted_high)
                ==> index_valid(final(self).crk_col.crk_idx@, final(self).crk_col.crk@),
            ({
                let (c, b2, ix, a, b) = crack_tail(old(self).crk_col.crk@, old(self).crk_col.base_idx@, old(self).crk_col.crk_idx@,
                    old(self).count as int, adjusted_low as int, adjusted_high as int, p_low as int, p_high as int);
                &&& final(self).crk_col.crk@ == c
                &&& final(self).crk_col.base_idx@ == b2
                &&& final(self).crk_col.crk_idx@ == ix
                &&& is_selection(r, *final(self), b2.subrange(a, b))
            }),
    {
        let count = self.count;
        let hk: i64 = adjusted_high + 1;
        let ghost pre = *self;
        let ghost idx0 = self.crk_col.crk_idx@;
        let ghost crk0 = self.crk_col.crk@;
        let ghost al = adjusted_low as int;
        let ghost ah = adjusted_high as int;
        let ghost valid = index_valid(idx0, crk0) && disjoint(adjusted_low, adjusted_high);
        if p_low == p_high {
            let r = self.select_rows(p_low, p_high + 1);
            proof {
                assert(crack_outcome(pre, *self, r, al, ah, p_low as int, p_high + 1));
            }
            return r;
        }
        if p_low > p_high {
            self.crk_col.crk_idx.insert(adjusted_low, p_low);
            self.crk_col.crk_idx.insert(hk, p_low);
            proof {
                assert(self.crk_col.crk_idx@ == index_after_crack(idx0, al, ah + 1, p_low as int, p_low as int, count as int));
                if valid {
                    assert forall|i: int| p_low <= i < count implies c_high(#[trigger] crk0[i], ah) by {
                    }
                }
                if valid {
                    assert forall|i: int| 0 <= i < p_low implies c_low(#[trigger] crk0[i], al) by {
                    }
                    lemma_index_after_split(idx0, crk0, adjusted_low, adjusted_high, p_low as int, p_low as int);
                }
            }
            let r = self.select_rows(p_low, p_low);
            proof {
                assert(crack_outcome(pre, *self, r, al, ah, p_low as int, p_low as int));
            }
            return r;
        }
        let ghost v = self.crk_col.v@;
        match crack_in_three_loop(&mut self.crk_col.crk, &mut self.crk_col.base_idx, p_low, p_high, adjusted_low, adjusted_high, Ghost(v)) {
            Some((a, b, h)) => {
                let high_ptr = if b >= count { count - 1 } else { b };
                self.crk_col.crk_idx.insert(adjusted_low, a);
                self.crk_col.crk_idx.insert(hk, high_ptr);
                let ghost crk1 = self.crk_col.crk@;
                proof {
                    assert(self.crk_col.crk_idx@ == index_after_crack(idx0, al, ah + 1, a as int, b as int, count as int));
                    if valid {
                        assert forall|i: int| 0 <= i < a implies c_low(#[trigger] crk1[i], al) by {
                            if i < p_low {
                                assert(crk1[i] == crk0[i]);
                            }
                        }
                        assert forall|i: int| b <= i < count implies c_high(#[trigger] crk1[i], ah) by {
                            if i > p_high {
                                assert(crk1[i] == crk0[i]);
                            }
                        }
                        lemma_index_after_crack(idx0, crk0, crk1, p_low as int, p_high as int, adjusted_low, adjusted_high, a as int, b as int);
                    }
                }
                let r = self.select_rows(a, b);
                proof {
                    assert(crack_outcome(pre, *self, r, al, ah, a as int, b as int));
                }
                r
            },
            None => {
                let r = self.select_rows(0, 0);
                proof {
                    assert(crack_outcome(pre, *self, r, al, ah, 0, 0));
                }
                r
            },
        }
    }

    /// Selects the rows whose cracker value is `x`.
    pub fn cracker_select_specific(&mut self, x: i64) -> (r: Table)
        requires
            old(self).select_ready(),
            x < i64::MAX,
            x + 1 < usize::MAX,
        ensures
            final(self).select_ready(),
            final(self).count == old(self).count,
            final(self).crk_col.v == old(self).crk_col.v,
            final(self).i64_columns == old(self).i64_columns,
            final(self).f64_columns == old(self).f64_columns,
            final(self).crk_col_name == old(self).crk_col_name,
            uniform_piece(old(self).crk_col.crk_idx@, x as int, x as int) ==> *final(self) == *old(self),
            exists|a: int, b: int| crack_outcome(*old(self), *final(self), r, x as int, x as int, a, b),
            index_valid(old(self).crk_col.crk_idx@, old(self).crk_col.crk@)
                ==> index_valid(final(self).crk_col.crk_idx@, final(self).crk_col.crk@),
            ({
                let (c, b2, ix, a, b) = select3(old(self).crk_col.crk@, old(self).crk_col.base_idx@, old(self).crk_col.crk_idx@,
                    old(self).count as int, x as int, x as int);
                &&& final(self).crk_col.crk@ == c
                &&& final(self).crk_col.base_idx@ == b2
                &&& final(self).crk_col.crk_idx@ == ix
                &&& is_selection(r, *final(self), b2.subrange(a, b))
            }),
    {
        self.cracker_select_in_three(x, x, true, true)
    }

    /// Selects the rows whose cracker value is below `med`, or up to it when `inc` holds,
    /// partitioning the cracked column in two on the way and recording the split in the index.
    #[verifier::rlimit(80)]
    pub fn cracker_select_in_two(&mut self, med: i64, inc: bool) -> (r: Table)
        requires
            old(self).select_ready(),
            inc ==> med < i64::MAX,
            high_key(med, inc) < usize::MAX,
        ensures
            final(self).select_ready(),
            final(self).count == old(self).count,
            final(self).crk_col.v == old(self).crk_col.v,
            final(self).i64_columns == old(self).i64_columns,
            final(self).f64_columns == old(self).f64_columns,
            final(self).crk_col_name == old(self).crk_col_name,
            exists|p: int| split_outcome(*old(self), *final(self), r, high_key(med, inc), p),
            index_valid(old(self).crk_col.crk_idx@, old(self).crk_col.crk@)
                ==> index_valid(final(self).crk_col.crk_idx@, final(self).crk_col.crk@),
    {
        let adjusted_med: i64 = if inc { med + 1 } else { med };
        let count = self.count;
        let ghost pre = *self;
        let ghost idx0 = self.crk_col.crk_idx@;
        let ghost crk0 = self.crk_col.crk@;
        let ghost am = adjusted_med as int;
        let ghost valid = index_valid(idx0, crk0);
        let p_high0: usize = match self.crk_col.crk_idx.upper_bound(&adjusted_med) {
            Some(p) => p,
            None => count - 1,
        };
        proof {
            if array_upper_bound(idx0, am) is Some {
                lemma_upper_bound_entry(idx0, am);
                let k = choose|k: int| 0 <= k && am <= k < idx0.len() && idx0[k] == array_upper_bound(idx0, am);
                assert(idx0[k] is Some);
                if valid {
                    assert(entry_valid(crk0, k, p_high0 as int));
                }
            }
        }
        assert(p_high0 < count);
        let ghost f2 = forall|i: int| p_high0 < i < count ==> #[trigger] crk0[i] >= am;
        assert(valid ==> f2);
        let mut p_low: usize = 0;
        while self.crk_col.crk[p_low] < adjusted_med
            invariant
                am == high_key(med, inc),
                adjusted_med as int == am,
                valid == index_valid(idx0, crk0),
                valid ==> f2,
                f2 == forall|i: int| p_high0 < i < count ==> #[trigger] crk0[i] >= am,
                *self == pre,
                count == pre.count,
                self.select_ready(),
                crk0 == self.crk_col.crk@,
                idx0 == self.crk_col.crk_idx@,
                p_low < count,
                forall|i: int| 0 <= i < p_low ==> #[trigger] crk0[i] < am,
            decreases count - p_low,
        {
            p_low += 1;
            if p_low == count {
                let r = self.select_rows(0, count);
                proof {
                    assert(split_outcome(pre, *self, r, am, count as int));
                }
                return r;
            }
        }
        let mut p_high = p_high0;
        while self.crk_col.crk[p_high] >= adjusted_med
            invariant
                am == high_key(med, inc),
                adjusted_med as int == am,
                valid == index_valid(idx0, crk0),
                valid ==> f2,
                f2 == forall|i: int| p_high0 < i < count ==> #[trigger] crk0[i] >= am,
                p_low < count,
                forall|i: int| 0 <= i < p_low ==> #[trigger] crk0[i] < am,
                crk0[p_low as int] >= am,
                *self == pre,
                count == pre.count,
                self.select_ready(),
                crk0 == self.crk_col.crk@,
                idx0 == self.crk_col.crk_idx@,
                p_high <= p_high0 < count,
                forall|i: int| p_high <= i <= p_high0 ==> #[trigger] crk0[i] >= am || i == p_high,
                forall|i: int| p_high < i <= p_high0 ==> #[trigger] crk0[i] >= am,
            decreases p_high,
        {
            if p_high == 0 {
                let r = self.select_rows(0, 0);
                proof {
                    assert(split_outcome(pre, *self, r, am, 0));
                }
                return r;
            }
            p_high -= 1;
            if p_high == 0 && self.crk_col.crk[p_high] >= adjusted_med {
                let r = self.select_rows(0, 0);
                proof {
                    assert(split_outcome(pre, *self, r, am, 0));
                }
                return r;
            }
        }
        if p_low > p_high {
            self.crk_col.crk_idx.insert(adjusted_med, p_low);
            proof {
                if valid {
                    assert(index_after_crack(idx0, am, am, p_low as int, p_low as int, count as int) =~= array_insert(idx0, am, p_low));
                    lemma_index_after_split(idx0, crk0, adjusted_med, (adjusted_med - 1) as i64, p_low as int, p_low as int);
                }
            }
            let r = self.select_rows(0, p_low);
            proof {
                assert(split_outcome(pre, *self, r, am, p_low as int));
            }
            return r;
        }
        let ghost v = self.crk_col.v@;
        let p = crack_in_two_loop(&mut self.crk_col.crk, &mut self.crk_col.base_idx, p_low, p_high, adjusted_med, Ghost(v));
        self.crk_col.crk_idx.insert(adjusted_med, p);
        let ghost crk1 = self.crk_col.crk@;
        proof {
            assert forall|i: int| 0 <= i < p implies #[trigger] crk1[i] < am by {
                if i < p_low {
                    assert(crk1[i] == crk0[i]);
                }
            }
            assert forall|i: int| p_high < i <= p_high0 implies #[trigger] crk1[i] >= am by {
                assert(crk1[i] == crk0[i]);
            }
            if valid {
                assert forall|i: int| p <= i < count implies #[trigger] crk1[i] >= am by {
                    if i > p_high0 {
                        assert(crk1[i] == crk0[i]);
                    }
                }
                assert(index_after_crack(idx0, am, am, p as int, p as int, count as int) =~= array_insert(idx0, am, p));
                lemma_index_after_crack(idx0, crk0, crk1, p_low as int, p_high as int, adjusted_med, (adjusted_med - 1) as i64, p as int, p as int);
            }
        }
        let r = self.select_rows(0, p);
        proof {
            assert(split_outcome(pre, *self, r, am, p as int));
        }
        r
    }

    /// The rows listed in `indices`, in that order, as a new table without a cracker index.
    pub fn get_indices(&self, indices: &[usize]) -> (t: Table)
        requires
            rows_exist(*self, indices@),
        ensures
            is_selection(t, *self, indices@),
    {
        let mut selection_i64: Vec<(String, CrackableCol)> = Vec::new();
        let mut i: usize = 0;
        while i < self.i64_columns.len()
            invariant
                i <= self.i64_columns@.len(),
                rows_exist(*self, indices@),
                selection_i64@.len() == i,
                forall|k: int| 0 <= k < i ==> {
                    &&& (#[trigger] selection_i64@[k]).0@ == self.i64_columns@[k].0@
                    &&& selection_i64@[k].1.v@ == gather(self.i64_columns@[k].1.v@, indices@)
                    &&& selection_i64@[k].1.crk@ == Seq::<i64>::empty()
                    &&& selection_i64@[k].1.crk_idx@ == Seq::<Option<usize>>::empty()
                    &&& selection_i64@[k].1.base_idx@ == Seq::<usize>::empty()
                },
            decreases self.i64_columns@.len() - i,
        {
            let name = self.i64_columns[i].0.clone();
            let mut c_buffer = CrackableCol::empty();
            proof {
                assert(all_below(indices@, self.i64_columns@[i as int].1.v@.len() as int));
            }
            c_buffer.v = gather_vec(&self.i64_columns[i].1.v, indices);
            selection_i64.push((name, c_buffer));
            i += 1;
        }
        let mut selection_f64: Vec<(String, FloatCol)> = Vec::new();
        let mut i: usize = 0;
        while i < self.f64_columns.len()
            invariant
                i <= self.f64_columns@.len(),
                rows_exist(*self, indices@),
                selection_f64@.len() == i,
                forall|k: int| 0 <= k < i ==> {
                    &&& (#[trigger] selection_f64@[k]).0@ == self.f64_columns@[k].0@
                    &&& selection_f64@[k].1.v@ == gather(self.f64_columns@[k].1.v@, indices@)
                    &&& selection_f64@[k].1.base_idx@ == Seq::<usize>::empty()
                },
            decreases self.f64_columns@.len() - i,
        {
            let name = self.f64_columns[i].0.clone();
            proof {
                assert(all_below(indices@, self.f64_columns@[i as int].1.v@.len() as int));
            }
            let c_buffer = FloatCol { v: gather_vec(&self.f64_columns[i].1.v, indices), base_idx: Vec::new() };
            selection_f64.push((name, c_buffer));
            i += 1;
        }
        let mut t = Table::new();
        t.i64_columns = selection_i64;
        t.f64_columns = selection_f64;
        t.count = indices.len();
        let indexed_crk_v = gather_vec(&self.crk_col.v, indices);
        if self.crk_col.crk.len() > 0 {
            let indexed_crk_col = gather_vec(&self.crk_col.crk, indices);
            t.crk_col.crk = indexed_crk_col;
            t.crk_col.crk_idx = CrackerIndex::new();
        }
        t.crk_col.v = indexed_crk_v;
        t
    }

    /// Counts the rows where column `col` equals `eq`.
    pub fn count_col_eq(&self, col: &str, eq: i64) -> (r: i64)
        requires
            has_name(self.i64_columns@, col@),
            forall|i: int| 0 <= i < self.i64_columns@.len() ==> (#[trigger] self.i64_columns@[i]).1.v@.len() <= i64::MAX,
        ensures
            exists|i: int| first_named(self.i64_columns@, col@, i) && r == count_eq(self.i64_columns@[i].1.v@, eq),
    {
        let c = self.get_i64_col(col);
        count_in(&c.v, eq)
    }
}

/// The names given the type `t` in a list of new columns, in order.
pub open spec fn typed_names(cols: Seq<(&str, char)>, t: char) -> Seq<Seq<char>> {
    cols.filter(|p: (&str, char)| p.1 == t).map_values(|p: (&str, char)| p.0@)
}

pub proof fn lemma_typed_names_step(cols: Seq<(&str, char)>, j: int)
    requires
        0 <= j < cols.len(),
    ensures
        typed_names(cols.subrange(0, j + 1), 'j') == if cols[j].1 == 'j' {
            typed_names(cols.subrange(0, j), 'j').push(cols[j].0@)
        } else {
            typed_names(cols.subrange(0, j), 'j')
        },
        typed_names(cols.subrange(0, j + 1), 'f') == if cols[j].1 == 'f' {
            typed_names(cols.subrange(0, j), 'f').push(cols[j].0@)
        } else {
            typed_names(cols.subrange(0, j), 'f')
        },
{
    reveal(Seq::filter);
    let s1 = cols.subrange(0, j + 1);
    assert(s1.drop_last() =~= cols.subrange(0, j));
    assert(s1.last() == cols[j]);
    assert(typed_names(s1, 'j') =~= (if cols[j].1 == 'j' {
        typed_names(cols.subrange(0, j), 'j').push(cols[j].0@)
    } else {
        typed_names(cols.subrange(0, j), 'j')
    }));
    assert(typed_names(s1, 'f') =~= (if cols[j].1 == 'f' {
        typed_names(cols.subrange(0, j), 'f').push(cols[j].0@)
    } else {
        typed_names(cols.subrange(0, j), 'f')
    }));
}

/// No two columns share a name.
pub open spec fn names_distinct<C>(cols: Seq<(String, C)>) -> bool {
    forall|i: int, j: int| 0 <= i < cols.len() && 0 <= j < cols.len() && i != j ==> (#[trigger] cols[i]).0@ != (#[trigger] cols[j]).0@
}

/// No two entries of a batch of new values share a name.
pub open spec fn batch_distinct<T>(ins: Seq<(&str, Vec<T>)>) -> bool {
    forall|i: int, j: int| 0 <= i < ins.len() && 0 <= j < ins.len() && i != j ==> (#[trigger] ins[i]).0@ != (#[trigger] ins[j]).0@
}

/// Every column of `cols` gets values in the batch.
pub open spec fn batch_covers<T, C>(ins: Seq<(&str, Vec<T>)>, cols: Seq<(String, C)>) -> bool {
    forall|i: int| 0 <= i < cols.len() ==> exists|j: int| 0 <= j < ins.len() && (#[trigger] ins[j]).0@ == (#[trigger] cols[i]).0@
}

/// The values that the batch holds for the column named `n`.
pub open spec fn data_for<T>(ins: Seq<(&str, Vec<T>)>, n: Seq<char>) -> Seq<T>
    decreases ins.len(),
{
    if ins.len() == 0 {
        Seq::empty()
    } else {
        data_for(ins.drop_last(), n) + if ins.last().0@ == n { ins.last().1@ } else { Seq::empty() }
    }
}

/// The entries of the batch that name no column of `cols`, in order.
pub open spec fn new_entries<T, C>(ins: Seq<(&str, Vec<T>)>, cols: Seq<(String, C)>) -> Seq<(&str, Vec<T>)> {
    ins.filter(|e: (&str, Vec<T>)| !has_name(cols, e.0@))
}

/// The entries of the batch that name an existing column all have one length, and so have
/// those that name new columns.
pub open spec fn batch_lengths_agree<T, C>(ins: Seq<(&str, Vec<T>)>, cols: Seq<(String, C)>) -> bool {
    forall|j: int, k: int| 0 <= j < ins.len() && 0 <= k < ins.len() && has_name(cols, (#[trigger] ins[j]).0@)
        == has_name(cols, (#[trigger] ins[k]).0@) ==> ins[j].1@.len() == ins[k].1@.len()
}

/// The batch of integer values can be inserted into `t`: it is what `insert` accepts.
pub open spec fn int_batch_ok(t: Table, ins: Seq<(&str, Vec<i64>)>) -> bool {
    let cols = t.i64_columns@;
    &&& ins.len() > 0
    &&& names_distinct(cols)
    &&& batch_distinct(ins)
    &&& batch_covers(ins, cols)
    &&& batch_lengths_agree(ins, cols)
    &&& forall|j: int, k: int| 0 <= j < ins.len() && 0 <= k < ins.len() && !has_name(cols, (#[trigger] ins[j]).0@)
        && has_name(cols, (#[trigger] ins[k]).0@) ==> ins[j].1@.len() == t.count + ins[k].1@.len()
    &&& (forall|k: int| 0 <= k < ins.len() ==> !has_name(cols, (#[trigger] ins[k]).0@)) ==> forall|j: int| 0 <= j < ins.len() ==> (#[trigger] ins[j]).1@.len() == t.count
    &&& forall|k: int| 0 <= k < ins.len() && has_name(cols, (#[trigger] ins[k]).0@) ==> t.count + ins[k].1@.len() <= usize::MAX
}

/// The batch of float values can go in with the batch of integer values `ints`: each float
/// entry has the length of the integer entries on its side (existing or new columns).
pub open spec fn float_batch_ok(t: Table, ints: Seq<(&str, Vec<i64>)>, floats: Seq<(&str, Vec<u64>)>) -> bool {
    let icols = t.i64_columns@;
    let fcols = t.f64_columns@;
    &&& names_distinct(fcols)
    &&& batch_distinct(floats)
    &&& batch_covers(floats, fcols)
    &&& forall|j: int| 0 <= j < floats.len() ==> exists|k: int| 0 <= k < ints.len()
        && has_name(fcols, (#[trigger] floats[j]).0@) == has_name(icols, (#[trigger] ints[k]).0@)
    &&& forall|j: int, k: int| 0 <= j < floats.len() && 0 <= k < ints.len()
        && has_name(fcols, (#[trigger] floats[j]).0@) == has_name(icols, (#[trigger] ints[k]).0@)
        ==> floats[j].1@.len() == ints[k].1@.len()
}

/// The row count after inserting the batch: the length of the new columns if there are any,
/// else the old count plus the length of the appended values.
pub open spec fn count_after(t: Table, ins: Seq<(&str, Vec<i64>)>) -> nat {
    let cols = t.i64_columns@;
    if exists|j: int| 0 <= j < ins.len() && !has_name(cols, (#[trigger] ins[j]).0@) {
        ins[choose|j: int| 0 <= j < ins.len() && !has_name(cols, (#[trigger] ins[j]).0@)].1@.len()
    } else {
        (t.count + ins[0].1@.len()) as nat
    }
}

/// `now` is `before` with each column extended by its values in the batch and the batch's new
/// columns added at the end.
pub open spec fn appended_int_cols(now: Seq<(String, CrackableCol)>, before: Seq<(String, CrackableCol)>, ins: Seq<(&str, Vec<i64>)>) -> bool {
    let fresh = new_entries(ins, before);
    &&& now.len() == before.len() + fresh.len()
    &&& forall|i: int| 0 <= i < before.len() ==> {
        &&& (#[trigger] now[i]).0 == before[i].0
        &&& now[i].1.v@ == before[i].1.v@ + data_for(ins, before[i].0@)
        &&& now[i].1.crk == before[i].1.crk
        &&& now[i].1.crk_idx == before[i].1.crk_idx
        &&& now[i].1.base_idx == before[i].1.base_idx
    }
    &&& forall|k: int| 0 <= k < fresh.len() ==> {
        &&& (#[trigger] now[before.len() + k]).0@ == fresh[k].0@
        &&& now[before.len() + k].1.v@ == fresh[k].1@
        &&& now[before.len() + k].1.crk@ == Seq::<i64>::empty()
        &&& now[before.len() + k].1.crk_idx@ == Seq::<Option<usize>>::empty()
        &&& now[before.len() + k].1.base_idx@ == Seq::<usize>::empty()
    }
}

/// `now` is `before` with each float column extended by its values in the batch and the
/// batch's new columns added at the end.
pub open spec fn appended_float_cols(now: Seq<(String, FloatCol)>, before: Seq<(String, FloatCol)>, ins: Seq<(&str, Vec<u64>)>) -> bool {
    let fresh = new_entries(ins, before);
    &&& now.len() == before.len() + fresh.len()
    &&& forall|i: int| 0 <= i < before.len() ==> {
        &&& (#[trigger] now[i]).0 == before[i].0
        &&& now[i].1.v@ == before[i].1.v@ + data_for(ins, before[i].0@)
        &&& now[i].1.base_idx == before[i].1.base_idx
    }
    &&& forall|k: int| 0 <= k < fresh.len() ==> {
        &&& (#[trigger] now[before.len() + k]).0@ == fresh[k].0@
        &&& now[before.len() + k].1.v@ == fresh[k].1@
        &&& now[before.len() + k].1.base_idx@ == Seq::<usize>::empty()
    }
}

pub proof fn lemma_data_for_step<T>(ins: Seq<(&str, Vec<T>)>, j: int, n: Seq<char>)
    requires
        0 <= j < ins.len(),
    ensures
        data_for(ins.subrange(0, j + 1), n) == data_for(ins.subrange(0, j), n)
            + if ins[j].0@ == n { ins[j].1@ } else { Seq::<T>::empty() },
{
    assert(ins.subrange(0, j + 1).drop_last() =~= ins.subrange(0, j));
}

pub proof fn lemma_new_entries_step<T, C>(ins: Seq<(&str, Vec<T>)>, cols: Seq<(String, C)>, j: int)
    requires
        0 <= j < ins.len(),
    ensures
        new_entries(ins.subrange(0, j + 1), cols) == if has_name(cols, ins[j].0@) {
            new_entries(ins.subrange(0, j), cols)
        } else {
            new_entries(ins.subrange(0, j), cols).push(ins[j])
        },
{
    reveal(Seq::filter);
    assert(ins.subrange(0, j + 1).drop_last() =~= ins.subrange(0, j));
    assert(ins.subrange(0, j + 1).last() == ins[j]);
}

pub proof fn lemma_data_for_none<T>(ins: Seq<(&str, Vec<T>)>, n: Seq<char>)
    requires
        forall|k: int| 0 <= k < ins.len() ==> (#[trigger] ins[k]).0@ != n,
    ensures
        data_for(ins, n) == Seq::<T>::empty(),
    decreases ins.len(),
{
    if ins.len() > 0 {
        assert forall|k: int| 0 <= k < ins.drop_last().len() implies (#[trigger] ins.drop_last()[k]).0@ != n by {
            assert(ins.drop_last()[k] == ins[k]);
        }
        lemma_data_for_none(ins.drop_last(), n);
        assert(data_for(ins, n) =~= Seq::<T>::empty());
    }
}

/// Every entry of the fresh part of a batch names no column of `cols` and comes from the batch.
pub proof fn lemma_new_entries_from<T, C>(ins: Seq<(&str, Vec<T>)>, cols: Seq<(String, C)>)
    ensures
        forall|k: int| 0 <= k < new_entries(ins, cols).len() ==> !has_name(cols, (#[trigger] new_entries(ins, cols)[k]).0@)
            && ins.contains(new_entries(ins, cols)[k]),
{
    let pred = |e: (&str, Vec<T>)| !has_name(cols, e.0@);
    assert forall|k: int| 0 <= k < new_entries(ins, cols).len() implies !has_name(cols, (#[trigger] new_entries(ins, cols)[k]).0@)
        && ins.contains(new_entries(ins, cols)[k]) by {
        ins.lemma_filter_pred(pred, k);
        assert(ins.filter(pred).contains(ins.filter(pred)[k]));
        ins.lemma_filter_contains_rev(pred, ins.filter(pred)[k]);
    }
}

/// Moves each entry's values onto the column it names, creating the columns the batch names
/// anew at the end.
fn append_int_batch(cols: &mut Vec<(String, CrackableCol)>, ins: &mut Vec<(&str, Vec<i64>)>)
    requires
        names_distinct(old(cols)@),
        batch_distinct(old(ins)@),
    ensures
        appended_int_cols(final(cols)@, old(cols)@, old(ins)@),
{
    let ghost before = cols@;
    let ghost ins0 = ins@;
    let mut j: usize = 0;
    proof {
        assert(new_entries(ins0.subrange(0, 0), before) =~= Seq::empty()) by {
            reveal(Seq::filter);
        }
        assert forall|i: int| 0 <= i < before.len() implies data_for(ins0.subrange(0, 0), (#[trigger] before[i]).0@) == Seq::<i64>::empty() by {
        }
        assert forall|i: int| 0 <= i < before.len() implies (#[trigger] cols@[i]).1.v@ == before[i].1.v@ + data_for(ins0.subrange(0, 0), before[i].0@) by {
            assert(before[i].1.v@ + Seq::<i64>::empty() =~= before[i].1.v@);
        }
    }
    while j < ins.len()
        invariant
            j <= ins@.len(),
            ins@.len() == ins0.len(),
            forall|k: int| j <= k < ins0.len() ==> #[trigger] ins@[k] == ins0[k],
            names_distinct(before),
            batch_distinct(ins0),
            appended_int_cols(cols@, before, ins0.subrange(0, j as int)),
        decreases ins0.len() - j,
    {
        let ghost prev = cols@;
        let ghost fresh = new_entries(ins0.subrange(0, j as int), before);
        proof {
            lemma_new_entries_step(ins0, before, j as int);
            lemma_new_entries_from(ins0.subrange(0, j as int), before);
            assert forall|i: int| 0 <= i < before.len() implies data_for(ins0.subrange(0, j + 1), (#[trigger] before[i]).0@) == data_for(ins0.subrange(0, j as int), before[i].0@)
                + if ins0[j as int].0@ == before[i].0@ { ins0[j as int].1@ } else { Seq::<i64>::empty() } by {
                lemma_data_for_step(ins0, j as int, before[i].0@);
            }
        }
        match find_col(cols, ins[j].0) {
            Some(i) => {
                proof {
                    if i >= before.len() {
                        let k = i - before.len();
                        assert(prev[before.len() + k].0@ == fresh[k].0@);
                        assert(before.len() + k == i);
                        let e = fresh[k];
                        assert(ins0.subrange(0, j as int).contains(e));
                        let m = choose|m: int| 0 <= m < j && ins0.subrange(0, j as int)[m] == e;
                        assert(ins0[m] == e);
                        assert(false);
                    }
                    assert(has_name(before, ins0[j as int].0@)) by {
                        assert(before[i as int].0@ == ins0[j as int].0@);
                    }
                }
                cols[i].1.v.append(&mut ins[j].1);
                proof {
                    assert forall|i2: int| 0 <= i2 < before.len() && i2 != i implies (#[trigger] before[i2]).0@ != ins0[j as int].0@ by {
                    }
                    assert forall|i2: int| 0 <= i2 < before.len() implies (#[trigger] cols@[i2]).1.v@ == before[i2].1.v@ + data_for(ins0.subrange(0, j + 1), before[i2].0@) by {
                        if i2 == i {
                        } else {
                            assert(prev[i2].1.v@ + Seq::<i64>::empty() =~= prev[i2].1.v@);
                        }
                    }
                }
            },
            None => {
                let mut c = CrackableCol::empty();
                c.append(&mut ins[j].1);
                let nm = String::from_str(ins[j].0);
                cols.push((nm, c));
                proof {
                    assert(!has_name(before, ins0[j as int].0@)) by {
                        if has_name(before, ins0[j as int].0@) {
                            let i2 = choose|i2: int| 0 <= i2 < before.len() && (#[trigger] before[i2]).0@ == ins0[j as int].0@;
                            assert(prev[i2].0@ == ins0[j as int].0@);
                        }
                    }
                    assert forall|i2: int| 0 <= i2 < before.len() implies (#[trigger] cols@[i2]).1.v@ == before[i2].1.v@ + data_for(ins0.subrange(0, j + 1), before[i2].0@) by {
                        assert(before[i2].0@ != ins0[j as int].0@);
                        assert(prev[i2].1.v@ + Seq::<i64>::empty() =~= prev[i2].1.v@);
                    }
                }
            },
        }
        j += 1;
    }
    proof {
        assert(ins0.subrange(0, ins0.len() as int) =~= ins0);
    }
}

/// Moves each entry's float values onto the column it names, creating the columns the batch names
/// anew at the end.
fn append_float_batch(cols: &mut Vec<(String, FloatCol)>, ins: &mut Vec<(&str, Vec<u64>)>)
    requires
        names_distinct(old(cols)@),
        batch_distinct(old(ins)@),
    ensures
        appended_float_cols(final(cols)@, old(cols)@, old(ins)@),
{
    let ghost before = cols@;
    let ghost ins0 = ins@;
    let mut j: usize = 0;
    proof {
        assert(new_entries(ins0.subrange(0, 0), before) =~= Seq::empty()) by {
            reveal(Seq::filter);
        }
        assert forall|i: int| 0 <= i < before.len() implies data_for(ins0.subrange(0, 0), (#[trigger] before[i]).0@) == Seq::<u64>::empty() by {
        }
        assert forall|i: int| 0 <= i < before.len() implies (#[trigger] cols@[i]).1.v@ == before[i].1.v@ + data_for(ins0.subrange(0, 0), before[i].0@) by {
            assert(before[i].1.v@ + Seq::<u64>::empty() =~= before[i].1.v@);
        }
    }
    while j < ins.len()
        invariant
            j <= ins@.len(),
            ins@.len() == ins0.len(),
            forall|k: int| j <= k < ins0.len() ==> #[trigger] ins@[k] == ins0[k],
            names_distinct(before),
            batch_distinct(ins0),
            appended_float_cols(cols@, before, ins0.subrange(0, j as int)),
        decreases ins0.len() - j,
    {
        let ghost prev = cols@;
        let ghost fresh = new_entries(ins0.subrange(0, j as int), before);
        proof {
            lemma_new_entries_step(ins0, before, j as int);
            lemma_new_entries_from(ins0.subrange(0, j as int), before);
            assert forall|i: int| 0 <= i < before.len() implies data_for(ins0.subrange(0, j + 1), (#[trigger] before[i]).0@) == data_for(ins0.subrange(0, j as int), before[i].0@)
                + if ins0[j as int].0@ == before[i].0@ { ins0[j as int].1@ } else { Seq::<u64>::empty() } by {
                lemma_data_for_step(ins0, j as int, before[i].0@);
            }
        }
        match find_col(cols, ins[j].0) {
            Some(i) => {
                proof {
                    if i >= before.len() {
                        let k = i - before.len();
                        assert(prev[before.len() + k].0@ == fresh[k].0@);
                        assert(before.len() + k == i);
                        let e = fresh[k];
                        assert(ins0.subrange(0, j as int).contains(e));
                        let m = choose|m: int| 0 <= m < j && ins0.subrange(0, j as int)[m] == e;
                        assert(ins0[m] == e);
                        assert(false);
                    }
                    assert(has_name(before, ins0[j as int].0@)) by {
                        assert(before[i as int].0@ == ins0[j as int].0@);
                    }
                }
                cols[i].1.v.append(&mut ins[j].1);
                proof {
                    assert forall|i2: int| 0 <= i2 < before.len() && i2 != i implies (#[trigger] before[i2]).0@ != ins0[j as int].0@ by {
                    }
                    assert forall|i2: int| 0 <= i2 < before.len() implies (#[trigger] cols@[i2]).1.v@ == before[i2].1.v@ + data_for(ins0.subrange(0, j + 1), before[i2].0@) by {
                        if i2 == i {
                        } else {
                            assert(prev[i2].1.v@ + Seq::<u64>::empty() =~= prev[i2].1.v@);
                        }
                    }
                }
            },
            None => {
                let mut c = FloatCol::empty();
                c.append(&mut ins[j].1);
                let nm = String::from_str(ins[j].0);
                cols.push((nm, c));
                proof {
                    assert(!has_name(before, ins0[j as int].0@)) by {
                        if has_name(before, ins0[j as int].0@) {
                            let i2 = choose|i2: int| 0 <= i2 < before.len() && (#[trigger] before[i2]).0@ == ins0[j as int].0@;
                            assert(prev[i2].0@ == ins0[j as int].0@);
                        }
                    }
                    assert forall|i2: int| 0 <= i2 < before.len() implies (#[trigger] cols@[i2]).1.v@ == before[i2].1.v@ + data_for(ins0.subrange(0, j + 1), before[i2].0@) by {
                        assert(before[i2].0@ != ins0[j as int].0@);
                        assert(prev[i2].1.v@ + Seq::<u64>::empty() =~= prev[i2].1.v@);
                    }
                }
            },
        }
        j += 1;
    }
    proof {
        assert(ins0.subrange(0, ins0.len() as int) =~= ins0);
    }
}

/// Every position recorded in the cracker index lies in a column of `n` rows.
pub open spec fn index_in_bounds(idx: Seq<Option<usize>>, n: nat) -> bool {
    forall|k: int| 0 <= k < idx.len() && (#[trigger] idx[k]) is Some ==> idx[k].unwrap() < n
}

/// Position `p` splits the cracked column at value `k`: the values before it are below `k`
/// and the values after it are not.
pub open spec fn entry_valid(crk: Seq<i64>, k: int, p: int) -> bool {
    &&& forall|i: int| 0 <= i < p && i < crk.len() ==> #[trigger] crk[i] < k
    &&& forall|i: int| p < i < crk.len() ==> #[trigger] crk[i] >= k
}

/// Every entry of the cracker index splits the cracked column at its key.
pub open spec fn index_valid(idx: Seq<Option<usize>>, crk: Seq<i64>) -> bool {
    forall|k: int| 0 <= k < idx.len() && (#[trigger] idx[k]) is Some ==> entry_valid(crk, k, idx[k].unwrap() as int)
}

/// The lower end of a selection once its inclusivity is applied.
pub open spec fn adj_low(low: i64, inc_l: bool) -> int {
    low + if inc_l { 0int } else { 1int }
}

/// The upper end of a selection once its inclusivity is applied.
pub open spec fn adj_high(high: i64, inc_h: bool) -> int {
    high - if inc_h { 0int } else { 1int }
}

/// The smallest value above a selection.
pub open spec fn high_key(high: i64, inc_h: bool) -> int {
    high + if inc_h { 1int } else { 0int }
}

/// The selection asks for a single value whose piece is already delimited by the index.
pub open spec fn uniform_piece(idx: Seq<Option<usize>>, al: int, ah: int) -> bool {
    &&& al == ah
    &&& array_get(idx, al) is Some
    &&& al < i64::MAX
    &&& array_get(idx, al + 1) is Some
}

/// The cracker index after a crack that split the column at `a` and ended the selection at `b`.
pub open spec fn index_after_crack(idx: Seq<Option<usize>>, al: int, hk: int, a: int, b: int, n: int) -> Seq<Option<usize>> {
    array_insert(array_insert(idx, al, a as usize), hk, (if b >= n { n - 1 } else { b }) as usize)
}

proof fn lemma_lower_bound_entry(s: Seq<Option<usize>>, key: int)
    requires
        array_lower_bound(s, key) is Some,
    ensures
        exists|k: int| 0 <= k <= key && k < s.len() && s[k] == array_lower_bound(s, key),
    decreases key + 1,
{
    if key >= s.len() {
        lemma_lower_bound_entry(s, s.len() - 1);
        let k = choose|k: int| 0 <= k <= s.len() - 1 && k < s.len() && s[k] == array_lower_bound(s, s.len() - 1);
        assert(0 <= k <= key && k < s.len() && s[k] == array_lower_bound(s, key));
    } else if s[key] is None {
        lemma_lower_bound_entry(s, key - 1);
        let k = choose|k: int| 0 <= k <= key - 1 && k < s.len() && s[k] == array_lower_bound(s, key - 1);
        assert(0 <= k <= key && k < s.len() && s[k] == array_lower_bound(s, key));
    } else {
        assert(0 <= key <= key && key < s.len() && s[key] == array_lower_bound(s, key));
    }
}

proof fn lemma_upper_bound_entry(s: Seq<Option<usize>>, key: int)
    requires
        array_upper_bound(s, key) is Some,
    ensures
        exists|k: int| 0 <= k && key <= k < s.len() && s[k] == array_upper_bound(s, key),
    decreases s.len() - key,
{
    if key < 0 {
        lemma_upper_bound_entry(s, 0);
        let k = choose|k: int| 0 <= k && 0 <= k < s.len() && s[k] == array_upper_bound(s, 0);
        assert(0 <= k && key <= k < s.len() && s[k] == array_upper_bound(s, key));
    } else if s[key] is None {
        lemma_upper_bound_entry(s, key + 1);
        let k = choose|k: int| 0 <= k && key + 1 <= k < s.len() && s[k] == array_upper_bound(s, key + 1);
        assert(0 <= k && key <= k < s.len() && s[k] == array_upper_bound(s, key));
    } else {
        assert(0 <= key && key <= key < s.len() && s[key] == array_upper_bound(s, key));
    }
}

/// After a crack of `crk_old` into `crk_new` on positions `pl..=ph`, the entries of a valid index
/// that lie outside the selected range stay valid, and the two new entries are valid.
proof fn lemma_index_after_crack(
    idx: Seq<Option<usize>>,
    crk_old: Seq<i64>,
    crk_new: Seq<i64>,
    pl: int,
    ph: int,
    al: i64,
    ah: i64,
    a: int,
    b: int,
)
    requires
        index_valid(idx, crk_old),
        disjoint(al, ah),
        forall|k: int, p: int| al < k <= ah + 1 && #[trigger] crate::crack::splits_at(crk_old, k, p) ==> crate::crack::splits_at(crk_new, k, p),
        0 <= pl <= ph < crk_old.len(),
        same_outside(crk_new, crk_old, pl, ph),
        from_region(crk_new, crk_old, pl, ph),
        !c_low(crk_old[pl], al as int),
        !c_high(crk_old[ph], ah as int),
        0 <= a <= b <= crk_new.len(),
        a < crk_new.len(),
        crk_new.len() <= usize::MAX,
        forall|i: int| 0 <= i < a ==> c_low(#[trigger] crk_new[i], al as int),
        forall|i: int| a <= i < b ==> in_range(#[trigger] crk_new[i], al as int, ah as int),
        forall|i: int| b <= i < crk_new.len() ==> c_high(#[trigger] crk_new[i], ah as int),
    ensures
        index_valid(index_after_crack(idx, al as int, ah + 1, a, b, crk_new.len() as int), crk_new),
{
    let n = crk_new.len() as int;
    let hk = ah + 1;
    let c = if b >= n { n - 1 } else { b };
    let idx2 = index_after_crack(idx, al as int, hk, a, b, n);
    let idx1 = array_insert(idx, al as int, a as usize);
    assert forall|k: int| 0 <= k < idx2.len() && (#[trigger] idx2[k]) is Some implies entry_valid(crk_new, k, idx2[k].unwrap() as int) by {
        if k == hk {
            assert(idx2[k].unwrap() == c);
            assert forall|i: int| 0 <= i < c && i < n implies #[trigger] crk_new[i] < k by {
                if i < a {
                    assert(c_low(crk_new[i], al as int));
                } else {
                    assert(in_range(crk_new[i], al as int, ah as int));
                }
            }
            assert forall|i: int| c < i < n implies #[trigger] crk_new[i] >= k by {
                assert(c_high(crk_new[i], ah as int));
            }
        } else if k == al {
            assert(idx2[k] == idx1[k]);
            assert(idx2[k].unwrap() == a);
            assert forall|i: int| 0 <= i < a && i < n implies #[trigger] crk_new[i] < k by {
                assert(c_low(crk_new[i], al as int));
            }
            assert forall|i: int| a < i < n implies #[trigger] crk_new[i] >= k by {
                if i < b {
                    assert(in_range(crk_new[i], al as int, ah as int));
                } else {
                    assert(c_high(crk_new[i], ah as int));
                }
            }
        } else {
            assert(idx2[k] == idx1[k]);
            assert(idx1[k] == idx[k]);
            let p = idx[k].unwrap() as int;
            assert(entry_valid(crk_old, k, p));
            if k < al {
                if p > pl {
                    assert(crk_old[pl] < k);
                }
                assert forall|i: int| 0 <= i < p && i < n implies #[trigger] crk_new[i] < k by {
                    assert(crk_new[i] == crk_old[i]);
                }
                assert forall|i: int| p < i < n implies #[trigger] crk_new[i] >= k by {
                    if pl <= i <= ph {
                        let y = choose|y: int| pl <= y <= ph && #[trigger] crk_new[i] == #[trigger] crk_old[y];
                        if y == p {
                        } else {
                            assert(crk_old[y] >= k);
                        }
                    } else {
                        assert(crk_new[i] == crk_old[i]);
                    }
                }
            } else if al < k <= ah {
                assert(crate::crack::splits_at(crk_old, k, p));
                assert(crate::crack::splits_at(crk_new, k, p));
            } else {
                assert(k > ah);
                if p < ph {
                    assert(crk_old[ph] >= k);
                }
                assert forall|i: int| p < i < n implies #[trigger] crk_new[i] >= k by {
                    assert(crk_new[i] == crk_old[i]);
                }
                assert forall|i: int| 0 <= i < p && i < n implies #[trigger] crk_new[i] < k by {
                    if pl <= i <= ph {
                        let y = choose|y: int| pl <= y <= ph && #[trigger] crk_new[i] == #[trigger] crk_old[y];
                        if y == p {
                        } else {
                            assert(crk_old[y] < k);
                        }
                    } else {
                        assert(crk_new[i] == crk_old[i]);
                    }
                }
            }
        }
    }
}

/// Adding the entries of a split at `a..b` to a valid index, with the column unchanged, keeps it
/// valid.
proof fn lemma_index_after_split(idx: Seq<Option<usize>>, crk: Seq<i64>, al: i64, ah: i64, a: int, b: int)
    requires
        index_valid(idx, crk),
        disjoint(al, ah),
        0 <= a <= b <= crk.len(),
        a < crk.len(),
        crk.len() <= usize::MAX,
        forall|i: int| 0 <= i < a ==> c_low(#[trigger] crk[i], al as int),
        forall|i: int| a <= i < b ==> in_range(#[trigger] crk[i], al as int, ah as int),
        forall|i: int| b <= i < crk.len() ==> c_high(#[trigger] crk[i], ah as int),
    ensures
        index_valid(index_after_crack(idx, al as int, ah + 1, a, b, crk.len() as int), crk),
{
    let n = crk.len() as int;
    let hk = ah + 1;
    let c = if b >= n { n - 1 } else { b };
    let idx2 = index_after_crack(idx, al as int, hk, a, b, n);
    let idx1 = array_insert(idx, al as int, a as usize);
    assert forall|k: int| 0 <= k < idx2.len() && (#[trigger] idx2[k]) is Some implies entry_valid(crk, k, idx2[k].unwrap() as int) by {
        if k == hk {
            assert(idx2[k].unwrap() == c);
            assert forall|i: int| 0 <= i < c && i < n implies #[trigger] crk[i] < k by {
                if i < a {
                    assert(c_low(crk[i], al as int));
                } else {
                    assert(in_range(crk[i], al as int, ah as int));
                }
            }
            assert forall|i: int| c < i < n implies #[trigger] crk[i] >= k by {
                assert(c_high(crk[i], ah as int));
            }
        } else if k == al {
            assert(idx2[k] == idx1[k]);
            assert forall|i: int| 0 <= i < a && i < n implies #[trigger] crk[i] < k by {
                assert(c_low(crk[i], al as int));
            }
            assert forall|i: int| a < i < n implies #[trigger] crk[i] >= k by {
                if i < b {
                    assert(in_range(crk[i], al as int, ah as int));
                } else {
                    assert(c_high(crk[i], ah as int));
                }
            }
        } else {
            assert(idx2[k] == idx1[k]);
            assert(idx1[k] == idx[k]);
        }
    }
}

/// What a selection in three that did not find its piece delimited returns: the rows `a..b` of
/// the cracked order, with the index either unchanged or extended by the split at `a..b`; when
/// the index was valid and the range is not empty-by-overlap, those rows are exactly the rows
/// whose value lies in the range.
pub open spec fn crack_outcome(pre: Table, post: Table, r: Table, al: int, ah: int, a: int, b: int) -> bool {
    &&& 0 <= a <= b <= post.count
    &&& is_selection(r, post, post.crk_col.base_idx@.subrange(a, b))
    &&& (post.crk_col.crk_idx@ == pre.crk_col.crk_idx@
        || post.crk_col.crk_idx@ == index_after_crack(pre.crk_col.crk_idx@, al, ah + 1, a, b, pre.count as int))
    &&& index_valid(pre.crk_col.crk_idx@, pre.crk_col.crk@) && al <= ah + 1 ==> forall|i: int| 0 <= i < post.count ==> ((a <= i < b) == in_range(#[trigger] post.crk_col.crk@[i], al, ah))
}

/// What a selection in three for `al..=ah` does: the cracked column, the base rows and the index
/// after it, and the stretch `a..b` of the base rows it answers with. The pieces that can hold
/// the range are found from the index; a value whose piece the index delimits is answered from
/// there; otherwise the ends are scanned to the first and last values that can be in range, the
/// piece between them is cracked in three as the swap loop does it, and both ends are recorded.
/// Where a selection for `al` starts looking: the entry of the largest recorded key up to `al`,
/// or the first position.
#[verifier::opaque]
pub open spec fn start_low(idx: Seq<Option<usize>>, al: int) -> int {
    match array_lower_bound(idx, al) { Some(p) => p as int, None => 0 }
}

/// Where a selection below `hk` stops looking: the entry of the smallest recorded key from `hk`
/// on, or the last of `n` positions.
#[verifier::opaque]
pub open spec fn start_high(idx: Seq<Option<usize>>, hk: int, n: int) -> int {
    match array_upper_bound(idx, hk) { Some(p) => p as int, None => n - 1 }
}

#[verifier::opaque]
pub open spec fn select3(crk: Seq<i64>, base: Seq<usize>, idx: Seq<Option<usize>>, n: int, al: int, ah: int) -> (Seq<i64>, Seq<usize>, Seq<Option<usize>>, int, int) {
    let hk = ah + 1;
    let pl0 = start_low(idx, al);
    let ph0 = start_high(idx, hk, n);
    if uniform_piece(idx, al, ah) {
        let a = if crk[pl0] < al { pl0 + 1 } else { pl0 };
        let b = if crk[ph0] <= ah { ph0 + 1 } else { ph0 };
        if a <= b { (crk, base, idx, a, b) } else { (crk, base, idx, 0, 0) }
    } else {
        let pl = scan_up(crk, n, pl0, al as i64);
        if pl >= n {
            (crk, base, idx, 0, 0)
        } else {
            let ph = scan_down(crk, ph0, ah as i64);
            if crk[ph] > ah {
                (crk, base, idx, 0, 0)
            } else {
                crack_tail(crk, base, idx, n, al, ah, pl, ph)
            }
        }
    }
}

/// The end of a selection in three whose scans stopped at `pl` and `ph`: the cracked column,
/// base rows and index after it, and the stretch `a..b` it answers with.
pub open spec fn crack_tail(crk: Seq<i64>, base: Seq<usize>, idx: Seq<Option<usize>>, n: int, al: int, ah: int, pl: int, ph: int) -> (Seq<i64>, Seq<usize>, Seq<Option<usize>>, int, int) {
    if pl == ph {
        (crk, base, idx, pl, ph + 1)
    } else if pl > ph {
        (crk, base, index_after_crack(idx, al, ah + 1, pl, pl, n), pl, pl)
    } else {
        let (c, b2, res) = crack3(crk, base, pl, pl, ph, al as i64, ah as i64);
        match res {
            Some((a, b, h)) => (c, b2, index_after_crack(idx, al, ah + 1, a, b, n), a, b),
            None => (c, b2, idx, 0, 0),
        }
    }
}

/// The selection of a value whose piece the index delimits.
pub proof fn lemma_select3_uniform(crk: Seq<i64>, base: Seq<usize>, idx: Seq<Option<usize>>, n: int, al: int, ah: int, pl0: int, ph0: int)
    requires
        pl0 == start_low(idx, al),
        ph0 == start_high(idx, ah + 1, n),
        uniform_piece(idx, al, ah),
    ensures
        ({
            let a = if crk[pl0] < al { pl0 + 1 } else { pl0 };
            let b = if crk[ph0] <= ah { ph0 + 1 } else { ph0 };
            select3(crk, base, idx, n, al, ah) == if a <= b { (crk, base, idx, a, b) } else { (crk, base, idx, 0, 0) }
        }),
{
    reveal(select3);
}

/// A selection whose scans find no value that can be in range answers nothing.
pub proof fn lemma_select3_empty(crk: Seq<i64>, base: Seq<usize>, idx: Seq<Option<usize>>, n: int, al: int, ah: int, pl0: int, ph0: int)
    requires
        pl0 == start_low(idx, al),
        ph0 == start_high(idx, ah + 1, n),
        !uniform_piece(idx, al, ah),
        scan_up(crk, n, pl0, al as i64) >= n || crk[scan_down(crk, ph0, ah as i64)] > ah,
    ensures
        select3(crk, base, idx, n, al, ah) == (crk, base, idx, 0int, 0int),
{
    reveal(select3);
}

/// A selection whose scans stop at positions `pl` and `ph`.
pub proof fn lemma_select3_scanned(crk: Seq<i64>, base: Seq<usize>, idx: Seq<Option<usize>>, n: int, al: int, ah: int, pl0: int, ph0: int, pl: int, ph: int)
    requires
        pl0 == start_low(idx, al),
        ph0 == start_high(idx, ah + 1, n),
        !uniform_piece(idx, al, ah),
        pl == scan_up(crk, n, pl0, al as i64),
        ph == scan_down(crk, ph0, ah as i64),
        pl < n,
        !(crk[ph] > ah),
    ensures
        select3(crk, base, idx, n, al, ah) == crack_tail(crk, base, idx, n, al, ah, pl, ph),
{
    reveal(select3);
}

/// What a selection in two returns: the rows `0..p` of the cracked order, with the index either
/// unchanged or extended by the split at `p`; when the index was valid, those rows are exactly the
/// rows whose value lies below `am`.
pub open spec fn split_outcome(pre: Table, post: Table, r: Table, am: int, p: int) -> bool {
    &&& 0 <= p <= post.count
    &&& is_selection(r, post, post.crk_col.base_idx@.subrange(0, p))
    &&& (post.crk_col.crk_idx@ == pre.crk_col.crk_idx@ || post.crk_col.crk_idx@ == array_insert(pre.crk_col.crk_idx@, am, p as usize))
    &&& index_valid(pre.crk_col.crk_idx@, pre.crk_col.crk@) ==> forall|i: int| 0 <= i < post.count ==> ((i < p) == (#[trigger] post.crk_col.crk@[i] < am))
}

/// A freshly created integer column.
pub open spec fn is_empty_int_col(c: CrackableCol) -> bool {
    &&& c.v@ == Seq::<i64>::empty()
    &&& c.crk@ == Seq::<i64>::empty()
    &&& c.crk_idx@ == Seq::<Option<usize>>::empty()
    &&& c.base_idx@ == Seq::<usize>::empty()
}

/// A freshly created float column.
pub open spec fn is_empty_float_col(c: FloatCol) -> bool {
    &&& c.v@ == Seq::<u64>::empty()
    &&& c.base_idx@ == Seq::<usize>::empty()
}

/// How many entries of `s` equal `x`.
pub open spec fn count_eq(s: Seq<i64>, x: i64) -> nat
    decreases s.len(),
{
    if s.len() == 0 {
        0
    } else {
        count_eq(s.drop_last(), x) + if s.last() == x { 1nat } else { 0nat }
    }
}

/// How many entries of `v` equal `x`.
pub fn count_in(v: &Vec<i64>, x: i64) -> (r: i64)
    requires
        v@.len() <= i64::MAX,
    ensures
        r == count_eq(v@, x),
{
    let mut n: i64 = 0;
    let mut i: usize = 0;
    while i < v.len()
        invariant
            i <= v@.len(),
            v@.len() <= i64::MAX,
            n == count_eq(v@.subrange(0, i as int), x),
            n <= i,
        decreases v@.len() - i,
    {
        proof {
            assert(v@.subrange(0, i + 1).drop_last() =~= v@.subrange(0, i as int));
        }
        if v[i] == x {
            n = n + 1;
        }
        i += 1;
    }
    proof {
        assert(v@.subrange(0, v@.len() as int) =~= v@);
    }
    n
}

} // verus!
