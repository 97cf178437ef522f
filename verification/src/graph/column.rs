//! The integer column of the graph tables, with its cracked copy, an AVL cracker index and the
//! bookkeeping of the compressed variants, and the specifications shared by those tables.

use vstd::prelude::*;
use crate::crack::{all_below, gather, gather_vec, copy_vec, in_range, same_outside, from_region};
use crate::db::{
    Column, first_named, has_name, find_col, names_distinct, batch_distinct, batch_covers,
    batch_lengths_agree, data_for, new_entries, lemma_data_for_step, lemma_new_entries_step,
    lemma_new_entries_from,
};
use crate::graph::cracker_index::AVLCrackerIndex;

verus! {

/// A column of integers: its values in base-row order, and, once cracked, a reordered copy with
/// its index and the per-position bookkeeping of the compressed tables.
pub struct IntCol {
    /// The values in base-row order.
    pub v: Vec<i64>,
    /// The cracked copy, reordered by the selections.
    pub crk: Vec<i64>,
    /// For a value `x`, the position in `crk` where the values `>= x` start.
    pub crk_idx: AVLCrackerIndex,
    /// For each position of `crk`, the base row it came from.
    pub base_idx: Vec<usize>,
    /// For each position of a compacted `crk`, where its run starts in `base_idx`.
    pub ofs: Vec<usize>,
    /// For each position of `crk`, the length of the run of equal values it belongs to.
    pub run_lengths: Vec<usize>,
}

impl Clone for IntCol {
    fn clone(&self) -> (r: Self)
        ensures
            r.v@ == self.v@,
            r.crk@ == self.crk@,
            r.crk_idx == self.crk_idx,
            r.base_idx@ == self.base_idx@,
            r.ofs@ == self.ofs@,
            r.run_lengths@ == self.run_lengths@,
    {
        IntCol {
            v: copy_vec(&self.v),
            crk: copy_vec(&self.crk),
            crk_idx: self.crk_idx.clone(),
            base_idx: copy_vec(&self.base_idx),
            ofs: copy_vec(&self.ofs),
            run_lengths: copy_vec(&self.run_lengths),
        }
    }
}

/// A column with no values, no cracked copy and an empty, well-formed index.
pub open spec fn is_fresh(c: IntCol) -> bool {
    &&& c.v@ == Seq::<i64>::empty()
    &&& c.crk@ == Seq::<i64>::empty()
    &&& c.crk_idx.wf()
    &&& c.crk_idx@ == Map::<i64, usize>::empty()
    &&& c.base_idx@ == Seq::<usize>::empty()
    &&& c.ofs@ == Seq::<usize>::empty()
    &&& c.run_lengths@ == Seq::<usize>::empty()
}

impl Column for IntCol {
    type Item = i64;

    open spec fn values(&self) -> Seq<i64> {
        self.v@
    }

    fn empty() -> (r: IntCol)
        ensures
            is_fresh(r),
    {
        IntCol {
            v: Vec::new(),
            crk: Vec::new(),
            crk_idx: AVLCrackerIndex::new(),
            base_idx: Vec::new(),
            ofs: Vec::new(),
            run_lengths: Vec::new(),
        }
    }

    /// Keeps the listed rows in order; the cracked copy and its bookkeeping are dropped.
    fn rearrange(&mut self, indices: &[usize])
        ensures
            final(self).crk@ == Seq::<i64>::empty(),
            final(self).crk_idx.wf(),
            final(self).crk_idx@ == Map::<i64, usize>::empty(),
            final(self).base_idx@ == Seq::<usize>::empty(),
            final(self).ofs@ == Seq::<usize>::empty(),
            final(self).run_lengths@ == Seq::<usize>::empty(),
    {
        let replacement_v = gather_vec(&self.v, indices);
        self.v = replacement_v;
        self.crk = Vec::new();
        self.crk_idx = AVLCrackerIndex::new();
        self.base_idx = Vec::new();
        self.ofs = Vec::new();
        self.run_lengths = Vec::new();
    }

    fn at(self, idx: usize) -> (r: i64) {
        self.v[idx]
    }

    fn append(&mut self, values: &mut Vec<i64>)
        ensures
            final(self).crk == old(self).crk,
            final(self).crk_idx == old(self).crk_idx,
            final(self).base_idx == old(self).base_idx,
            final(self).ofs == old(self).ofs,
            final(self).run_lengths == old(self).run_lengths,
    {
        self.v.append(values);
    }
}

/// The column named `n`: the first one of that name.
pub open spec fn col_named(cols: Seq<(String, IntCol)>, n: Seq<char>) -> IntCol {
    cols[choose|i: int| first_named(cols, n, i)].1
}

/// Only one position is the first with a given name.
pub proof fn lemma_first_named_unique<C>(cols: Seq<(String, C)>, n: Seq<char>, i: int, j: int)
    requires
        first_named(cols, n, i),
        first_named(cols, n, j),
    ensures
        i == j,
{
    if i < j {
        assert(cols[i].0@ != n);
    } else if j < i {
        assert(cols[j].0@ != n);
    }
}

/// The column found at the first position with its name is the one `col_named` means.
pub proof fn lemma_col_named(cols: Seq<(String, IntCol)>, n: Seq<char>, i: int)
    requires
        first_named(cols, n, i),
    ensures
        col_named(cols, n) == cols[i].1,
{
    let j = choose|j: int| first_named(cols, n, j);
    lemma_first_named_unique(cols, n, i, j);
}

/// Position `p` splits the cracked column at value `k`: the values before it are below `k`
/// and the values from it on are not.
pub open spec fn entry_splits(crk: Seq<i64>, k: int, p: int) -> bool {
    &&& forall|i: int| 0 <= i < p && i < crk.len() ==> #[trigger] crk[i] < k
    &&& forall|i: int| p <= i < crk.len() ==> #[trigger] crk[i] >= k
}

/// A name that some column carries is carried first at some position.
pub proof fn lemma_first_named_exists<C>(cols: Seq<(String, C)>, n: Seq<char>)
    requires
        has_name(cols, n),
    ensures
        exists|i: int| first_named(cols, n, i),
    decreases cols.len(),
{
    let last = cols.len() - 1;
    if cols[last].0@ == n && !has_name(cols.drop_last(), n) {
        assert forall|j: int| 0 <= j < last implies (#[trigger] cols[j]).0@ != n by {
            assert(cols.drop_last()[j] == cols[j]);
        }
        assert(first_named(cols, n, last));
    } else {
        if !has_name(cols.drop_last(), n) {
            let i = choose|i: int| 0 <= i < cols.len() && (#[trigger] cols[i]).0@ == n;
            assert(cols.drop_last()[i] == cols[i]);
        }
        lemma_first_named_exists(cols.drop_last(), n);
        let i = choose|i: int| first_named(cols.drop_last(), n, i);
        assert forall|j: int| 0 <= j < i implies (#[trigger] cols[j]).0@ != n by {
            assert(cols.drop_last()[j] == cols[j]);
        }
        assert(cols.drop_last()[i] == cols[i]);
        assert(first_named(cols, n, i));
    }
}

/// The column `col_named` picks is one of the columns, the first of its name.
pub proof fn lemma_col_named_is_first(cols: Seq<(String, IntCol)>, n: Seq<char>)
    requires
        has_name(cols, n),
    ensures
        exists|i: int| first_named(cols, n, i) && col_named(cols, n) == cols[i].1,
{
    lemma_first_named_exists(cols, n);
    let i = choose|i: int| first_named(cols, n, i);
    lemma_col_named(cols, n, i);
}

/// Every entry of the AVL cracker index splits the cracked column at its key.
pub open spec fn map_index_valid(m: Map<i64, usize>, crk: Seq<i64>) -> bool {
    forall|k: i64| #[trigger] m.dom().contains(k) ==> entry_splits(crk, k as int, m[k] as int)
}

/// After a crack of `crk_old` into `crk_new` on positions `pl..=ph` that put the values below
/// `al` before `a`, those in `al..=ah` in `a..b` and the rest from `b` on, the entries of a valid
/// index outside the selected range stay valid, and so are the two entries the crack adds.
pub proof fn lemma_map_index_after_crack(
    m: Map<i64, usize>,
    crk_old: Seq<i64>,
    crk_new: Seq<i64>,
    pl: int,
    ph: int,
    al: i64,
    ah: i64,
    a: int,
    b: int,
)
    requires
        map_index_valid(m, crk_old),
        ah < i64::MAX,
        al <= ah + 1,
        forall|k: int, p: int| al < k <= ah + 1 && #[trigger] crate::crack::splits_from(crk_old, k, p) ==> crate::crack::splits_from(crk_new, k, p),
        0 <= pl <= ph < crk_old.len(),
        same_outside(crk_new, crk_old, pl, ph),
        from_region(crk_new, crk_old, pl, ph),
        crk_old[pl] >= al,
        crk_old[ph] <= ah,
        0 <= a <= b <= crk_new.len(),
        crk_new.len() <= usize::MAX,
        forall|i: int| 0 <= i < a ==> #[trigger] crk_new[i] < al,
        forall|i: int| a <= i < b ==> in_range(#[trigger] crk_new[i], al as int, ah as int),
        forall|i: int| b <= i < crk_new.len() ==> #[trigger] crk_new[i] > ah,
    ensures
        map_index_valid(m.insert(al, a as usize).insert((ah + 1) as i64, b as usize), crk_new),
{
    let n = crk_new.len() as int;
    let hk = (ah + 1) as i64;
    let m2 = m.insert(al, a as usize).insert(hk, b as usize);
    assert forall|k: i64| #[trigger] m2.dom().contains(k) implies entry_splits(crk_new, k as int, m2[k] as int) by {
        if k == hk {
            assert forall|i: int| 0 <= i < b && i < n implies #[trigger] crk_new[i] < k by {
                if i < a {
                } else {
                    assert(in_range(crk_new[i], al as int, ah as int));
                }
            }
        } else if k == al {
            assert forall|i: int| a <= i < n implies #[trigger] crk_new[i] >= k by {
                if i < b {
                    assert(in_range(crk_new[i], al as int, ah as int));
                }
            }
        } else {
            assert(m.dom().contains(k));
            let p = m[k] as int;
            assert(entry_splits(crk_old, k as int, p));
            if k < al {
                if p > pl {
                    assert(crk_old[pl] < k);
                }
                assert forall|i: int| 0 <= i < p && i < n implies #[trigger] crk_new[i] < k by {
                    assert(crk_new[i] == crk_old[i]);
                }
                assert forall|i: int| p <= i < n implies #[trigger] crk_new[i] >= k by {
                    if pl <= i <= ph {
                        let y = choose|y: int| pl <= y <= ph && #[trigger] crk_new[i] == #[trigger] crk_old[y];
                        assert(crk_old[y] >= k);
                    } else {
                        assert(crk_new[i] == crk_old[i]);
                    }
                }
            } else if al < k <= ah {
                assert(crate::crack::splits_from(crk_old, k as int, p));
                assert(crate::crack::splits_from(crk_new, k as int, p));
            } else {
                assert(k > ah);
                if p <= ph {
                    assert(crk_old[ph] >= k);
                }
                assert forall|i: int| p <= i < n implies #[trigger] crk_new[i] >= k by {
                    assert(crk_new[i] == crk_old[i]);
                }
                assert forall|i: int| 0 <= i < p && i < n implies #[trigger] crk_new[i] < k by {
                    if pl <= i <= ph {
                        let y = choose|y: int| pl <= y <= ph && #[trigger] crk_new[i] == #[trigger] crk_old[y];
                        assert(crk_old[y] < k);
                    } else {
                        assert(crk_new[i] == crk_old[i]);
                    }
                }
            }
        }
    }
}

/// Adding to a valid index the two entries of a split that the column already has keeps it valid.
pub proof fn lemma_map_index_after_split(m: Map<i64, usize>, crk: Seq<i64>, al: i64, ah: i64, a: int, b: int)
    requires
        map_index_valid(m, crk),
        ah < i64::MAX,
        al <= ah + 1,
        0 <= a <= b <= crk.len(),
        crk.len() <= usize::MAX,
        forall|i: int| 0 <= i < a ==> #[trigger] crk[i] < al,
        forall|i: int| a <= i < b ==> in_range(#[trigger] crk[i], al as int, ah as int),
        forall|i: int| b <= i < crk.len() ==> #[trigger] crk[i] > ah,
    ensures
        map_index_valid(m.insert(al, a as usize).insert((ah + 1) as i64, b as usize), crk),
{
    let n = crk.len() as int;
    let hk = (ah + 1) as i64;
    let m2 = m.insert(al, a as usize).insert(hk, b as usize);
    assert forall|k: i64| #[trigger] m2.dom().contains(k) implies entry_splits(crk, k as int, m2[k] as int) by {
        if k == hk {
            assert forall|i: int| 0 <= i < b && i < n implies #[trigger] crk[i] < k by {
                if i >= a {
                    assert(in_range(crk[i], al as int, ah as int));
                }
            }
        } else if k == al {
            assert forall|i: int| a <= i < n implies #[trigger] crk[i] >= k by {
                if i < b {
                    assert(in_range(crk[i], al as int, ah as int));
                }
            }
        } else {
            assert(m.dom().contains(k));
        }
    }
}

/// Every position recorded in the AVL cracker index is at most `n`.
pub open spec fn map_index_in_bounds(m: Map<i64, usize>, n: nat) -> bool {
    forall|k: i64| #[trigger] m.dom().contains(k) ==> m[k] <= n
}

/// `now` holds, under the same names, the values of the columns of `src` at the rows `idx`,
/// as fresh columns.
pub open spec fn is_col_selection(now: Seq<(String, IntCol)>, src: Seq<(String, IntCol)>, idx: Seq<usize>) -> bool {
    &&& now.len() == src.len()
    &&& forall|i: int| 0 <= i < now.len() ==> {
        &&& (#[trigger] now[i]).0@ == src[i].0@
        &&& now[i].1.v@ == gather(src[i].1.v@, idx)
        &&& now[i].1.crk@ == Seq::<i64>::empty()
        &&& now[i].1.crk_idx.wf()
        &&& now[i].1.crk_idx@ == Map::<i64, usize>::empty()
        &&& now[i].1.base_idx@ == Seq::<usize>::empty()
        &&& now[i].1.ofs@ == Seq::<usize>::empty()
        &&& now[i].1.run_lengths@ == Seq::<usize>::empty()
    }
}

/// Every listed row exists in every column.
pub open spec fn rows_in_cols(cols: Seq<(String, IntCol)>, idx: Seq<usize>) -> bool {
    forall|i: int| 0 <= i < cols.len() ==> all_below(idx, (#[trigger] cols[i]).1.v@.len() as int)
}

/// The columns restricted to the listed rows, in that order.
pub fn select_columns(cols: &Vec<(String, IntCol)>, indices: &[usize]) -> (r: Vec<(String, IntCol)>)
    requires
        rows_in_cols(cols@, indices@),
    ensures
        is_col_selection(r@, cols@, indices@),
{
    let mut selection: Vec<(String, IntCol)> = Vec::new();
    let mut i: usize = 0;
    while i < cols.len()
        invariant
            i <= cols@.len(),
            rows_in_cols(cols@, indices@),
            selection@.len() == i,
            forall|k: int| 0 <= k < i ==> {
                &&& (#[trigger] selection@[k]).0@ == cols@[k].0@
                &&& selection@[k].1.v@ == gather(cols@[k].1.v@, indices@)
                &&& is_fresh_but_values(selection@[k].1)
            },
        decreases cols@.len() - i,
    {
        let name = cols[i].0.clone();
        let mut c_buffer = IntCol::empty();
        proof {
            assert(all_below(indices@, cols@[i as int].1.v@.len() as int));
        }
        c_buffer.v = gather_vec(&cols[i].1.v, indices);
        selection.push((name, c_buffer));
        i += 1;
    }
    selection
}

/// Everything but the values is fresh.
pub open spec fn is_fresh_but_values(c: IntCol) -> bool {
    &&& c.crk@ == Seq::<i64>::empty()
    &&& c.crk_idx.wf()
    &&& c.crk_idx@ == Map::<i64, usize>::empty()
    &&& c.base_idx@ == Seq::<usize>::empty()
    &&& c.ofs@ == Seq::<usize>::empty()
    &&& c.run_lengths@ == Seq::<usize>::empty()
}

/// The values of the column named `col` at the listed rows.
pub fn values_of(cols: &Vec<(String, IntCol)>, indices: &[usize], col: &str) -> (r: Vec<i64>)
    requires
        crate::db::has_name(cols@, col@),
        all_below(indices@, col_named(cols@, col@).v@.len() as int),
    ensures
        r@ == gather(col_named(cols@, col@).v@, indices@),
{
    match crate::db::find_col(cols, col) {
        Some(i) => {
            proof {
                lemma_col_named(cols@, col@, i as int);
            }
            gather_vec(&cols[i].1.v, indices)
        },
        None => {
            proof {
                assert(false);
            }
            Vec::new()
        },
    }
}

/// The batch of integer values can be inserted into `t`: it is what `insert` accepts.
pub open spec fn cols_batch_ok(cols: Seq<(String, IntCol)>, count: nat, ins: Seq<(&str, Vec<i64>)>) -> bool {
    &&& ins.len() > 0
    &&& names_distinct(cols)
    &&& batch_distinct(ins)
    &&& batch_covers(ins, cols)
    &&& batch_lengths_agree(ins, cols)
    &&& forall|j: int, k: int| 0 <= j < ins.len() && 0 <= k < ins.len() && !has_name(cols, (#[trigger] ins[j]).0@)
        && has_name(cols, (#[trigger] ins[k]).0@) ==> ins[j].1@.len() == count + ins[k].1@.len()
    &&& (forall|k: int| 0 <= k < ins.len() ==> !has_name(cols, (#[trigger] ins[k]).0@)) ==> forall|j: int| 0 <= j < ins.len() ==> (#[trigger] ins[j]).1@.len() == count
    &&& forall|k: int| 0 <= k < ins.len() && has_name(cols, (#[trigger] ins[k]).0@) ==> count + ins[k].1@.len() <= usize::MAX
}

/// The row count after inserting the batch: the length of the new columns if there are any,
/// else the old count plus the length of the appended values.
pub open spec fn cols_count_after(cols: Seq<(String, IntCol)>, count: nat, ins: Seq<(&str, Vec<i64>)>) -> nat {
    if exists|j: int| 0 <= j < ins.len() && !has_name(cols, (#[trigger] ins[j]).0@) {
        ins[choose|j: int| 0 <= j < ins.len() && !has_name(cols, (#[trigger] ins[j]).0@)].1@.len()
    } else {
        (count + ins[0].1@.len()) as nat
    }
}

/// `now` is `before` with each column extended by its values in the batch and the batch's new
/// columns added at the end.
pub open spec fn appended_intcols(now: Seq<(String, IntCol)>, before: Seq<(String, IntCol)>, ins: Seq<(&str, Vec<i64>)>) -> bool {
    let fresh = new_entries(ins, before);
    &&& now.len() == before.len() + fresh.len()
    &&& forall|i: int| 0 <= i < before.len() ==> {
        &&& (#[trigger] now[i]).0 == before[i].0
        &&& now[i].1.v@ == before[i].1.v@ + data_for(ins, before[i].0@)
        &&& now[i].1.crk == before[i].1.crk
        &&& now[i].1.crk_idx == before[i].1.crk_idx
        &&& now[i].1.base_idx == before[i].1.base_idx
        &&& now[i].1.ofs == before[i].1.ofs
        &&& now[i].1.run_lengths == before[i].1.run_lengths
    }
    &&& forall|k: int| 0 <= k < fresh.len() ==> {
        &&& (#[trigger] now[before.len() + k]).0@ == fresh[k].0@
        &&& now[before.len() + k].1.v@ == fresh[k].1@
        &&& now[before.len() + k].1.crk@ == Seq::<i64>::empty()
        &&& now[before.len() + k].1.crk_idx.wf()
        &&& now[before.len() + k].1.crk_idx@ == Map::<i64, usize>::empty()
        &&& now[before.len() + k].1.base_idx@ == Seq::<usize>::empty()
        &&& now[before.len() + k].1.ofs@ == Seq::<usize>::empty()
        &&& now[before.len() + k].1.run_lengths@ == Seq::<usize>::empty()
    }
}

/// The length the batch gives the table: the length of its entries for new columns if there
/// are any, else the count plus the length of its entries for existing columns.
pub fn batch_count(cols_v: &Vec<(String, IntCol)>, count: usize, new_ints: &Vec<(&str, Vec<i64>)>) -> (r: usize)
    requires
        cols_batch_ok(cols_v@, count as nat, new_ints@),
    ensures
        r == cols_count_after(cols_v@, count as nat, new_ints@),
{
    let ghost ins = new_ints@;
    let ghost cols = cols_v@;
    let mut l_old: Option<usize> = None;
    let mut l_new: Option<usize> = None;
    let mut j: usize = 0;
    while j < new_ints.len()
        invariant
            j <= ins.len(),
            new_ints@ == ins,
            cols_v@ == cols,
            cols_batch_ok(cols, count as nat, ins),
            match l_old {
                Some(l) => exists|k: int| 0 <= k < j && has_name(cols, (#[trigger] ins[k]).0@) && ins[k].1@.len() == l,
                None => forall|k: int| 0 <= k < j ==> !has_name(cols, (#[trigger] ins[k]).0@),
            },
            match l_new {
                Some(l) => exists|k: int| 0 <= k < j && !has_name(cols, (#[trigger] ins[k]).0@) && ins[k].1@.len() == l,
                None => forall|k: int| 0 <= k < j ==> has_name(cols, (#[trigger] ins[k]).0@),
            },
        decreases ins.len() - j,
    {
        if find_col(cols_v, new_ints[j].0).is_some() {
            l_old = Some(new_ints[j].1.len());
        } else {
            l_new = Some(new_ints[j].1.len());
        }
        j += 1;
    }
    match l_new {
        Some(n) => {
            proof {
                let k = choose|k: int| 0 <= k < ins.len() && !has_name(cols, (#[trigger] ins[k]).0@) && ins[k].1@.len() == n;
                let c = choose|j2: int| 0 <= j2 < ins.len() && !has_name(cols, (#[trigger] ins[j2]).0@);
                assert(has_name(cols, ins[k].0@) == has_name(cols, ins[c].0@));
            }
            n
        },
        None => {
            match l_old {
                Some(o) => {
                    proof {
                        let k = choose|k: int| 0 <= k < ins.len() && has_name(cols, (#[trigger] ins[k]).0@) && ins[k].1@.len() == o;
                        assert(has_name(cols, ins[0].0@));
                        assert(has_name(cols, ins[k].0@) == has_name(cols, ins[0].0@));
                    }
                    count + o
                },
                None => {
                    proof {
                        assert(has_name(cols, ins[0].0@));
                    }
                    count
                },
            }
        },
    }
}


/// Moves each entry's values onto the column it names, creating the columns the batch names
/// anew at the end.
pub fn append_batch(cols: &mut Vec<(String, IntCol)>, ins: &mut Vec<(&str, Vec<i64>)>)
    requires
        names_distinct(old(cols)@),
        batch_distinct(old(ins)@),
    ensures
        appended_intcols(final(cols)@, old(cols)@, old(ins)@),
{
    let ghost before = cols@;
    let ghost ins0 = ins@;
    let mut j: usize = 0;
    proof {
        assert(new_entries(ins0.subrange(0, 0), before) =~= Seq::empty()) by {
            reveal(Seq::filter);
        }
        assert forall|i: int| 0 <= i < before.len() implies data_for(ins0.subrange(0, 0), (#[trigger] before[i]).0@) == Seq::<i64>::empty() by {
        }
        assert forall|i: int| 0 <= i < before.len() implies (#[trigger] cols@[i]).1.v@ == before[i].1.v@ + data_for(ins0.subrange(0, 0), before[i].0@) by {
            assert(before[i].1.v@ + Seq::<i64>::empty() =~= before[i].1.v@);
        }
    }
    while j < ins.len()
        invariant
            j <= ins@.len(),
            ins@.len() == ins0.len(),
            forall|k: int| j <= k < ins0.len() ==> #[trigger] ins@[k] == ins0[k],
            names_distinct(before),
            batch_distinct(ins0),
            appended_intcols(cols@, before, ins0.subrange(0, j as int)),
        decreases ins0.len() - j,
    {
        let ghost prev = cols@;
        let ghost fresh = new_entries(ins0.subrange(0, j as int), before);
        proof {
            lemma_new_entries_step(ins0, before, j as int);
            lemma_new_entries_from(ins0.subrange(0, j as int), before);
            assert forall|i: int| 0 <= i < before.len() implies data_for(ins0.subrange(0, j + 1), (#[trigger] before[i]).0@) == data_for(ins0.subrange(0, j as int), before[i].0@)
                + if ins0[j as int].0@ == before[i].0@ { ins0[j as int].1@ } else { Seq::<i64>::empty() } by {
                lemma_data_for_step(ins0, j as int, before[i].0@);
            }
        }
        match find_col(cols, ins[j].0) {
            Some(i) => {
                proof {
                    if i >= before.len() {
                        let k = i - before.len();
                        assert(prev[before.len() + k].0@ == fresh[k].0@);
                        assert(before.len() + k == i);
                        let e = fresh[k];
                        assert(ins0.subrange(0, j as int).contains(e));
                        let m = choose|m: int| 0 <= m < j && ins0.subrange(0, j as int)[m] == e;
                        assert(ins0[m] == e);
                        assert(false);
                    }
                    assert(has_name(before, ins0[j as int].0@)) by {
                        assert(before[i as int].0@ == ins0[j as int].0@);
                    }
                }
                cols[i].1.v.append(&mut ins[j].1);
                proof {
                    assert forall|i2: int| 0 <= i2 < before.len() && i2 != i implies (#[trigger] before[i2]).0@ != ins0[j as int].0@ by {
                    }
                    assert forall|i2: int| 0 <= i2 < before.len() implies (#[trigger] cols@[i2]).1.v@ == before[i2].1.v@ + data_for(ins0.subrange(0, j + 1), before[i2].0@) by {
                        if i2 == i {
                        } else {
                            assert(prev[i2].1.v@ + Seq::<i64>::empty() =~= prev[i2].1.v@);
                        }
                    }
                }
            },
            None => {
                let mut c = IntCol::empty();
                c.append(&mut ins[j].1);
                let nm = String::from_str(ins[j].0);
                cols.push((nm, c));
                proof {
                    assert(!has_name(before, ins0[j as int].0@)) by {
                        if has_name(before, ins0[j as int].0@) {
                            let i2 = choose|i2: int| 0 <= i2 < before.len() && (#[trigger] before[i2]).0@ == ins0[j as int].0@;
                            assert(prev[i2].0@ == ins0[j as int].0@);
                        }
                    }
                    assert forall|i2: int| 0 <= i2 < before.len() implies (#[trigger] cols@[i2]).1.v@ == before[i2].1.v@ + data_for(ins0.subrange(0, j + 1), before[i2].0@) by {
                        assert(before[i2].0@ != ins0[j as int].0@);
                        assert(prev[i2].1.v@ + Seq::<i64>::empty() =~= prev[i2].1.v@);
                    }
                }
            },
        }
        j += 1;
    }
    proof {
        assert(ins0.subrange(0, ins0.len() as int) =~= ins0);
    }
}

} // verus!
