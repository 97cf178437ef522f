//! Decomposed cracking with run-length bookkeeping: the cracker column records, at both ends of
//! each run of equal values, the run's length, so that lookups move whole runs at once.

use vstd::prelude::*;
use crate::crack::{
    swapped, aligned, distinct, gather, iota, copy_vec, copy_range, all_below, swap_entries,
    lemma_swap_keeps_alignment,
};
use crate::db::{
    Column, has_name, find_col, names_distinct, batch_distinct, data_for, count_eq, count_in,
};
use crate::graph::column::{
    IntCol, is_fresh, col_named, lemma_col_named, is_col_selection, rows_in_cols,
    select_columns, lemma_col_named_is_first, is_fresh_but_values,
};
use crate::graph::cracker_index::{AVLCrackerIndex, is_max_at_most, is_min_at_least};
use crate::graph::decomposed_cracking::{
    run_len, batch_lengths, lengths_agree, batch_names_all, lemma_data_for_entry, find_entry,
    lemma_run_len_prefix, lemma_run_len_witness,
};

verus! {

/// A table of named integer columns, one of them copied into a cracker column.
pub struct OverswapRLETable {
    pub count: usize,
    pub crk_col: IntCol,
    pub columns: Vec<(String, IntCol)>,
    pub dbg_switch: bool,
}

/// `n` is one of the given names.
pub open spec fn named_in_strs(names: Seq<&str>, n: Seq<char>) -> bool {
    exists|j: int| 0 <= j < names.len() && (#[trigger] names[j])@ == n
}

/// The cracked column, its base rows and its run lengths have a position per row, each position
/// holds the value of its base row, no base row appears twice, and the index is well formed.
pub open spec fn rl_state(c: IntCol) -> bool {
    &&& c.crk_idx.wf()
    &&& c.base_idx@.len() == c.crk@.len()
    &&& c.run_lengths@.len() == c.crk@.len()
    &&& c.v@.len() == c.crk@.len()
    &&& aligned(c.crk@, c.base_idx@, c.v@)
    &&& distinct(c.base_idx@)
}

/// `d` keeps what a step of a lookup leaves alone in `c`: the values, the index, the offsets and
/// the number of positions.
pub open spec fn rl_frame(d: IntCol, c: IntCol) -> bool {
    &&& d.v == c.v
    &&& d.crk_idx == c.crk_idx
    &&& d.ofs == c.ofs
    &&& d.crk@.len() == c.crk@.len()
}

/// How far `p` is below `n`, or nothing once it is not.
pub open spec fn room(n: int, p: int) -> nat {
    if p < n { (n - p) as nat } else { 0 }
}

/// Exchanges positions `i` and `j` of the cracked column, its base rows and its run lengths.
fn swap3(c: &mut IntCol, i: usize, j: usize)
    requires
        rl_state(*old(c)),
        i < old(c).crk@.len(),
        j < old(c).crk@.len(),
    ensures
        rl_state(*final(c)),
        rl_frame(*final(c), *old(c)),
        final(c).crk@ == swapped(old(c).crk@, i as int, j as int),
        final(c).base_idx@ == swapped(old(c).base_idx@, i as int, j as int),
        final(c).run_lengths@ == swapped(old(c).run_lengths@, i as int, j as int),
{
    proof {
        lemma_swap_keeps_alignment(c.crk@, c.base_idx@, c.v@, i as int, j as int);
    }
    swap_entries(&mut c.crk, i, j);
    swap_entries(&mut c.base_idx, i, j);
    swap_entries(&mut c.run_lengths, i, j);
}

/// `s` after exchanging position `a + i` with `b + i` (with `b - i` when `down`) for each `i` in
/// `0..k`, in that order.
pub open spec fn swapped_runs<T>(s: Seq<T>, a: int, b: int, k: nat, down: bool) -> Seq<T>
    decreases k,
{
    if k == 0 {
        s
    } else {
        let i = k - 1;
        swapped(swapped_runs(s, a, b, (k - 1) as nat, down), a + i, if down { b - i } else { b + i })
    }
}

/// Exchanges positions `a + i` with `b + i` (or with `b - i` when `down`) for `i` in `0..k`.
fn swap_runs(c: &mut IntCol, a: usize, b: usize, k: usize, down: bool)
    requires
        rl_state(*old(c)),
        a + k <= old(c).crk@.len(),
        down ==> b < old(c).crk@.len() && k <= b + 1,
        !down ==> b + k <= old(c).crk@.len(),
    ensures
        rl_state(*final(c)),
        rl_frame(*final(c), *old(c)),
        final(c).crk@ == swapped_runs(old(c).crk@, a as int, b as int, k as nat, down),
        final(c).base_idx@ == swapped_runs(old(c).base_idx@, a as int, b as int, k as nat, down),
        final(c).run_lengths@ == swapped_runs(old(c).run_lengths@, a as int, b as int, k as nat, down),
{
    let n = c.crk.len();
    let mut i: usize = 0;
    while i < k
        invariant
            i <= k,
            rl_state(*c),
            rl_frame(*c, *old(c)),
            n == c.crk@.len(),
            a + k <= n,
            down ==> b < n && k <= b + 1,
            !down ==> b + k <= n,
            c.crk@ == swapped_runs(old(c).crk@, a as int, b as int, i as nat, down),
            c.base_idx@ == swapped_runs(old(c).base_idx@, a as int, b as int, i as nat, down),
            c.run_lengths@ == swapped_runs(old(c).run_lengths@, a as int, b as int, i as nat, down),
        decreases k - i,
    {
        let j = if down { b - i } else { b + i };
        swap3(c, a + i, j);
        i += 1;
    }
}

/// Writes `val` as the run length at position `i`.
fn set_run(c: &mut IntCol, i: usize, val: usize)
    requires
        rl_state(*old(c)),
        i < old(c).crk@.len(),
    ensures
        rl_state(*final(c)),
        rl_frame(*final(c), *old(c)),
        final(c).crk == old(c).crk,
        final(c).base_idx == old(c).base_idx,
        final(c).run_lengths@ == old(c).run_lengths@.update(i as int, val),
{
    c.run_lengths.set(i, val);
}

/// Where the walk over runs that reach the end `n` of the column stops: from `p`, while the run
/// at `p` ends at or past `n` and `p + 1` is a position, on to `p + 1`. `None` where the end of a
/// run overflows.
pub open spec fn tl_skip(rls: Seq<usize>, n: int, p: int) -> Option<int>
    decreases n - p,
{
    if p + rls[p] > usize::MAX {
        None
    } else if p + rls[p] >= n && p + 1 < n {
        tl_skip(rls, n, p + 1)
    } else {
        Some(p)
    }
}

/// The length of the run at `p` after merging the runs of its value that follow it, starting
/// from length `r`: runs are added while their value is the one at `p` and they end before
/// `ph`. `None` where a run's end overflows, a run is empty, or one reaches the end `n`.
pub open spec fn tl_merge(crk: Seq<i64>, rls: Seq<usize>, n: int, p: int, ph: int, r: int) -> Option<int>
    decreases n - (p + r),
{
    if p < 0 || r < 0 || p + r >= n {
        Some(r)
    } else if crk[p + r] != crk[p] {
        Some(r)
    } else {
        let inc = rls[p + r] as int;
        if p + r + inc > usize::MAX {
            None
        } else if p + r + inc >= ph {
            Some(r)
        } else if inc == 0 || p + r + inc >= n {
            None
        } else {
            tl_merge(crk, rls, n, p, ph, r + inc)
        }
    }
}

/// The skip stops at a position of the column at or after where it starts.
pub proof fn lemma_tl_skip(rls: Seq<usize>, n: int, p: int)
    requires
        0 <= p < n,
    ensures
        tl_skip(rls, n, p) matches Some(q) ==> p <= q < n,
    decreases n - p,
{
    if p + rls[p] <= usize::MAX && p + rls[p] >= n && p + 1 < n {
        lemma_tl_skip(rls, n, p + 1);
    }
}

/// Merging only lengthens the run, and keeps its end inside the column.
pub proof fn lemma_tl_merge(crk: Seq<i64>, rls: Seq<usize>, n: int, p: int, ph: int, r: int)
    requires
        0 <= p,
        0 <= r,
        p + r < n,
    ensures
        tl_merge(crk, rls, n, p, ph, r) matches Some(q) ==> r <= q && p + q < n,
    decreases n - (p + r),
{
    if crk[p + r] == crk[p] {
        let inc = rls[p + r] as int;
        if !(p + r + inc > usize::MAX) && !(p + r + inc >= ph) && !(inc == 0 || p + r + inc >= n) {
            lemma_tl_merge(crk, rls, n, p, ph, r + inc);
        }
    }
}

/// The walk of `tighten_low` from `p` over the runs of values below `x` before `ph`, merging the
/// runs of one value it meets: the run lengths after it and where it stops, or `None` where the
/// run lengths take it out of the column, into an overflow or to a standstill.
pub open spec fn tl_walk(crk: Seq<i64>, rls: Seq<usize>, x: i64, p: int, ph: int, n: int) -> (Seq<usize>, Option<int>)
    decreases n - p,
{
    if p < 0 || p >= n {
        (rls, None)
    } else if !(crk[p] < x && p < ph) {
        (rls, Some(p))
    } else {
        match tl_skip(rls, n, p) {
            None => (rls, None),
            Some(p1) => {
                proof {
                    lemma_tl_skip(rls, n, p);
                }
                let r1 = rls[p1] as int;
                if p1 + r1 >= n {
                    (rls, Some(p1))
                } else if crk[p1 + r1] == crk[p1] {
                    match tl_merge(crk, rls, n, p1, ph, r1) {
                        None => (rls, None),
                        Some(r2) => {
                            proof {
                                lemma_tl_merge(crk, rls, n, p1, ph, r1);
                            }
                            if p1 + r2 < 1 {
                                (rls, None)
                            } else {
                                let rls2 = rls.update(p1, r2 as usize).update(p1 + r2 - 1, r2 as usize);
                                if r2 == 0 {
                                    (rls2, None)
                                } else {
                                    tl_walk(crk, rls2, x, p1 + r2, ph, n)
                                }
                            }
                        },
                    }
                } else if r1 == 0 {
                    (rls, None)
                } else {
                    tl_walk(crk, rls, x, p1 + r1, ph, n)
                }
            },
        }
    }
}

/// `r` is `Some` exactly where `s` is, with the same position.
pub open spec fn same_pos(r: Option<usize>, s: Option<int>) -> bool {
    match r {
        Some(p) => s == Some(p as int),
        None => s is None,
    }
}

/// Moves `p_low` forward over the runs of values below `x` while it is before `p_high`, merging
/// adjacent runs of one value on the way. `None` stands for the states in which the recorded
/// run lengths would take the walk out of the column, into an overflow, or to a standstill.
fn tighten_low(c: &mut IntCol, x: i64, p_low0: usize, p_high: usize) -> (r: Option<usize>)
    requires
        rl_state(*old(c)),
    ensures
        rl_state(*final(c)),
        rl_frame(*final(c), *old(c)),
        final(c).crk == old(c).crk,
        final(c).base_idx == old(c).base_idx,
        r matches Some(p) ==> p >= p_low0 && p < final(c).crk@.len(),
        ({
            let (rls, res) = tl_walk(old(c).crk@, old(c).run_lengths@, x, p_low0 as int, p_high as int, old(c).crk@.len() as int);
            final(c).run_lengths@ == rls && same_pos(r, res)
        }),
{
    let n = c.crk.len();
    let ghost crk = c.crk@;
    let ghost goal = tl_walk(crk, c.run_lengths@, x, p_low0 as int, p_high as int, n as int);
    let mut p_low = p_low0;
    loop
        invariant
            rl_state(*c),
            rl_frame(*c, *old(c)),
            c.crk == old(c).crk,
            c.base_idx == old(c).base_idx,
            crk == c.crk@,
            n == c.crk@.len(),
            p_low >= p_low0,
            tl_walk(crk, c.run_lengths@, x, p_low as int, p_high as int, n as int) == goal,
            goal == tl_walk(crk, old(c).run_lengths@, x, p_low0 as int, p_high as int, n as int),
        ensures
            p_low < n,
            goal == (c.run_lengths@, Some(p_low as int)),
        decreases room(n as int, p_low as int),
    {
        if p_low >= n {
            return None;
        }
        if !(c.crk[p_low] < x && p_low < p_high) {
            break;
        }
        let ghost start = p_low;
        let ghost rls = c.run_lengths@;
        let mut rl = c.run_lengths[p_low];
        loop
            invariant
                rl_state(*c),
                rl_frame(*c, *old(c)),
                c.crk == old(c).crk,
                c.base_idx == old(c).base_idx,
                crk == c.crk@,
                rls == c.run_lengths@,
                n == c.crk@.len(),
                start <= p_low < n,
                rl == rls[p_low as int],
                tl_skip(rls, n as int, p_low as int) == tl_skip(rls, n as int, start as int),
                start < n,
                crk[start as int] < x && start < p_high,
                goal == tl_walk(crk, rls, x, start as int, p_high as int, n as int),
                goal == tl_walk(crk, old(c).run_lengths@, x, p_low0 as int, p_high as int, n as int),
            ensures
                p_low + rl <= usize::MAX,
                !(p_low + rl >= n && p_low + 1 < n),
            decreases n - p_low,
        {
            if p_low > usize::MAX - rl {
                assert(tl_skip(rls, n as int, p_low as int) is None);
                assert(goal == (rls, None::<int>));
                return None;
            }
            if !(p_low + rl >= n && p_low + 1 < n) {
                break;
            }
            p_low += 1;
            rl = c.run_lengths[p_low];
        }
        if p_low > usize::MAX - rl {
            return None;
        }
        assert(tl_skip(rls, n as int, start as int) == Some(p_low as int));
        if p_low + rl >= n {
            break;
        }
        if c.crk[p_low + rl] == c.crk[p_low] {
            let ghost r1 = rl as int;
            loop
                invariant
                    rl_state(*c),
                    rl_frame(*c, *old(c)),
                    c.crk == old(c).crk,
                    c.base_idx == old(c).base_idx,
                    crk == c.crk@,
                    rls == c.run_lengths@,
                    n == c.crk@.len(),
                    start <= p_low,
                    p_low + rl < n,
                    tl_merge(crk, rls, n as int, p_low as int, p_high as int, rl as int) == tl_merge(crk, rls, n as int, p_low as int, p_high as int, r1),
                    start < n,
                    crk[start as int] < x && start < p_high,
                    goal == tl_walk(crk, rls, x, start as int, p_high as int, n as int),
                    goal == tl_walk(crk, old(c).run_lengths@, x, p_low0 as int, p_high as int, n as int),
                    tl_skip(rls, n as int, start as int) == Some(p_low as int),
                    r1 == rls[p_low as int],
                    p_low + r1 < n,
                    crk[p_low + r1] == crk[p_low as int],
                ensures
                    tl_merge(crk, rls, n as int, p_low as int, p_high as int, r1) == Some(rl as int),
                decreases n - (p_low + rl),
            {
                if c.crk[p_low + rl] != c.crk[p_low] {
                    break;
                }
                let inc = c.run_lengths[p_low + rl];
                if inc > usize::MAX - (p_low + rl) {
                    assert(tl_merge(crk, rls, n as int, p_low as int, p_high as int, rl as int) is None);
                    assert(goal == (rls, None::<int>));
                    return None;
                }
                if p_low + rl + inc >= p_high {
                    break;
                }
                if inc == 0 || p_low + rl + inc >= n {
                    assert(tl_merge(crk, rls, n as int, p_low as int, p_high as int, rl as int) is None);
                    assert(goal == (rls, None::<int>));
                    return None;
                }
                rl += inc;
            }
            assert(tl_merge(crk, rls, n as int, p_low as int, p_high as int, r1) == Some(rl as int));
            if p_low + rl < 1 {
                return None;
            }
            set_run(c, p_low, rl);
            set_run(c, p_low + rl - 1, rl);
        }
        if rl == 0 {
            return None;
        }
        p_low += rl;
    }
    Some(p_low)
}

/// The length of the run that ends at `ph` after merging the runs of its value before it,
/// starting from length `r`: runs are added while their value is the one at `ph` and they start
/// at or after `pl`. `None` where a length overflows or a run is empty.
pub open spec fn th_merge(crk: Seq<i64>, rls: Seq<usize>, ph: int, pl: int, r: int) -> Option<int>
    decreases ph - r,
{
    if r < 0 || r > ph {
        Some(r)
    } else if crk[ph - r] != crk[ph] {
        Some(r)
    } else {
        let inc = rls[ph - r] as int;
        if r + inc > usize::MAX {
            None
        } else if ph < r + inc {
            Some(r)
        } else if ph - (r + inc) < pl {
            Some(r)
        } else if inc == 0 {
            None
        } else {
            th_merge(crk, rls, ph, pl, r + inc)
        }
    }
}

/// Merging only lengthens the run, and keeps its start inside the column.
pub proof fn lemma_th_merge(crk: Seq<i64>, rls: Seq<usize>, ph: int, pl: int, r: int)
    requires
        0 <= r <= ph,
    ensures
        th_merge(crk, rls, ph, pl, r) matches Some(q) ==> r <= q <= ph,
    decreases ph - r,
{
    if crk[ph - r] == crk[ph] {
        let inc = rls[ph - r] as int;
        if !(r + inc > usize::MAX) && !(ph < r + inc) && !(ph - (r + inc) < pl) && inc != 0 {
            lemma_th_merge(crk, rls, ph, pl, r + inc);
        }
    }
}

/// The walk of `tighten_high` from `p` back over the runs of values above `x` after `pl`,
/// merging the runs of one value it meets: the run lengths after it and where it stops, or
/// `None` where the run lengths take it out of the column, into an overflow or to a standstill.
pub open spec fn th_walk(crk: Seq<i64>, rls: Seq<usize>, x: i64, pl: int, p: int, n: int) -> (Seq<usize>, Option<int>)
    decreases p,
{
    if p < 0 || p >= n {
        (rls, None)
    } else if !(crk[p] > x && p > pl) {
        (rls, Some(p))
    } else {
        let r1 = rls[p] as int;
        if r1 > p {
            (rls, None)
        } else if crk[p - r1] == crk[p] {
            match th_merge(crk, rls, p, pl, r1) {
                None => (rls, None),
                Some(r2) => {
                    proof {
                        lemma_th_merge(crk, rls, p, pl, r1);
                    }
                    if p - r2 + 1 >= n {
                        (rls, None)
                    } else {
                        let rls2 = rls.update(p, r2 as usize).update(p - r2 + 1, r2 as usize);
                        if r2 == 0 {
                            (rls2, None)
                        } else {
                            th_walk(crk, rls2, x, pl, p - r2, n)
                        }
                    }
                },
            }
        } else if r1 == 0 {
            (rls, None)
        } else {
            th_walk(crk, rls, x, pl, p - r1, n)
        }
    }
}

/// Moves `p_high` back over the runs of values above `x` while it is after `p_low`, merging
/// adjacent runs of one value on the way. `None` stands for the states in which the recorded
/// run lengths would take the walk out of the column, into an overflow, or to a standstill.
fn tighten_high(c: &mut IntCol, x: i64, p_low: usize, p_high0: usize) -> (r: Option<usize>)
    requires
        rl_state(*old(c)),
    ensures
        rl_state(*final(c)),
        rl_frame(*final(c), *old(c)),
        final(c).crk == old(c).crk,
        final(c).base_idx == old(c).base_idx,
        r matches Some(p) ==> p <= p_high0 && p < final(c).crk@.len(),
        ({
            let (rls, res) = th_walk(old(c).crk@, old(c).run_lengths@, x, p_low as int, p_high0 as int, old(c).crk@.len() as int);
            final(c).run_lengths@ == rls && same_pos(r, res)
        }),
{
    let n = c.crk.len();
    let ghost crk = c.crk@;
    let ghost goal = th_walk(crk, c.run_lengths@, x, p_low as int, p_high0 as int, n as int);
    let mut p_high = p_high0;
    if p_high >= n {
        return None;
    }
    loop
        invariant
            rl_state(*c),
            rl_frame(*c, *old(c)),
            c.crk == old(c).crk,
            c.base_idx == old(c).base_idx,
            crk == c.crk@,
            n == c.crk@.len(),
            p_high <= p_high0,
            p_high < n,
            th_walk(crk, c.run_lengths@, x, p_low as int, p_high as int, n as int) == goal,
            goal == th_walk(crk, old(c).run_lengths@, x, p_low as int, p_high0 as int, n as int),
        ensures
            goal == (c.run_lengths@, Some(p_high as int)),
            p_high <= p_high0,
            p_high < n,
        decreases p_high,
    {
        if !(c.crk[p_high] > x && p_high > p_low) {
            break;
        }
        let ghost rls = c.run_lengths@;
        let mut rl = c.run_lengths[p_high];
        if rl > p_high {
            return None;
        }
        if c.crk[p_high - rl] == c.crk[p_high] {
            let ghost r1 = rl as int;
            loop
                invariant
                    rl_state(*c),
                    rl_frame(*c, *old(c)),
                    c.crk == old(c).crk,
                    c.base_idx == old(c).base_idx,
                    crk == c.crk@,
                    rls == c.run_lengths@,
                    n == c.crk@.len(),
                    p_high < n,
                    rl <= p_high,
                    th_merge(crk, rls, p_high as int, p_low as int, rl as int) == th_merge(crk, rls, p_high as int, p_low as int, r1),
                    crk[p_high as int] > x && p_high > p_low,
                    goal == th_walk(crk, rls, x, p_low as int, p_high as int, n as int),
                    goal == th_walk(crk, old(c).run_lengths@, x, p_low as int, p_high0 as int, n as int),
                    r1 == rls[p_high as int],
                    r1 <= p_high,
                    crk[p_high - r1] == crk[p_high as int],
                ensures
                    th_merge(crk, rls, p_high as int, p_low as int, r1) == Some(rl as int),
                    rl <= p_high,
                decreases p_high - rl,
            {
                if c.crk[p_high - rl] != c.crk[p_high] {
                    break;
                }
                let inc = c.run_lengths[p_high - rl];
                if inc > usize::MAX - rl {
                    assert(th_merge(crk, rls, p_high as int, p_low as int, rl as int) is None);
                    assert(goal == (rls, None::<int>));
                    return None;
                }
                if p_high < rl + inc {
                    break;
                } else if p_high - (rl + inc) < p_low {
                    break;
                }
                if inc == 0 {
                    assert(th_merge(crk, rls, p_high as int, p_low as int, rl as int) is None);
                    assert(goal == (rls, None::<int>));
                    return None;
                }
                rl += inc;
            }
            if p_high - rl + 1 >= n {
                return None;
            }
            set_run(c, p_high, rl);
            set_run(c, (p_high - rl) + 1, rl);
        }
        if rl == 0 {
            return None;
        }
        p_high -= rl;
    }
    Some(p_high)
}

/// The difference of two run lengths as the lookup reads them: each cut to eight signed bits,
/// and the absolute value of their difference, when it fits in eight signed bits.
pub open spec fn pad_size_of(rl_itr: usize, rl_low: usize) -> Option<usize> {
    let d = (rl_itr as i8) as int - (rl_low as i8) as int;
    if d < -127 || d > 127 {
        None
    } else if d < 0 {
        Some((-d) as usize)
    } else {
        Some(d as usize)
    }
}

/// The run lengths at `p_itr` and `p_low` as the lookup reads them: each cut to eight signed
/// bits, and the absolute difference, when that arithmetic stays in range.
fn pad_between(rl_itr: usize, rl_low: usize) -> (r: Option<usize>)
    ensures
        r == pad_size_of(rl_itr, rl_low),
{
    let a: i8 = rl_itr as i8;
    let b: i8 = rl_low as i8;
    let d: i16 = (a as i16) - (b as i16);
    if d < -127 || d > 127 {
        return None;
    }
    if d < 0 {
        Some((-d) as usize)
    } else {
        Some(d as usize)
    }
}

/// The cracked column, its base rows and its run lengths, as a step of a lookup changes them.
pub open spec fn run_state(c: IntCol) -> (Seq<i64>, Seq<usize>, Seq<usize>) {
    (c.crk@, c.base_idx@, c.run_lengths@)
}

/// `swapped_runs` on the cracked column, its base rows and its run lengths alike.
pub open spec fn swap_all(st: (Seq<i64>, Seq<usize>, Seq<usize>), a: int, b: int, k: nat, down: bool) -> (Seq<i64>, Seq<usize>, Seq<usize>) {
    (swapped_runs(st.0, a, b, k, down), swapped_runs(st.1, a, b, k, down), swapped_runs(st.2, a, b, k, down))
}

/// `r` is `Some` exactly where `s` is, with the same pair of positions.
pub open spec fn same_pair(r: Option<(usize, usize)>, s: Option<(int, int)>) -> bool {
    match r {
        Some((a, b)) => s == Some((a as int, b as int)),
        None => s is None,
    }
}

/// Where the walk over the runs after the run at `p_low` stops: from `p`, on over each run that
/// ends before `target`. `None` where the walk leaves the column, a run's end overflows, or a run
/// is empty.
pub open spec fn ls_pad_walk(rls: Seq<usize>, n: int, p: int, target: int) -> Option<int>
    decreases room(n, p),
{
    if p < 0 || p >= n {
        None
    } else {
        let r = rls[p] as int;
        if p + r > usize::MAX {
            None
        } else if !(p + r < target) {
            Some(p)
        } else if r == 0 {
            None
        } else {
            ls_pad_walk(rls, n, p + r, target)
        }
    }
}

/// The run lengths after cutting the run at `p_pad`, of length `rl_pad`, to the padding length
/// `pad` and moving the rest of its length after it, and whether that stayed in the column.
pub open spec fn ls_pad_fix(rls: Seq<usize>, p_pad: int, rl_pad: int, pad: int, n: int) -> (Seq<usize>, bool) {
    let rls1 = rls.update(p_pad, pad as usize);
    if p_pad + pad > usize::MAX || p_pad + pad < 1 || p_pad + pad - 1 >= n {
        (rls1, false)
    } else {
        let rls2 = rls1.update(p_pad + pad - 1, pad as usize);
        if p_pad + rl_pad < 1 || p_pad + rl_pad - 1 >= n {
            (rls2, false)
        } else {
            let cur = rls2[p_pad + rl_pad - 1] as int;
            if cur < pad {
                (rls2, false)
            } else {
                let rls3 = rls2.update(p_pad + rl_pad - 1, (cur - pad) as usize);
                if p_pad + pad >= n {
                    (rls3, false)
                } else {
                    (rls3.update(p_pad + pad, rls3[p_pad + rl_pad - 1]), true)
                }
            }
        }
    }
}

/// The end of a step below: the walk of `tighten_low` from `p_low`, with `p_itr` kept at or after
/// where it stops, which must lie after `pl0`.
pub open spec fn ls_finish(st: (Seq<i64>, Seq<usize>, Seq<usize>), x: i64, pl0: int, p_low: int, p_itr: int, ph: int, n: int) -> ((Seq<i64>, Seq<usize>, Seq<usize>), Option<(int, int)>) {
    let (rls, t) = tl_walk(st.0, st.2, x, p_low, ph, n);
    let st1 = (st.0, st.1, rls);
    match t {
        None => (st1, None),
        Some(pl) => {
            let pi = if p_itr < pl { pl } else { p_itr };
            if pl <= pl0 {
                (st1, None)
            } else {
                (st1, Some((pl, pi)))
            }
        },
    }
}

/// A step below where the run at `pi0` is longer than the run at `pl0`: runs after `pl0` are
/// walked to the run that ends the stretch as long as the run at `pi0`, that run is cut to the
/// padding length, the padding is exchanged to `pi0` and the run at `pl0` after it.
pub open spec fn ls_longer(st: (Seq<i64>, Seq<usize>, Seq<usize>), x: i64, pl0: int, pi0: int, ph: int, n: int, pad: int) -> ((Seq<i64>, Seq<usize>, Seq<usize>), Option<(int, int)>) {
    let rl_itr = st.2[pi0] as int;
    let rl_low = st.2[pl0] as int;
    if pl0 + rl_low > usize::MAX || rl_itr + pl0 > usize::MAX {
        (st, None)
    } else {
        let target = rl_itr + pl0;
        match ls_pad_walk(st.2, n, pl0 + rl_low, target) {
            None => (st, None),
            Some(p_pad) => {
                let rl_pad = st.2[p_pad] as int;
                if p_pad + rl_pad > usize::MAX {
                    (st, None)
                } else {
                    let (rls1, ok) = if p_pad + rl_pad != target { ls_pad_fix(st.2, p_pad, rl_pad, pad, n) } else { (st.2, true) };
                    let st1 = (st.0, st.1, rls1);
                    if !ok {
                        (st1, None)
                    } else if pad > 0 && (pad + (pl0 + rl_low) > usize::MAX || pl0 + rl_low + pad > n || pad + pi0 > usize::MAX || pi0 + pad > n) {
                        (st1, None)
                    } else {
                        let st2 = if pad > 0 { swap_all(st1, pl0 + rl_low, pi0, pad as nat, false) } else { st1 };
                        if pad + pi0 > usize::MAX {
                            (st2, None)
                        } else if rl_low > 0 && (pl0 + rl_low > n || rl_low + (pi0 + pad) > usize::MAX || pi0 + pad + rl_low > n) {
                            (st2, None)
                        } else {
                            let st3 = if rl_low > 0 { swap_all(st2, pl0, pi0 + pad, rl_low as nat, false) } else { st2 };
                            ls_finish(st3, x, pl0, target, pi0 + pad, ph, n)
                        }
                    }
                }
            },
        }
    }
}

/// The run lengths after splitting the run at `pl0`, of length `rl_low`, into a front of length
/// `rl_itr` and the rest, and whether that stayed in the column.
pub open spec fn ls_split(rls: Seq<usize>, pl0: int, rl_low: int, rl_itr: int, n: int) -> (Seq<usize>, bool) {
    if pl0 + rl_low > usize::MAX || pl0 + rl_low < 1 || pl0 + rl_low - 1 >= n {
        (rls, false)
    } else {
        let cur = rls[pl0 + rl_low - 1] as int;
        if cur < rl_itr {
            (rls, false)
        } else {
            let rls1 = rls.update(pl0 + rl_low - 1, (cur - rl_itr) as usize);
            if pl0 + rl_itr >= n {
                (rls1, false)
            } else {
                let rls3 = rls1.update(pl0 + rl_itr, rls1[pl0 + rl_low - 1]).update(pl0, rl_itr as usize);
                if pl0 + rl_itr < 1 {
                    (rls3, false)
                } else {
                    (rls3.update(pl0 + rl_itr - 1, rl_itr as usize), true)
                }
            }
        }
    }
}

/// A step below where the run at `pi0` is not longer than the run at `pl0`: the run at `pl0` is
/// split to the length of the run at `pi0` when longer, and the run at `pi0` is exchanged with
/// its front.
pub open spec fn ls_shorter(st: (Seq<i64>, Seq<usize>, Seq<usize>), x: i64, pl0: int, pi0: int, ph: int, n: int) -> ((Seq<i64>, Seq<usize>, Seq<usize>), Option<(int, int)>) {
    let rl_itr = st.2[pi0] as int;
    let rl_low = st.2[pl0] as int;
    let (rls1, ok) = if rl_itr == rl_low { (st.2, true) } else { ls_split(st.2, pl0, rl_low, rl_itr, n) };
    let st1 = (st.0, st.1, rls1);
    if !ok {
        (st1, None)
    } else if rl_itr > 0 && (rl_itr > n - pi0 || rl_itr > n - pl0) {
        (st1, None)
    } else {
        let st2 = if rl_itr > 0 { swap_all(st1, pi0, pl0, rl_itr as nat, false) } else { st1 };
        if rl_itr > n - pl0 {
            (st2, None)
        } else {
            ls_finish(st2, x, pl0, pl0 + rl_itr, pi0, ph, n)
        }
    }
}

/// What a step of the scan below `x` does to the column and where it leaves `p_low` and `p_itr`,
/// or `None` where the run lengths take it out of the column, into an overflow or to a standstill.
pub open spec fn ls_moved(st: (Seq<i64>, Seq<usize>, Seq<usize>), x: i64, pl0: int, pi0: int, ph: int, n: int) -> ((Seq<i64>, Seq<usize>, Seq<usize>), Option<(int, int)>) {
    let rl_itr = st.2[pi0];
    let rl_low = st.2[pl0];
    match pad_size_of(rl_itr, rl_low) {
        None => (st, None),
        Some(pad) => {
            if rl_itr > rl_low {
                ls_longer(st, x, pl0, pi0, ph, n, pad as int)
            } else {
                ls_shorter(st, x, pl0, pi0, ph, n)
            }
        },
    }
}

/// One step of the scan for a run of values below `x` at `p_itr`: the run is exchanged with the
/// front of the run at `p_low` (moving padding runs when it is longer), `p_low` moves past it and
/// on over the runs below `x`, and `p_itr` is kept at or after `p_low`. `None` stands for the
/// states in which the recorded run lengths would take the step out of the column, into an
/// overflow, or to a standstill.
#[verifier::spinoff_prover]
#[verifier::rlimit(60)]
fn low_step(c: &mut IntCol, x: i64, p_low0: usize, p_itr0: usize, p_high: usize) -> (r: Option<(usize, usize)>)
    requires
        rl_state(*old(c)),
        p_low0 <= p_itr0 < old(c).crk@.len(),
    ensures
        rl_state(*final(c)),
        rl_frame(*final(c), *old(c)),
        r matches Some((l, i)) ==> p_low0 < l <= i && l < final(c).crk@.len(),
        ({
            let (st, res) = ls_moved(run_state(*old(c)), x, p_low0 as int, p_itr0 as int, p_high as int, old(c).crk@.len() as int);
            run_state(*final(c)) == st && same_pair(r, res)
        }),
{
    let n = c.crk.len();
    let ghost st0 = run_state(*c);
    let ghost goal = ls_moved(st0, x, p_low0 as int, p_itr0 as int, p_high as int, n as int);
    let mut p_low = p_low0;
    let mut p_itr = p_itr0;
    let rl_itr = c.run_lengths[p_itr];
    let rl_low = c.run_lengths[p_low];
    let pad_size = match pad_between(rl_itr, rl_low) {
        Some(d) => d,
        None => {
            return None;
        },
    };
    if rl_itr > rl_low {
        if p_low > usize::MAX - rl_low || rl_itr > usize::MAX - p_low {
            return None;
        }
        let target = rl_itr + p_low;
        let mut p_pad = p_low + rl_low;
        loop
            invariant
                rl_state(*c),
                rl_frame(*c, *old(c)),
                n == c.crk@.len(),
                run_state(*c) == st0,
                st0 == run_state(*old(c)),
                ls_pad_walk(st0.2, n as int, p_pad as int, target as int) == ls_pad_walk(st0.2, n as int, (p_low + rl_low) as int, target as int),
                goal == ls_longer(st0, x, p_low0 as int, p_itr0 as int, p_high as int, n as int, pad_size as int),
                goal == ls_moved(st0, x, p_low0 as int, p_itr0 as int, p_high as int, n as int),
                p_low == p_low0,
                rl_low == st0.2[p_low0 as int],
                rl_itr == st0.2[p_itr0 as int],
                p_low + rl_low <= usize::MAX,
                target == rl_itr + p_low,
            ensures
                p_pad < n,
                ls_pad_walk(st0.2, n as int, (p_low + rl_low) as int, target as int) == Some(p_pad as int),
            decreases room(n as int, p_pad as int),
        {
            if p_pad >= n {
                return None;
            }
            let r = c.run_lengths[p_pad];
            if r > usize::MAX - p_pad {
                return None;
            }
            if !(p_pad + r < target) {
                break;
            }
            if r == 0 {
                return None;
            }
            p_pad += r;
        }
        if p_pad >= n {
            return None;
        }
        let rl_pad = c.run_lengths[p_pad];
        if rl_pad > usize::MAX - p_pad {
            return None;
        }
        if p_pad + rl_pad != target {
            set_run(c, p_pad, pad_size);
            if pad_size > usize::MAX - p_pad || p_pad + pad_size < 1 || p_pad + pad_size - 1 >= n {
                return None;
            }
            set_run(c, p_pad + pad_size - 1, pad_size);
            if p_pad + rl_pad < 1 || p_pad + rl_pad - 1 >= n {
                return None;
            }
            let cur = c.run_lengths[p_pad + rl_pad - 1];
            if cur < pad_size {
                return None;
            }
            set_run(c, p_pad + rl_pad - 1, cur - pad_size);
            if p_pad + pad_size >= n {
                return None;
            }
            let moved = c.run_lengths[p_pad + rl_pad - 1];
            set_run(c, p_pad + pad_size, moved);
        }
        if pad_size > 0 {
            if pad_size > usize::MAX - (p_low + rl_low) || p_low + rl_low + pad_size > n || pad_size > usize::MAX - p_itr || p_itr + pad_size > n {
                return None;
            }
            swap_runs(c, p_low + rl_low, p_itr, pad_size, false);
        }
        if pad_size > usize::MAX - p_itr {
            return None;
        }
        if rl_low > 0 {
            if p_low + rl_low > n || rl_low > usize::MAX - (p_itr + pad_size) || p_itr + pad_size + rl_low > n {
                return None;
            }
            swap_runs(c, p_low, p_itr + pad_size, rl_low, false);
        }
        p_low = target;
        p_itr = p_itr + pad_size;
    } else {
        let n_swaps = if rl_itr == rl_low {
            rl_itr
        } else {
            if p_low > usize::MAX - rl_low || p_low + rl_low < 1 || p_low + rl_low - 1 >= n {
                return None;
            }
            let cur = c.run_lengths[p_low + rl_low - 1];
            if cur < rl_itr {
                return None;
            }
            set_run(c, p_low + rl_low - 1, cur - rl_itr);
            if p_low + rl_itr >= n {
                return None;
            }
            let moved = c.run_lengths[p_low + rl_low - 1];
            set_run(c, p_low + rl_itr, moved);
            set_run(c, p_low, rl_itr);
            if p_low + rl_itr < 1 {
                return None;
            }
            set_run(c, p_low + rl_itr - 1, rl_itr);
            rl_itr
        };
        if n_swaps > 0 {
            if n_swaps > n - p_itr || n_swaps > n - p_low {
                return None;
            }
            swap_runs(c, p_itr, p_low, n_swaps, false);
        }
        if n_swaps > n - p_low {
            return None;
        }
        p_low = p_low + n_swaps;
    }
    let p_high_now = p_high;
    let tightened = match tighten_low(c, x, p_low, p_high_now) {
        Some(p) => p,
        None => {
            return None;
        },
    };
    p_low = tightened;
    if p_itr < p_low {
        p_itr = p_low;
    }
    if p_low <= p_low0 {
        return None;
    }
    Some((p_low, p_itr))
}

/// The run lengths after splitting the run that ends at `ph0`, of length `rl_high`, into the
/// rest and a back of length `rl_itr`, and whether that stayed in the column.
pub open spec fn hs_split_high(rls: Seq<usize>, ph0: int, rl_high: int, rl_itr: int, n: int) -> (Seq<usize>, bool) {
    if rl_high > ph0 || ph0 - rl_high + 1 >= n {
        (rls, false)
    } else {
        let at = ph0 - rl_high + 1;
        let cur = rls[at] as int;
        if cur < rl_itr {
            (rls, false)
        } else {
            let rls1 = rls.update(at, (cur - rl_itr) as usize);
            let rls3 = rls1.update(ph0 - rl_itr, rls1[at]).update(ph0, rl_itr as usize);
            if ph0 - rl_itr + 1 >= n {
                (rls3, false)
            } else {
                (rls3.update(ph0 - rl_itr + 1, rl_itr as usize), true)
            }
        }
    }
}

/// The run lengths after splitting the run at `pi`, of length `rl_itr`, into a front of length
/// `rl_high` and the rest, and whether that stayed in the column.
pub open spec fn hs_split_itr(rls: Seq<usize>, pi: int, rl_itr: int, rl_high: int, n: int) -> (Seq<usize>, bool) {
    if rl_itr + pi > usize::MAX || pi + rl_itr < 1 || pi + rl_itr - 1 >= n {
        (rls, false)
    } else {
        let cur = rls[pi + rl_itr - 1] as int;
        if cur < rl_high {
            (rls, false)
        } else {
            let rls1 = rls.update(pi + rl_itr - 1, (cur - rl_high) as usize);
            let rls3 = rls1.update(pi + rl_high, rls1[pi + rl_itr - 1]).update(pi, rl_high as usize);
            if pi + rl_high < 1 {
                (rls3, false)
            } else {
                (rls3.update(pi + rl_high - 1, rl_high as usize), true)
            }
        }
    }
}

/// What a step of the scan above `x` does to the column and where it leaves `p_high`, or `None`
/// where the run lengths take it out of the column, into an overflow or to a standstill.
pub open spec fn hs_moved(st: (Seq<i64>, Seq<usize>, Seq<usize>), x: i64, pl: int, pi: int, ph0: int, n: int) -> ((Seq<i64>, Seq<usize>, Seq<usize>), Option<int>) {
    let rl_itr = st.2[pi] as int;
    let rl_high = st.2[ph0] as int;
    let k = if rl_itr <= rl_high { rl_itr } else { rl_high };
    let (rls1, ok) = if rl_itr == rl_high {
        (st.2, true)
    } else if rl_itr < rl_high {
        hs_split_high(st.2, ph0, rl_high, rl_itr, n)
    } else {
        hs_split_itr(st.2, pi, rl_itr, rl_high, n)
    };
    let st1 = (st.0, st.1, rls1);
    if !ok {
        (st1, None)
    } else if k > 0 && (k > n - pi || k > ph0 + 1) {
        (st1, None)
    } else {
        let st2 = if k > 0 { swap_all(st1, pi, ph0, k as nat, true) } else { st1 };
        if k > ph0 {
            (st2, None)
        } else {
            let (rls, t) = th_walk(st2.0, st2.2, x, pl, ph0 - k, n);
            let st3 = (st2.0, st2.1, rls);
            match t {
                None => (st3, None),
                Some(h) => if h >= ph0 { (st3, None) } else { (st3, Some(h)) },
            }
        }
    }
}

/// One step of the scan for a run of values above `x` at `p_itr`: the shorter of the runs at
/// `p_itr` and `p_high` (the longer one split) is exchanged towards `p_high`, which moves back
/// past it and on over the runs above `x`. `None` stands for the states in which the recorded
/// run lengths would take the step out of the column, into an overflow, or to a standstill.
#[verifier::spinoff_prover]
#[verifier::rlimit(60)]
fn high_step(c: &mut IntCol, x: i64, p_low: usize, p_itr: usize, p_high0: usize) -> (r: Option<usize>)
    requires
        rl_state(*old(c)),
        p_itr <= p_high0 < old(c).crk@.len(),
    ensures
        rl_state(*final(c)),
        rl_frame(*final(c), *old(c)),
        r matches Some(h) ==> h < p_high0,
        ({
            let (st, res) = hs_moved(run_state(*old(c)), x, p_low as int, p_itr as int, p_high0 as int, old(c).crk@.len() as int);
            run_state(*final(c)) == st && same_pos(r, res)
        }),
{
    let n = c.crk.len();
    let rl_itr = c.run_lengths[p_itr];
    let rl_high = c.run_lengths[p_high0];
    let n_swaps = if rl_itr == rl_high {
        rl_itr
    } else if rl_itr < rl_high {
        if rl_high > p_high0 || p_high0 - rl_high + 1 >= n {
            return None;
        }
        let at = p_high0 - rl_high + 1;
        let cur = c.run_lengths[at];
        if cur < rl_itr {
            return None;
        }
        set_run(c, at, cur - rl_itr);
        let moved = c.run_lengths[at];
        set_run(c, p_high0 - rl_itr, moved);
        set_run(c, p_high0, rl_itr);
        if p_high0 - rl_itr + 1 >= n {
            return None;
        }
        set_run(c, p_high0 - rl_itr + 1, rl_itr);
        rl_itr
    } else {
        if rl_itr > usize::MAX - p_itr || p_itr + rl_itr < 1 || p_itr + rl_itr - 1 >= n {
            return None;
        }
        let cur = c.run_lengths[p_itr + rl_itr - 1];
        if cur < rl_high {
            return None;
        }
        set_run(c, p_itr + rl_itr - 1, cur - rl_high);
        let moved = c.run_lengths[p_itr + rl_itr - 1];
        set_run(c, p_itr + rl_high, moved);
        set_run(c, p_itr, rl_high);
        if p_itr + rl_high < 1 {
            return None;
        }
        set_run(c, p_itr + rl_high - 1, rl_high);
        rl_high
    };
    if n_swaps > 0 {
        if n_swaps > n - p_itr || n_swaps > p_high0 + 1 {
            return None;
        }
        swap_runs(c, p_itr, p_high0, n_swaps, true);
    }
    if n_swaps > p_high0 {
        return None;
    }
    let p_high = p_high0 - n_swaps;
    let tightened = match tighten_high(c, x, p_low, p_high) {
        Some(p) => p,
        None => {
            return None;
        },
    };
    if tightened >= p_high0 {
        return None;
    }
    Some(tightened)
}

/// The run length `1` for each of `n` positions.
pub open spec fn ones_seq(n: nat) -> Seq<usize> {
    Seq::new(n, |i: int| 1usize)
}

/// The run length `1` for each of `n` positions.
fn ones(n: usize) -> (r: Vec<usize>)
    ensures
        r@ == ones_seq(n as nat),
{
    let mut r: Vec<usize> = Vec::with_capacity(n);
    let mut i: usize = 0;
    while i < n
        invariant
            i <= n,
            r@.len() == i,
            forall|j: int| 0 <= j < i ==> #[trigger] r@[j] == 1,
        decreases n - i,
    {
        r.push(1);
        i += 1;
    }
    assert(r@ =~= ones_seq(n as nat));
    r
}

/// How far `p` is below `hi`, or nothing once it is not.
pub open spec fn gap(hi: int, p: int) -> nat {
    if p < hi { (hi - p) as nat } else { 0 }
}

/// `t` holds the columns' values at the base rows listed in positions `a..b` of `base`.
pub open spec fn rows_slice_selection(t: OverswapRLETable, cols: Seq<(String, IntCol)>, base: Seq<usize>, a: int, b: int) -> bool {
    &&& 0 <= a <= b <= base.len()
    &&& t.count == b - a
    &&& is_col_selection(t.columns@, cols, base.subrange(a, b))
}

/// `t` holds the rows at positions `a..b` of the base rows, and each of those rows holds `x` in
/// the cracker column `v`.
pub open spec fn answers_rows_of(t: OverswapRLETable, cols: Seq<(String, IntCol)>, v: Seq<i64>, base: Seq<usize>, a: int, b: int, x: i64) -> bool {
    &&& rows_slice_selection(t, cols, base, a, b)
    &&& t.crk_col.v@ == gather(v, base.subrange(a, b))
    &&& forall|j: int| a <= j < b ==> v[#[trigger] base[j] as int] == x
}

/// The position that the largest key of `m` not above `key` records, if there is one.
pub open spec fn lower_entry(m: Map<i64, usize>, key: i64) -> Option<usize> {
    if exists|k: i64| is_max_at_most(m, key, k) {
        Some(m[choose|k: i64| is_max_at_most(m, key, k)])
    } else {
        None
    }
}

/// The position that the least key of `m` not below `key` records, if there is one.
pub open spec fn upper_entry(m: Map<i64, usize>, key: i64) -> Option<usize> {
    if exists|k: i64| is_min_at_least(m, key, k) {
        Some(m[choose|k: i64| is_min_at_least(m, key, k)])
    } else {
        None
    }
}

/// What the index's `lower_bound` answers is the entry of the largest key not above `key`.
pub proof fn lemma_lower_entry(m: Map<i64, usize>, key: i64, r: Option<usize>)
    requires
        match r {
            Some(d) => exists|k: i64| is_max_at_most(m, key, k) && d == m[k],
            None => forall|k: i64| #[trigger] m.dom().contains(k) ==> k > key,
        },
    ensures
        r == lower_entry(m, key),
{
    match r {
        Some(d) => {
            let k = choose|k: i64| is_max_at_most(m, key, k) && d == m[k];
            let k2 = choose|k: i64| is_max_at_most(m, key, k);
            assert(k >= k2 && k2 >= k);
        },
        None => {
            if exists|k: i64| is_max_at_most(m, key, k) {
                let k = choose|k: i64| is_max_at_most(m, key, k);
                assert(m.dom().contains(k));
            }
        },
    }
}

/// What the index's `upper_bound` answers is the entry of the least key not below `key`.
pub proof fn lemma_upper_entry(m: Map<i64, usize>, key: i64, r: Option<usize>)
    requires
        match r {
            Some(d) => exists|k: i64| is_min_at_least(m, key, k) && d == m[k],
            None => forall|k: i64| #[trigger] m.dom().contains(k) ==> k < key,
        },
    ensures
        r == upper_entry(m, key),
{
    match r {
        Some(d) => {
            let k = choose|k: i64| is_min_at_least(m, key, k) && d == m[k];
            let k2 = choose|k: i64| is_min_at_least(m, key, k);
            assert(k <= k2 && k2 <= k);
        },
        None => {
            if exists|k: i64| is_min_at_least(m, key, k) {
                let k = choose|k: i64| is_min_at_least(m, key, k);
                assert(m.dom().contains(k));
            }
        },
    }
}

/// A step below moves `p_low` forward and keeps `p_itr` at or after it.
pub proof fn lemma_ls_moved_moves(st: (Seq<i64>, Seq<usize>, Seq<usize>), x: i64, pl0: int, pi0: int, ph: int, n: int)
    ensures
        ls_moved(st, x, pl0, pi0, ph, n).1 matches Some((l, i)) ==> pl0 < l <= i,
{
}

/// A step above moves `p_high` back.
pub proof fn lemma_hs_moved_moves(st: (Seq<i64>, Seq<usize>, Seq<usize>), x: i64, pl: int, pi: int, ph0: int, n: int)
    ensures
        hs_moved(st, x, pl, pi, ph0, n).1 matches Some(h) ==> h < ph0,
{
}

/// The scan of a lookup of `x` from `pl`, `pi` and `ph`, step by step as the main loop of
/// `cracker_select_specific` runs it: the cracked column, its base rows and run lengths after
/// it, and where it leaves `p_low` and `p_high`; `None` where a step or a run length would take
/// it out of the column, into an overflow or to a standstill.
pub open spec fn ov_scan(st: (Seq<i64>, Seq<usize>, Seq<usize>), x: i64, pl: int, pi: int, ph: int, n: int) -> ((Seq<i64>, Seq<usize>, Seq<usize>), Option<(int, int)>)
    decreases gap(ph + 1, pl), gap(ph + 1, pi),
{
    if !(0 <= pl <= pi && pl < n && 0 <= ph < n && st.0.len() == n && st.2.len() == n) {
        (st, None)
    } else if pi > ph {
        (st, Some((pl, ph)))
    } else if st.0[pi] < x {
        let (st2, r) = ls_moved(st, x, pl, pi, ph, n);
        match r {
            None => (st2, None),
            Some((l, i)) => {
                proof {
                    lemma_ls_moved_moves(st, x, pl, pi, ph, n);
                }
                ov_scan(st2, x, l, i, ph, n)
            },
        }
    } else if st.0[pi] > x {
        let (st2, r) = hs_moved(st, x, pl, pi, ph, n);
        match r {
            None => (st2, None),
            Some(h) => {
                proof {
                    lemma_hs_moved_moves(st, x, pl, pi, ph, n);
                }
                ov_scan(st2, x, pl, pi, h, n)
            },
        }
    } else {
        let r = st.2[pi] as int;
        if r == 0 || r > usize::MAX - pi {
            (st, None)
        } else {
            ov_scan(st, x, pl, pi + r, ph, n)
        }
    }
}

/// The cracked column, base rows and run lengths that a lookup starts from: the column's own,
/// or, before its first lookup, its values with the base rows in order and runs of one row.
pub open spec fn start_state(c: IntCol, count: nat) -> (Seq<i64>, Seq<usize>, Seq<usize>) {
    if c.crk@.len() == 0 { (c.v@, crate::crack::iota_seq(count), ones_seq(count)) } else { run_state(c) }
}

/// The end of a lookup of `x` after the scan `scanned`: when the scan found its ends, they are
/// recorded in `idx` for `x` and `x + 1`, and the stretch between them is answered when it holds
/// `x` throughout.
pub open spec fn ov_tail(scanned: ((Seq<i64>, Seq<usize>, Seq<usize>), Option<(int, int)>), idx: Map<i64, usize>, x: i64) -> ((Seq<i64>, Seq<usize>, Seq<usize>), Map<i64, usize>, Option<(int, int)>) {
    let (st3, r) = scanned;
    match r {
        None => (st3, idx, None),
        Some((l, h)) => {
            let idx2 = idx.insert(x, l as usize).insert((x + 1) as i64, (h + 1) as usize);
            if l > h + 1 {
                (st3, idx2, None)
            } else if forall|i: int| l <= i < h + 1 ==> #[trigger] st3.0[i] == x {
                (st3, idx2, Some((l, h + 1)))
            } else {
                (st3, idx2, None)
            }
        },
    }
}

/// A lookup of `x` from the state `st` and the index `idx` of a table of `count` rows: the state
/// and the index after it, and the stretch of positions it answers with (`None`: no rows). The
/// ends found in the index are tightened over whole runs below and above `x`; a single position
/// left is answered when it holds `x`; otherwise the scan partitions the runs between the ends,
/// the ends are recorded for `x` and `x + 1`, and the stretch between them is answered when it
/// holds `x` throughout.
pub open spec fn ov_lookup(st: (Seq<i64>, Seq<usize>, Seq<usize>), idx: Map<i64, usize>, x: i64, count: int) -> ((Seq<i64>, Seq<usize>, Seq<usize>), Map<i64, usize>, Option<(int, int)>) {
    let n = st.0.len() as int;
    let pl0 = match lower_entry(idx, x) { Some(p) => p as int, None => 0 };
    let ub = match upper_entry(idx, (x + 1) as i64) { Some(p) => p as int, None => count };
    if n == 0 || pl0 == count || ub == 0 {
        (st, idx, None)
    } else {
        let (rls1, t1) = tl_walk(st.0, st.2, x, pl0, ub - 1, n);
        match t1 {
            None => ((st.0, st.1, rls1), idx, None),
            Some(pl) => {
                let (rls2, t2) = th_walk(st.0, rls1, x, pl, ub - 1, n);
                let st2 = (st.0, st.1, rls2);
                match t2 {
                    None => (st2, idx, None),
                    Some(ph) => {
                        if pl == ph {
                            if st.0[pl] == x { (st2, idx, Some((pl, pl + 1))) } else { (st2, idx, None) }
                        } else {
                            ov_tail(ov_scan(st2, x, pl, pl, ph, n), idx, x)
                        }
                    },
                }
            },
        }
    }
}

/// Whether every position in `a..b` of `crk` holds `x`.
fn all_equal(crk: &Vec<i64>, a: usize, b: usize, x: i64) -> (r: bool)
    requires
        a <= b <= crk@.len(),
    ensures
        r == forall|i: int| a <= i < b ==> #[trigger] crk@[i] == x,
{
    let mut j = a;
    while j < b
        invariant
            a <= j <= b <= crk@.len(),
            forall|i: int| a <= i < j ==> #[trigger] crk@[i] == x,
        decreases b - j,
    {
        if crk[j] != x {
            return false;
        }
        j += 1;
    }
    true
}

impl OverswapRLETable {
    /// The table is set up for lookups: every column has a value per row, and once cracked, the
    /// cracker column has a cracked value, a base row and a run length per row, pairs each
    /// position with the base row its value came from, and lists every base row once.
    pub open spec fn select_ready(&self) -> bool {
        &&& self.crk_col.crk_idx.wf()
        &&& self.crk_col.v@.len() == self.count
        &&& forall|i: int| 0 <= i < self.columns@.len() ==> (#[trigger] self.columns@[i]).1.v@.len() == self.count
        &&& self.crk_col.crk@.len() > 0 ==> self.crk_col.crk@.len() == self.count && rl_state(self.crk_col)
    }

    pub fn new() -> (r: OverswapRLETable)
        ensures
            r.count == 0,
            is_fresh(r.crk_col),
            r.columns@ == Seq::<(String, IntCol)>::empty(),
            !r.dbg_switch,
    {
        OverswapRLETable { count: 0, crk_col: IntCol::empty(), columns: Vec::new(), dbg_switch: false }
    }

    /// Gives every listed name an empty column, replacing a column of that name if there is one.
    pub fn new_columns(&mut self, col_names: Vec<&str>)
        requires
            names_distinct(old(self).columns@),
        ensures
            final(self).count == old(self).count,
            final(self).crk_col == old(self).crk_col,
            final(self).columns@.len() >= old(self).columns@.len(),
            forall|i: int| 0 <= i < old(self).columns@.len() ==> {
                &&& (#[trigger] final(self).columns@[i]).0 == old(self).columns@[i].0
                &&& if named_in_strs(col_names@, old(self).columns@[i].0@) {
                    is_fresh(final(self).columns@[i].1)
                } else {
                    final(self).columns@[i].1 == old(self).columns@[i].1
                }
            },
            forall|i: int| old(self).columns@.len() <= i < final(self).columns@.len() ==>
                is_fresh((#[trigger] final(self).columns@[i]).1) && named_in_strs(col_names@, final(self).columns@[i].0@),
            forall|j: int| 0 <= j < col_names@.len() ==> has_name(final(self).columns@, (#[trigger] col_names@[j])@),
            names_distinct(final(self).columns@),
    {
        let ghost before = self.columns@;
        let ghost names = col_names@;
        let mut j: usize = 0;
        while j < col_names.len()
            invariant
                j <= names.len(),
                col_names@ == names,
                self.count == old(self).count,
                self.crk_col == old(self).crk_col,
                before == old(self).columns@,
                self.columns@.len() >= before.len(),
                forall|i: int| 0 <= i < before.len() ==> {
                    &&& (#[trigger] self.columns@[i]).0 == before[i].0
                    &&& if named_in_strs(names.subrange(0, j as int), before[i].0@) {
                        is_fresh(self.columns@[i].1)
                    } else {
                        self.columns@[i].1 == before[i].1
                    }
                },
                forall|i: int| before.len() <= i < self.columns@.len() ==>
                    is_fresh((#[trigger] self.columns@[i]).1) && named_in_strs(names.subrange(0, j as int), self.columns@[i].0@),
                forall|k: int| 0 <= k < j ==> has_name(self.columns@, (#[trigger] names[k])@),
                names_distinct(before),
                names_distinct(self.columns@),
            decreases names.len() - j,
        {
            let ghost prev = self.columns@;
            let ghost sub0 = names.subrange(0, j as int);
            let ghost sub1 = names.subrange(0, j + 1);
            proof {
                assert forall|n: Seq<char>| named_in_strs(sub0, n) implies named_in_strs(sub1, n) by {
                    let k = choose|k: int| 0 <= k < sub0.len() && (#[trigger] sub0[k])@ == n;
                    assert(sub1[k] == sub0[k]);
                }
                assert(sub1[j as int] == names[j as int]);
                assert(named_in_strs(sub1, names[j as int]@));
                assert forall|n: Seq<char>| named_in_strs(sub1, n) && n != names[j as int]@ implies named_in_strs(sub0, n) by {
                    let k = choose|k: int| 0 <= k < sub1.len() && (#[trigger] sub1[k])@ == n;
                    assert(sub0[k] == sub1[k]);
                }
            }
            let name_ref: &str = col_names[j];
            match find_col(&self.columns, name_ref) {
                Some(i) => {
                    self.columns[i].1 = IntCol::empty();
                    proof {
                        assert(self.columns@[i as int].0@ == names[j as int]@);
                        assert forall|k: int| 0 <= k <= j implies has_name(self.columns@, (#[trigger] names[k])@) by {
                            if k < j {
                                let i2 = choose|i2: int| 0 <= i2 < prev.len() && (#[trigger] prev[i2]).0@ == names[k]@;
                                assert(self.columns@[i2].0 == prev[i2].0);
                            }
                        }
                        assert forall|i2: int| 0 <= i2 < before.len() implies {
                            &&& (#[trigger] self.columns@[i2]).0 == before[i2].0
                            &&& if named_in_strs(sub1, before[i2].0@) {
                                is_fresh(self.columns@[i2].1)
                            } else {
                                self.columns@[i2].1 == before[i2].1
                            }
                        } by {
                            if i2 == i {
                                assert(before[i2].0@ == names[j as int]@);
                            } else {
                                assert(self.columns@[i2] == prev[i2]);
                                assert(prev[i2].0@ != prev[i as int].0@);
                            }
                        }
                        assert forall|i2: int| before.len() <= i2 < self.columns@.len() implies
                            is_fresh((#[trigger] self.columns@[i2]).1) && named_in_strs(sub1, self.columns@[i2].0@) by {
                            if i2 != i {
                                assert(self.columns@[i2] == prev[i2]);
                            }
                        }
                    }
                },
                None => {
                    let nm = String::from_str(col_names[j]);
                    self.columns.push((nm, IntCol::empty()));
                    proof {
                        let last = self.columns@.len() - 1;
                        assert(self.columns@[last].0@ == names[j as int]@);
                        assert forall|k: int| 0 <= k <= j implies has_name(self.columns@, (#[trigger] names[k])@) by {
                            if k < j {
                                let i2 = choose|i2: int| 0 <= i2 < prev.len() && (#[trigger] prev[i2]).0@ == names[k]@;
                                assert(self.columns@[i2] == prev[i2]);
                            } else {
                                assert(self.columns@[last].0@ == names[k]@);
                            }
                        }
                        assert forall|i2: int| 0 <= i2 < before.len() implies {
                            &&& (#[trigger] self.columns@[i2]).0 == before[i2].0
                            &&& if named_in_strs(sub1, before[i2].0@) {
                                is_fresh(self.columns@[i2].1)
                            } else {
                                self.columns@[i2].1 == before[i2].1
                            }
                        } by {
                            assert(self.columns@[i2] == prev[i2]);
                            assert(prev[i2].0@ != names[j as int]@);
                        }
                        {
                            assert forall|a: int, b: int| 0 <= a < self.columns@.len() && 0 <= b < self.columns@.len() && a != b
                                implies (#[trigger] self.columns@[a]).0@ != (#[trigger] self.columns@[b]).0@ by {
                                if a < last && b < last {
                                    assert(self.columns@[a] == prev[a]);
                                    assert(self.columns@[b] == prev[b]);
                                } else if a == last {
                                    assert(self.columns@[b] == prev[b]);
                                } else {
                                    assert(self.columns@[a] == prev[a]);
                                }
                            }
                        }
                    }
                },
            }
            j += 1;
        }
        proof {
            assert(names.subrange(0, names.len() as int) =~= names);
        }
    }

    /// Makes a copy of the column `col_name` the cracker column.
    pub fn set_crk_col(&mut self, col_name: &str)
        requires
            has_name(old(self).columns@, col_name@),
        ensures
            final(self).count == old(self).count,
            final(self).columns == old(self).columns,
            final(self).dbg_switch == old(self).dbg_switch,
            final(self).crk_col.v@ == col_named(old(self).columns@, col_name@).v@,
            final(self).crk_col.crk@ == col_named(old(self).columns@, col_name@).crk@,
            final(self).crk_col.crk_idx == col_named(old(self).columns@, col_name@).crk_idx,
            final(self).crk_col.base_idx@ == col_named(old(self).columns@, col_name@).base_idx@,
            final(self).crk_col.ofs@ == col_named(old(self).columns@, col_name@).ofs@,
            final(self).crk_col.run_lengths@ == col_named(old(self).columns@, col_name@).run_lengths@,
    {
        match find_col(&self.columns, col_name) {
            Some(i) => {
                proof {
                    lemma_col_named(self.columns@, col_name@, i as int);
                }
                self.crk_col = self.columns[i].1.clone();
            },
            None => {
                proof {
                    assert(false);
                }
            },
        }
    }

    /// The column named `col`.
    pub fn get_col(&self, col: &str) -> (r: &IntCol)
        requires
            has_name(self.columns@, col@),
        ensures
            *r == col_named(self.columns@, col@),
    {
        match find_col(&self.columns, col) {
            Some(i) => {
                proof {
                    lemma_col_named(self.columns@, col@, i as int);
                }
                &self.columns[i].1
            },
            None => {
                proof {
                    assert(false);
                }
                &self.crk_col
            },
        }
    }

    /// Appends to every column the values the batch holds under its name; the row count grows
    /// by the length of the first non-empty of them.
    pub fn insert(&mut self, new_values: Vec<(&str, Vec<i64>)>)
        requires
            batch_distinct(new_values@),
            batch_names_all(new_values@, old(self).columns@),
            lengths_agree(batch_lengths(old(self).columns@, new_values@)),
            old(self).count + run_len(batch_lengths(old(self).columns@, new_values@)) <= usize::MAX,
        ensures
            final(self).count == old(self).count + run_len(batch_lengths(old(self).columns@, new_values@)),
            final(self).crk_col == old(self).crk_col,
            final(self).columns@.len() == old(self).columns@.len(),
            forall|i: int| 0 <= i < old(self).columns@.len() ==> {
                let c = old(self).columns@[i].1;
                let d = (#[trigger] final(self).columns@[i]).1;
                &&& final(self).columns@[i].0 == old(self).columns@[i].0
                &&& d.v@ == c.v@ + data_for(new_values@, old(self).columns@[i].0@)
                &&& d.crk == c.crk
                &&& d.crk_idx == c.crk_idx
                &&& d.base_idx == c.base_idx
                &&& d.ofs == c.ofs
                &&& d.run_lengths == c.run_lengths
            },
    {
        let ghost ins = new_values@;
        let ghost before = self.columns@;
        let ghost ls = batch_lengths(before, ins);
        let mut n_new_tuples: usize = 0;
        let mut i: usize = 0;
        while i < self.columns.len()
            invariant
                new_values@ == ins,
                before == old(self).columns@,
                ls == batch_lengths(before, ins),
                batch_distinct(ins),
                batch_names_all(ins, before),
                lengths_agree(ls),
                old(self).count + run_len(ls) <= usize::MAX,
                self.count == old(self).count,
                self.crk_col == old(self).crk_col,
                self.columns@.len() == before.len(),
                i <= before.len(),
                n_new_tuples == run_len(ls.subrange(0, i as int)),
                forall|k: int| 0 <= k < before.len() ==> {
                    let c = before[k].1;
                    let d = (#[trigger] self.columns@[k]).1;
                    &&& self.columns@[k].0 == before[k].0
                    &&& d.v@ == if k < i { c.v@ + data_for(ins, before[k].0@) } else { c.v@ }
                    &&& d.crk == c.crk
                    &&& d.crk_idx == c.crk_idx
                    &&& d.base_idx == c.base_idx
                    &&& d.ofs == c.ofs
                    &&& d.run_lengths == c.run_lengths
                },
            decreases before.len() - i,
        {
            let j = match find_entry(&new_values, &self.columns[i].0) {
                Some(j) => j,
                None => {
                    proof {
                        let j2 = choose|j2: int| 0 <= j2 < ins.len() && (#[trigger] ins[j2]).0@ == (#[trigger] before[i as int]).0@;
                        assert(ins[j2].0@ == before[i as int].0@);
                    }
                    return;
                },
            };
            proof {
                lemma_data_for_entry(ins, j as int);
                lemma_run_len_prefix(ls, i as int);
                lemma_run_len_witness(ls.subrange(0, i as int));
                if n_new_tuples != 0 {
                    let f = choose|f: int| 0 <= f < i && ls.subrange(0, i as int)[f] == n_new_tuples && ls.subrange(0, i as int)[f] != 0;
                    assert(ls[f] == ls.subrange(0, i as int)[f]);
                    assert(ls[i as int] == ls[f]);
                }
                assert(ls[i as int] == new_values@[j as int].1@.len());
            }
            let n = new_values[j].1.len();
            let mut data = copy_vec(&new_values[j].1);
            self.columns[i].1.v.append(&mut data);
            if n_new_tuples == 0 {
                n_new_tuples = n;
            }
            i += 1;
        }
        proof {
            assert(ls.subrange(0, before.len() as int) =~= ls);
        }
        self.count = self.count + n_new_tuples;
    }

    /// The rows listed in `indices`, in that order, as a new table whose cracker column holds
    /// the matching cracked values under a fresh index.
    pub fn get_indices(&self, indices: &[usize]) -> (t: OverswapRLETable)
        requires
            rows_in_cols(self.columns@, indices@),
            all_below(indices@, self.crk_col.v@.len() as int),
            self.crk_col.crk@.len() > 0 ==> all_below(indices@, self.crk_col.crk@.len() as int),
        ensures
            t.count == indices@.len(),
            is_col_selection(t.columns@, self.columns@, indices@),
            t.crk_col.v@ == gather(self.crk_col.v@, indices@),
            t.crk_col.crk@ == if self.crk_col.crk@.len() > 0 { gather(self.crk_col.crk@, indices@) } else { Seq::<i64>::empty() },
            t.crk_col.crk_idx.wf(),
            t.crk_col.crk_idx@ == Map::<i64, usize>::empty(),
            t.crk_col.base_idx@ == Seq::<usize>::empty(),
            t.crk_col.ofs@ == Seq::<usize>::empty(),
            t.crk_col.run_lengths@ == Seq::<usize>::empty(),
            !t.dbg_switch,
    {
        let selection = select_columns(&self.columns, indices);
        let mut t = OverswapRLETable::new();
        t.columns = selection;
        t.count = indices.len();
        if self.crk_col.crk.len() > 0 {
            t.crk_col.crk = crate::crack::gather_vec(&self.crk_col.crk, indices);
            t.crk_col.crk_idx = AVLCrackerIndex::new();
        }
        t.crk_col.v = crate::crack::gather_vec(&self.crk_col.v, indices);
        t
    }

    /// Keeps, in every column and in the cracker column, the rows listed in `indices`, in that
    /// order; the cracked copies and the cracker index are dropped.
    pub fn rearrange(&mut self, indices: &[usize])
        requires
            rows_in_cols(old(self).columns@, indices@),
            all_below(indices@, old(self).crk_col.v@.len() as int),
        ensures
            final(self).count == old(self).count,
            is_col_selection(final(self).columns@, old(self).columns@, indices@),
            final(self).crk_col.v@ == gather(old(self).crk_col.v@, indices@),
            final(self).crk_col.crk@ == Seq::<i64>::empty(),
            final(self).crk_col.crk_idx.wf(),
            final(self).crk_col.crk_idx@ == Map::<i64, usize>::empty(),
            final(self).crk_col.base_idx@ == Seq::<usize>::empty(),
            final(self).crk_col.ofs@ == Seq::<usize>::empty(),
            final(self).crk_col.run_lengths@ == Seq::<usize>::empty(),
    {
        let selection = select_columns(&self.columns, indices);
        self.columns = selection;
        self.crk_col.rearrange(indices);
    }

    /// The rows listed in positions `a..b` of the cracker column's base rows.
    fn slice_rows(&self, a: usize, b: usize) -> (t: OverswapRLETable)
        requires
            self.select_ready(),
            a <= b <= self.crk_col.base_idx@.len(),
            self.crk_col.crk@.len() > 0,
        ensures
            rows_slice_selection(t, self.columns@, self.crk_col.base_idx@, a as int, b as int),
            t.crk_col.v@ == gather(self.crk_col.v@, self.crk_col.base_idx@.subrange(a as int, b as int)),
    {
        let rows = copy_range(&self.crk_col.base_idx, a, b);
        proof {
            let c = self.crk_col;
            assert forall|j: int| 0 <= j < rows@.len() implies (#[trigger] rows@[j]) < self.count by {
                assert(rows@[j] == c.base_idx@[a + j]);
            }
            assert forall|i: int| 0 <= i < self.columns@.len() implies all_below(rows@, (#[trigger] self.columns@[i]).1.v@.len() as int) by {
            }
        }
        self.get_indices(rows.as_slice())
    }

    /// No rows, as the answer of a lookup of `x`.
    fn no_rows_for(&self, Ghost(x): Ghost<i64>) -> (t: OverswapRLETable)
        requires
            self.select_ready(),
        ensures
            rows_slice_selection(t, self.columns@, self.crk_col.base_idx@, 0, 0),
            answers_rows_of(t, self.columns@, self.crk_col.v@, self.crk_col.base_idx@, 0, 0, x),
    {
        let t = self.no_rows();
        proof {
            assert(gather(self.crk_col.v@, self.crk_col.base_idx@.subrange(0, 0)) =~= Seq::<i64>::empty());
        }
        t
    }

    /// No rows: the selection answered when nothing is found.
    fn no_rows(&self) -> (t: OverswapRLETable)
        requires
            self.select_ready(),
        ensures
            rows_slice_selection(t, self.columns@, self.crk_col.base_idx@, 0, 0),
            t.crk_col.v@ == Seq::<i64>::empty(),
    {
        let none: Vec<usize> = Vec::new();
        proof {
            assert(self.crk_col.base_idx@.subrange(0, 0) =~= none@);
        }
        self.get_indices(none.as_slice())
    }

    /// Looks up the rows whose cracker value is `x`. The cracker column is cracked run by run:
    /// the ends of the range move over whole runs of values below or above `x` (merging
    /// neighbouring runs of one value), runs below `x` are exchanged to the front and runs above
    /// it to the back, and the range found is recorded in the index as the entries of `x` and
    /// `x + 1`. The answer is the stretch of base rows between them. A state in which the
    /// recorded run lengths would lead the walk outside the column, into an overflow,
    /// or into a scan that stops advancing, is answered with no rows. What the lookup leaves and
    /// answers is `ov_lookup` of the state it starts from.
    #[verifier::rlimit(100)]
    pub fn cracker_select_specific(&mut self, x: i64) -> (t: OverswapRLETable)
        requires
            old(self).select_ready(),
            x < i64::MAX,
        ensures
            final(self).select_ready(),
            final(self).count == old(self).count,
            final(self).columns == old(self).columns,
            final(self).dbg_switch == old(self).dbg_switch,
            final(self).crk_col.v == old(self).crk_col.v,
            old(self).count > 0 ==> final(self).crk_col.crk@.len() == old(self).count,
            exists|a: int, b: int| rows_slice_selection(t, old(self).columns@, final(self).crk_col.base_idx@, a, b),
            exists|a: int, b: int| answers_rows_of(t, old(self).columns@, old(self).crk_col.v@, final(self).crk_col.base_idx@, a, b, x),
            old(self).count == 0 ==> t.count == 0,
            ({
                let (st, m, res) = ov_lookup(start_state(old(self).crk_col, old(self).count as nat), old(self).crk_col.crk_idx@, x, old(self).count as int);
                &&& run_state(final(self).crk_col) == st
                &&& final(self).crk_col.crk_idx@ == m
                &&& match res {
                    Some((a, b)) => answers_rows_of(t, old(self).columns@, old(self).crk_col.v@, final(self).crk_col.base_idx@, a, b, x),
                    None => t.count == 0,
                }
            }),
    {
        if self.crk_col.crk.len() == 0 {
            self.crk_col.crk = copy_vec(&self.crk_col.v);
            self.crk_col.base_idx = iota(self.count);
            self.crk_col.run_lengths = ones(self.count);
            proof {
                let c = self.crk_col;
                assert forall|i: int| 0 <= i < c.crk@.len() implies (#[trigger] c.base_idx@[i]) < c.v@.len() && c.crk@[i] == c.v@[c.base_idx@[i] as int] by {
                    assert(c.base_idx@[i] == i);
                }
                assert forall|i: int, j: int| 0 <= i < c.base_idx@.len() && 0 <= j < c.base_idx@.len() && i != j implies #[trigger] c.base_idx@[i] != #[trigger] c.base_idx@[j] by {
                    assert(c.base_idx@[i] == i && c.base_idx@[j] == j);
                }
            }
        }
        let ghost st0 = run_state(self.crk_col);
        let ghost idx0 = self.crk_col.crk_idx@;
        let ghost goal = ov_lookup(st0, idx0, x, self.count as int);
        proof {
            assert(st0 == start_state(old(self).crk_col, old(self).count as nat));
        }
        if self.crk_col.crk.len() == 0 {
            return self.no_rows_for(Ghost(x));
        }
        let n = self.crk_col.crk.len();
        let lb = self.crk_col.crk_idx.lower_bound(&x);
        proof {
            lemma_lower_entry(idx0, x, lb);
        }
        let p_low0: usize = match lb {
            Some(p) => p,
            None => 0,
        };
        if p_low0 == self.count {
            return self.no_rows_for(Ghost(x));
        }
        let ubr = self.crk_col.crk_idx.upper_bound(&(x + 1));
        proof {
            lemma_upper_entry(idx0, (x + 1) as i64, ubr);
        }
        let ub: usize = match ubr {
            Some(p) => p,
            None => self.count,
        };
        if ub == 0 {
            return self.no_rows_for(Ghost(x));
        }
        let p_high0 = ub - 1;
        let mut p_low = match tighten_low(&mut self.crk_col, x, p_low0, p_high0) {
            Some(p) => p,
            None => {
                return self.no_rows_for(Ghost(x));
            },
        };
        let mut p_high = match tighten_high(&mut self.crk_col, x, p_low, p_high0) {
            Some(p) => p,
            None => {
                return self.no_rows_for(Ghost(x));
            },
        };
        let ghost st2 = run_state(self.crk_col);
        proof {
            assert(st2.0 == st0.0 && st2.1 == st0.1);
        }
        if p_low == p_high {
            if self.crk_col.crk[p_low] == x {
                let t = self.slice_rows(p_low, p_low + 1);
                proof {
                    self.lemma_stretch_holds(p_low as int, p_low + 1, x);
                    assert(answers_rows_of(t, self.columns@, self.crk_col.v@, self.crk_col.base_idx@, p_low as int, p_low + 1, x));
                }
                return t;
            }
            return self.no_rows_for(Ghost(x));
        }
        let ghost scan = ov_scan(st2, x, p_low as int, p_low as int, p_high as int, n as int);
        proof {
            assert(goal == ov_tail(scan, idx0, x));
        }
        let mut p_itr = p_low;
        loop
            invariant
                self.select_ready(),
                self.count == old(self).count,
                self.columns == old(self).columns,
                self.dbg_switch == old(self).dbg_switch,
                self.crk_col.v == old(self).crk_col.v,
                self.crk_col.crk_idx@ == idx0,
                self.crk_col.crk@.len() == n,
                n == self.count,
                p_low <= p_itr,
                p_low < n,
                p_high < n,
                ov_scan(run_state(self.crk_col), x, p_low as int, p_itr as int, p_high as int, n as int) == scan,
                goal == ov_tail(scan, idx0, x),
                goal == ov_lookup(start_state(old(self).crk_col, old(self).count as nat), old(self).crk_col.crk_idx@, x, old(self).count as int),
            ensures
                p_itr > p_high,
            decreases gap(p_high + 1, p_low as int), gap(p_high + 1, p_itr as int),
        {
            if p_itr > p_high {
                break;
            }
            if self.crk_col.crk[p_itr] < x {
                match low_step(&mut self.crk_col, x, p_low, p_itr, p_high) {
                    Some((l, i)) => {
                        p_low = l;
                        p_itr = i;
                    },
                    None => {
                        return self.no_rows_for(Ghost(x));
                    },
                }
            } else if self.crk_col.crk[p_itr] > x {
                match high_step(&mut self.crk_col, x, p_low, p_itr, p_high) {
                    Some(h) => {
                        p_high = h;
                    },
                    None => {
                        return self.no_rows_for(Ghost(x));
                    },
                }
            } else {
                let r = self.crk_col.run_lengths[p_itr];
                if r == 0 || r > usize::MAX - p_itr {
                    return self.no_rows_for(Ghost(x));
                }
                p_itr = p_itr + r;
            }
        }
        let ghost st3 = run_state(self.crk_col);
        proof {
            assert(self.crk_col.run_lengths@.len() == n);
            assert(scan == (st3, Some((p_low as int, p_high as int))));
        }
        self.crk_col.crk_idx.insert(x, p_low);
        self.crk_col.crk_idx.insert(x + 1, p_high + 1);
        let ghost idx2 = idx0.insert(x, p_low).insert((x + 1) as i64, (p_high + 1) as usize);
        proof {
            assert(self.crk_col.crk_idx@ == idx2);
            assert(run_state(self.crk_col) == st3);
        }
        if p_low > p_high + 1 {
            proof {
                assert(goal == (st3, idx2, None::<(int, int)>));
            }
            return self.no_rows_for(Ghost(x));
        }
        // The run lengths the walk skipped by are not checked by it: answer only a stretch that
        // holds `x` throughout.
        if !all_equal(&self.crk_col.crk, p_low, p_high + 1, x) {
            proof {
                assert(goal == (st3, idx2, None::<(int, int)>));
            }
            return self.no_rows_for(Ghost(x));
        }
        proof {
            assert(goal == (st3, idx2, Some((p_low as int, p_high + 1))));
        }
        let t = self.slice_rows(p_low, p_high + 1);
        proof {
            self.lemma_stretch_holds(p_low as int, p_high + 1, x);
            assert(answers_rows_of(t, self.columns@, self.crk_col.v@, self.crk_col.base_idx@, p_low as int, p_high + 1, x));
        }
        t
    }

    /// A stretch of the cracked column that holds `x` throughout is a stretch of base rows
    /// holding `x`.
    proof fn lemma_stretch_holds(&self, a: int, b: int, x: i64)
        requires
            self.select_ready(),
            self.crk_col.crk@.len() > 0,
            0 <= a <= b <= self.crk_col.crk@.len(),
            forall|i: int| a <= i < b ==> #[trigger] self.crk_col.crk@[i] == x,
        ensures
            forall|j: int| a <= j < b ==> self.crk_col.v@[#[trigger] self.crk_col.base_idx@[j] as int] == x,
    {
        assert forall|j: int| a <= j < b implies self.crk_col.v@[#[trigger] self.crk_col.base_idx@[j] as int] == x by {
            assert(self.crk_col.crk@[j] == x);
        }
    }

    /// Counts the rows where column `col` equals `eq`.
    pub fn count_col_eq(&self, col: &str, eq: i64) -> (r: i64)
        requires
            has_name(self.columns@, col@),
            col_named(self.columns@, col@).v@.len() <= i64::MAX,
        ensures
            r == count_eq(col_named(self.columns@, col@).v@, eq),
    {
        match find_col(&self.columns, col) {
            Some(i) => {
                proof {
                    lemma_col_named(self.columns@, col@, i as int);
                }
                count_in(&self.columns[i].1.v, eq)
            },
            None => {
                proof {
                    assert(false);
                }
                0
            },
        }
    }
}

/// An adjacency list of the edges `src_node[i] -> dst_node[i]`, with columns `"src"` and `"dst"`,
/// cracked on the column `crk`.
pub fn from_adjacency_vectors(src_node: Vec<i64>, dst_node: Vec<i64>, crk: &str) -> (t: OverswapRLETable)
    requires
        src_node@.len() == dst_node@.len(),
        crk@ == "src"@ || crk@ == "dst"@,
    ensures
        t.count == src_node@.len(),
        names_distinct(t.columns@),
        t.columns@.len() == 2,
        has_name(t.columns@, "src"@),
        has_name(t.columns@, "dst"@),
        col_named(t.columns@, "src"@).v@ == src_node@,
        col_named(t.columns@, "dst"@).v@ == dst_node@,
        t.crk_col.v@ == col_named(t.columns@, crk@).v@,
        is_fresh_but_values(t.crk_col),
        t.select_ready(),
{
    proof {
        reveal_strlit("src");
        reveal_strlit("dst");
    }
    let ghost src0 = src_node@;
    let ghost dst0 = dst_node@;
    let n = src_node.len();
    assert("src"@ != "dst"@) by {
        assert("src"@[0] == 's');
        assert("dst"@[0] == 'd');
    }
    let mut adjacency_list = OverswapRLETable::new();
    let names: Vec<&str> = vec!["src", "dst"];
    adjacency_list.new_columns(names);
    let ghost cols1 = adjacency_list.columns@;
    proof {
        assert(named_in_strs(names@, "src"@)) by { assert(names@[0]@ == "src"@); }
        assert(named_in_strs(names@, "dst"@)) by { assert(names@[1]@ == "dst"@); }
        assert(has_name(cols1, names@[0]@));
        assert(has_name(cols1, names@[1]@));
        assert forall|i: int| 0 <= i < cols1.len() implies (#[trigger] cols1[i]).0@ == "src"@ || cols1[i].0@ == "dst"@ by {
            assert(named_in_strs(names@, cols1[i].0@));
            let j = choose|j: int| 0 <= j < names@.len() && (#[trigger] names@[j])@ == cols1[i].0@;
        }
        let a = choose|a: int| 0 <= a < cols1.len() && (#[trigger] cols1[a]).0@ == "src"@;
        let b = choose|b: int| 0 <= b < cols1.len() && (#[trigger] cols1[b]).0@ == "dst"@;
        assert(a != b);
        if cols1.len() > 2 {
            let c = if a != 0 && b != 0 { 0 } else if a != 1 && b != 1 { 1 } else { 2 };
            assert(cols1[c].0@ == "src"@ || cols1[c].0@ == "dst"@);
            assert(false);
        }
        assert(cols1.len() == 2);
    }
    let ins: Vec<(&str, Vec<i64>)> = vec![("src", src_node), ("dst", dst_node)];
    let ghost ls = batch_lengths(cols1, ins@);
    proof {
        assert(ins@[0].0@ == "src"@ && ins@[1].0@ == "dst"@);
        assert(batch_distinct(ins@));
        lemma_data_for_entry(ins@, 0);
        lemma_data_for_entry(ins@, 1);
        assert forall|i: int| 0 <= i < cols1.len() implies exists|j: int| 0 <= j < ins@.len() && (#[trigger] ins@[j]).0@ == (#[trigger] cols1[i]).0@ by {
            if cols1[i].0@ == "src"@ {
                assert(ins@[0].0@ == cols1[i].0@);
            } else {
                assert(ins@[1].0@ == cols1[i].0@);
            }
        }
        assert forall|i: int| 0 <= i < ls.len() implies #[trigger] ls[i] == src0.len() by {
            if cols1[i].0@ == "src"@ {
            } else {
            }
        }
        assert(run_len(ls) == src0.len()) by {
            reveal_with_fuel(run_len, 3);
            assert(ls.drop_last().drop_last() =~= Seq::<nat>::empty());
        }
    }
    adjacency_list.insert(ins);
    let ghost cols2 = adjacency_list.columns@;
    proof {
        assert forall|i: int| 0 <= i < cols2.len() implies (#[trigger] cols2[i]).1.v@ == if cols2[i].0@ == "src"@ { src0 } else { dst0 } by {
            assert(cols1[i].1.v@ == Seq::<i64>::empty());
            if cols1[i].0@ == "src"@ {
                assert(Seq::<i64>::empty() + src0 =~= src0);
            } else {
                assert(Seq::<i64>::empty() + dst0 =~= dst0);
            }
        }
        assert(names_distinct(cols2)) by {
            assert forall|a: int, b: int| 0 <= a < cols2.len() && 0 <= b < cols2.len() && a != b implies (#[trigger] cols2[a]).0@ != (#[trigger] cols2[b]).0@ by {
                assert(cols2[a].0 == cols1[a].0);
                assert(cols2[b].0 == cols1[b].0);
            }
        }
        assert(has_name(cols2, "src"@)) by {
            let a = choose|a: int| 0 <= a < cols1.len() && (#[trigger] cols1[a]).0@ == "src"@;
            assert(cols2[a].0 == cols1[a].0);
        }
        assert(has_name(cols2, "dst"@)) by {
            let a = choose|a: int| 0 <= a < cols1.len() && (#[trigger] cols1[a]).0@ == "dst"@;
            assert(cols2[a].0 == cols1[a].0);
        }
        lemma_col_named_is_first(cols2, "src"@);
        lemma_col_named_is_first(cols2, "dst"@);
        assert(adjacency_list.crk_col.crk_idx.wf());
    }
    adjacency_list.set_crk_col(crk);
    proof {
        lemma_col_named_is_first(cols2, crk@);
    }
    adjacency_list
}

} // verus!
