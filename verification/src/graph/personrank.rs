//! What the rank computation over the social network reads from its input: the people's ids,
//! and how many friendships leave each of them.

use vstd::prelude::*;
use std::collections::HashMap;
use crate::graph::load_person_csv::Person;

verus! {

/// How many times `v` occurs in `s`.
pub open spec fn occurrences(s: Seq<i64>, v: i64) -> nat
    decreases s.len(),
{
    if s.len() == 0 {
        0
    } else {
        occurrences(s.drop_last(), v) + if s.last() == v { 1nat } else { 0nat }
    }
}

/// A value occurs no more often than the sequence is long.
pub proof fn lemma_occurrences_bounded(s: Seq<i64>, v: i64)
    ensures
        occurrences(s, v) <= s.len(),
    decreases s.len(),
{
    if s.len() > 0 {
        lemma_occurrences_bounded(s.drop_last(), v);
    }
}

/// How many entries of a source column are `w`: the out-degree of vertex `w`.
pub fn out_degree(src_col: &[i64], w: i64) -> (r: i64)
    requires
        src_col.len() <= i64::MAX,
    ensures
        r == occurrences(src_col@, w),
{
    let mut count: i64 = 0;
    let mut k: usize = 0;
    while k < src_col.len()
        invariant
            k <= src_col.len() <= i64::MAX,
            count == occurrences(src_col@.subrange(0, k as int), w),
        decreases src_col.len() - k,
    {
        proof {
            assert(src_col@.subrange(0, k + 1).drop_last() == src_col@.subrange(0, k as int));
            lemma_occurrences_bounded(src_col@.subrange(0, k as int), w);
        }
        if src_col[k] == w {
            count = count + 1;
        }
        k += 1;
    }
    assert(src_col@.subrange(0, src_col.len() as int) == src_col@);
    count
}

/// The out-degree of each vertex: every vertex is a key, and its value is how many times it
/// occurs among the sources of the edges. Sources that are no vertex are not counted.
pub fn get_out_degree(vertices: &Vec<i64>, src: &Vec<i64>) -> (r: HashMap<i64, i64>)
    requires
        src.len() <= i64::MAX,
    ensures
        forall|v: i64| r@.contains_key(v) <==> vertices@.contains(v),
        forall|v: i64| #[trigger] r@.contains_key(v) ==> r@[v] == occurrences(src@, v),
{
    broadcast use vstd::std_specs::hash::group_hash_axioms;
    let mut out_degree: HashMap<i64, i64> = HashMap::new();
    let mut i: usize = 0;
    while i < vertices.len()
        invariant
            i <= vertices.len(),
            forall|v: i64|
                out_degree@.contains_key(v) <==> vertices@.subrange(0, i as int).contains(v),
            forall|v: i64| #[trigger] out_degree@.contains_key(v) ==> out_degree@[v] == 0,
        decreases vertices.len() - i,
    {
        let v: i64 = vertices[i];
        out_degree.insert(v, 0);
        proof {
            let next = vertices@.subrange(0, i + 1);
            assert forall|w: i64| out_degree@.contains_key(w) <==> next.contains(w) by {
                if next.contains(w) {
                    let k = choose|k: int| 0 <= k < next.len() && next[k] == w;
                    if k < i {
                        assert(vertices@.subrange(0, i as int)[k] == w);
                    }
                }
                if vertices@.subrange(0, i as int).contains(w) {
                    let k = choose|k: int|
                        0 <= k < i && vertices@.subrange(0, i as int)[k] == w;
                    assert(next[k] == w);
                }
                if w == v {
                    assert(next[i as int] == w);
                }
            }
        }
        i += 1;
    }
    assert(vertices@.subrange(0, vertices.len() as int) == vertices@);
    let mut j: usize = 0;
    while j < src.len()
        invariant
            j <= src.len() <= i64::MAX,
            forall|v: i64| out_degree@.contains_key(v) <==> vertices@.contains(v),
            forall|v: i64|
                #[trigger] out_degree@.contains_key(v) ==> out_degree@[v] == occurrences(
                    src@.subrange(0, j as int),
                    v,
                ),
        decreases src.len() - j,
    {
        let v: i64 = src[j];
        proof {
            assert(src@.subrange(0, j + 1).drop_last() == src@.subrange(0, j as int));
            assert(src@.subrange(0, j + 1).last() == v);
            lemma_occurrences_bounded(src@.subrange(0, j as int), v);
        }
        match out_degree.get(&v) {
            Some(d) => {
                let next: i64 = *d + 1;
                out_degree.insert(v, next);
            },
            None => {},
        }
        j += 1;
    }
    assert(src@.subrange(0, src.len() as int) == src@);
    out_degree
}

/// The ids of the people, in their order.
pub fn get_vertices(people: &Vec<Person>) -> (r: Vec<i64>)
    ensures
        r.len() == people.len(),
        forall|k: int| 0 <= k < people.len() ==> r[k] == people[k].id,
{
    let mut ids: Vec<i64> = Vec::new();
    let mut k: usize = 0;
    while k < people.len()
        invariant
            k <= people.len(),
            ids.len() == k,
            forall|m: int| 0 <= m < k ==> ids[m] == people[m].id,
        decreases people.len() - k,
    {
        ids.push(people[k].id);
        k += 1;
    }
    ids
}

} // verus!
