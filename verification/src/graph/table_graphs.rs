//! Graphs held in a table of the cracking database, with columns `"src"` and `"dst"`: the
//! searches over them that read the two columns, and the sizes of the graphs the benchmarks run.

use vstd::prelude::*;
use crate::crack::{copy_vec, gather};
use crate::db::{
    Table, has_name, first_named, names, typed_names, new_entries, data_for, names_distinct,
    lemma_typed_names_step, lemma_new_entries_step, lemma_data_for_step,
};
use crate::graph::bfs::{self, table_col, ids_fit, reachable, sources_cover, symmetric};
use crate::graph::datagen::{self, deal, is_permutation, new_rng, gen_index};
use crate::graph::column::lemma_first_named_unique;

verus! {

/// The graph sizes one pass of the benchmark visits: from `size`, stepping by `inc`, while not
/// above `max`.
pub open spec fn pass_sizes(size: int, max: int, inc: int) -> Seq<i64>
    decreases if size > max { 0 } else { max - size + 1 },
{
    if size > max || inc <= 0 {
        Seq::empty()
    } else {
        seq![size as i64] + pass_sizes(size + inc, max, inc)
    }
}

/// The step of pass `i` out of `n`: `step`, plus the share `i / n` of it.
pub open spec fn pass_step(i: int, n: int, step: int) -> int {
    i * step / n + step
}

/// The sizes the first `k` passes visit, each pass starting again from `min`.
pub open spec fn passes(k: nat, n: int, min: int, max: int, step: int) -> Seq<i64>
    decreases k,
{
    if k == 0 {
        Seq::empty()
    } else {
        passes((k - 1) as nat, n, min, max, step) + pass_sizes(min, max, pass_step(k - 1, n, step))
    }
}

/// The graph sizes a benchmark runs: `n_readings` passes from `min_graph_size` up to at most
/// `max_graph_size`, pass `i` stepping by `step` plus `i / n_readings` of it, and then
/// `max_graph_size` itself.
pub fn graph_size_range(n_readings: i64, min_graph_size: i64, max_graph_size: i64, step: i64) -> (r: Vec<i64>)
    requires
        n_readings > 0 && min_graph_size <= max_graph_size ==> {
            &&& step > 0
            &&& (n_readings - 1) * step <= i64::MAX
            &&& pass_step(n_readings - 1, n_readings as int, step as int) <= i64::MAX
            &&& max_graph_size + pass_step(n_readings - 1, n_readings as int, step as int) <= i64::MAX
        },
    ensures
        r@ == passes(if n_readings > 0 { n_readings as nat } else { 0 }, n_readings as int, min_graph_size as int, max_graph_size as int, step as int).push(max_graph_size),
{
    let ghost n = n_readings as int;
    let ghost min = min_graph_size as int;
    let ghost max = max_graph_size as int;
    let mut bm_graph_sizes: Vec<i64> = Vec::new();
    let mut size: i64 = min_graph_size;
    let mut i: i64 = 0;
    while i < n_readings
        invariant
            n == n_readings,
            min == min_graph_size,
            max == max_graph_size,
            0 <= i,
            n_readings > 0 ==> i <= n_readings,
            n_readings <= 0 ==> i == 0,
            size == min_graph_size,
            bm_graph_sizes@ == passes(i as nat, n, min, max, step as int),
            n_readings > 0 && min_graph_size <= max_graph_size ==> {
                &&& step > 0
                &&& (n_readings - 1) * step <= i64::MAX
                &&& pass_step(n_readings - 1, n, step as int) <= i64::MAX
                &&& max_graph_size + pass_step(n_readings - 1, n, step as int) <= i64::MAX
            },
        decreases n_readings - i,
    {
        let ghost inc = pass_step(i as int, n, step as int);
        let ghost before = bm_graph_sizes@;
        proof {
            if min_graph_size <= max_graph_size {
                let st = step as int;
                assert(0 <= i * st <= (n - 1) * st) by (nonlinear_arith)
                    requires
                        0 <= i <= n - 1,
                        st > 0;
                assert(i * st / n <= (n - 1) * st / n) by (nonlinear_arith)
                    requires
                        0 <= i * st <= (n - 1) * st,
                        n > 0;
                assert(0 <= i * st / n) by (nonlinear_arith)
                    requires
                        0 <= i * st,
                        n > 0;
            }
        }
        while size <= max_graph_size
            invariant
                n == n_readings,
                min == min_graph_size,
                max == max_graph_size,
                0 <= i < n_readings,
                min_graph_size <= size,
                min_graph_size <= max_graph_size ==> step > 0,
                min_graph_size <= max_graph_size ==> 0 <= i * step <= i64::MAX,
                min_graph_size <= max_graph_size ==> inc == (i * step) / (n_readings as int) + step,
                min_graph_size <= max_graph_size ==> inc > 0,
                min_graph_size <= max_graph_size ==> max_graph_size + inc <= i64::MAX,
                min_graph_size <= max_graph_size ==> inc <= i64::MAX,
                bm_graph_sizes@ + pass_sizes(size as int, max, inc) == before + pass_sizes(min, max, inc),
            decreases if size > max_graph_size { 0 } else { max_graph_size - size + 1 },
        {
            bm_graph_sizes.push(size);
            let scaled: i64 = i * step;
            let share: i64 = scaled / n_readings;
            assert(share == inc - step);
            size = size + (share + step);
        }
        proof {
            assert(bm_graph_sizes@ + pass_sizes(size as int, max, inc) == bm_graph_sizes@ + Seq::<i64>::empty());
            assert(bm_graph_sizes@ =~= before + pass_sizes(min, max, inc));
        }
        size = min_graph_size;
        i += 1;
    }
    bm_graph_sizes.push(max_graph_size);
    bm_graph_sizes
}

/// The values of the first integer column named `name`, copied.
fn column_values(t: &Table, name: &str) -> (r: Vec<i64>)
    requires
        has_name(t.i64_columns@, name@),
    ensures
        r@ == table_col(t.i64_columns@, name@),
{
    let col = t.get_i64_col(name);
    proof {
        let i = choose|i: int| first_named(t.i64_columns@, name@, i) && *col == t.i64_columns@[i].1;
        let j = choose|j: int| first_named(t.i64_columns@, name@, j);
        lemma_first_named_unique(t.i64_columns@, name@, i, j);
    }
    copy_vec(&col.v)
}

/// Breadth-first search from `start_node` over the edges `"src"` to `"dst"` of the table, by
/// scanning the two columns: the nodes reachable from `start_node`, in increasing order.
pub fn unoptimised_bfs(adjacency_list: &mut Table, start_node: i64) -> (r: Vec<i64>)
    requires
        has_name(old(adjacency_list).i64_columns@, "src"@),
        has_name(old(adjacency_list).i64_columns@, "dst"@),
        ids_fit(table_col(old(adjacency_list).i64_columns@, "src"@), table_col(old(adjacency_list).i64_columns@, "dst"@), start_node),
    ensures
        *final(adjacency_list) == *old(adjacency_list),
        forall|v: i64| r@.contains(v) <==> reachable(table_col(old(adjacency_list).i64_columns@, "src"@), table_col(old(adjacency_list).i64_columns@, "dst"@), start_node, v),
        forall|i: int, j: int| 0 <= i < j < r@.len() ==> r@[i] < r@[j],
{
    let src_col = column_values(adjacency_list, "src");
    let dst_col = column_values(adjacency_list, "dst");
    bfs::unoptimised_bfs(src_col, dst_col, start_node)
}

/// Every node reachable from `s` is the source of an edge.
pub open spec fn reached_are_sources(src: Seq<i64>, dst: Seq<i64>, s: i64) -> bool {
    forall|v: i64| #[trigger] reachable(src, dst, s, v) ==> src.contains(v)
}

/// Whether every node reachable from `start` is the source of an edge: what the table version
/// of the preclustered search needs, as it finds each node it expands among the sources.
pub fn reached_nodes_are_sources(src: &Vec<i64>, dst: &Vec<i64>, start: i64) -> (r: bool)
    requires
        ids_fit(src@, dst@, start),
    ensures
        r == reached_are_sources(src@, dst@, start),
{
    let reached = bfs::unoptimised_bfs(copy_vec(src), copy_vec(dst), start);
    let mut k: usize = 0;
    while k < reached.len()
        invariant
            k <= reached@.len(),
            forall|v: i64| reached@.contains(v) <==> reachable(src@, dst@, start, v),
            forall|m: int| 0 <= m < k ==> src@.contains(#[trigger] reached@[m]),
        decreases reached@.len() - k,
    {
        let v = reached[k];
        let mut found = false;
        let mut i: usize = 0;
        while i < src.len()
            invariant
                i <= src@.len(),
                found <==> exists|m: int| 0 <= m < i && src@[m] == v,
            decreases src@.len() - i,
        {
            if src[i] == v {
                found = true;
            }
            i += 1;
        }
        if !found {
            proof {
                assert(reached@.contains(v));
                assert(!src@.contains(v));
            }
            return false;
        }
        k += 1;
    }
    proof {
        assert forall|v: i64| #[trigger] reachable(src@, dst@, start, v) implies src@.contains(v) by {
            assert(reached@.contains(v));
            let m = choose|m: int| 0 <= m < reached@.len() && reached@[m] == v;
        }
    }
    true
}

/// Breadth-first search over the edges `"src"` to `"dst"` of the table, after sorting the edges
/// by source: each node is looked up by binary search among the sorted sources, which must
/// find every node the search reaches. The nodes reachable from `start_node`, in increasing
/// order.
pub fn preclustered_bfs(adjacency_list: &mut Table, start_node: i64) -> (r: Vec<i64>)
    requires
        has_name(old(adjacency_list).i64_columns@, "src"@),
        has_name(old(adjacency_list).i64_columns@, "dst"@),
        table_col(old(adjacency_list).i64_columns@, "src"@).len() == old(adjacency_list).count,
        table_col(old(adjacency_list).i64_columns@, "dst"@).len() == old(adjacency_list).count,
        ids_fit(table_col(old(adjacency_list).i64_columns@, "src"@), table_col(old(adjacency_list).i64_columns@, "dst"@), start_node),
        reached_are_sources(table_col(old(adjacency_list).i64_columns@, "src"@), table_col(old(adjacency_list).i64_columns@, "dst"@), start_node),
    ensures
        *final(adjacency_list) == *old(adjacency_list),
        forall|v: i64| r@.contains(v) <==> reachable(table_col(old(adjacency_list).i64_columns@, "src"@), table_col(old(adjacency_list).i64_columns@, "dst"@), start_node, v),
        forall|i: int, j: int| 0 <= i < j < r@.len() ==> r@[i] < r@[j],
{
    let src_col = column_values(adjacency_list, "src");
    let dst_col = column_values(adjacency_list, "dst");
    bfs::preclustered_bfs(src_col, dst_col, start_node)
}

/// Breadth-first search over the edges `"src"` to `"dst"` of the table, with the targets listed
/// per source id first: every source id must be an index, and every node the search reaches at
/// most some source id. The nodes reachable from `start_node`, in increasing order.
pub fn preclustered_rle_bfs(adjacency_list: &mut Table, start_node: i64) -> (r: Vec<i64>)
    requires
        has_name(old(adjacency_list).i64_columns@, "src"@),
        has_name(old(adjacency_list).i64_columns@, "dst"@),
        table_col(old(adjacency_list).i64_columns@, "src"@).len() == old(adjacency_list).count,
        ids_fit(table_col(old(adjacency_list).i64_columns@, "src"@), table_col(old(adjacency_list).i64_columns@, "dst"@), start_node),
        forall|i: int| 0 <= i < old(adjacency_list).count ==> 0 <= #[trigger] table_col(old(adjacency_list).i64_columns@, "src"@)[i] < usize::MAX,
        sources_cover(table_col(old(adjacency_list).i64_columns@, "src"@), table_col(old(adjacency_list).i64_columns@, "dst"@), start_node),
    ensures
        *final(adjacency_list) == *old(adjacency_list),
        forall|v: i64| r@.contains(v) <==> reachable(table_col(old(adjacency_list).i64_columns@, "src"@), table_col(old(adjacency_list).i64_columns@, "dst"@), start_node, v),
        forall|i: int, j: int| 0 <= i < j < r@.len() ==> r@[i] < r@[j],
{
    let src_col = column_values(adjacency_list, "src");
    let dst_col = column_values(adjacency_list, "dst");
    bfs::preclustered_rle_bfs(src_col, dst_col, start_node)
}

/// `t` holds the edges `s[k] -> d[k]` as its columns `"src"` and `"dst"`, the cracker column
/// made from `"src"`.
pub open spec fn edge_table(t: Table, s: Seq<i64>, d: Seq<i64>) -> bool {
    &&& t.count == s.len()
    &&& t.i64_columns@.len() == 2
    &&& t.i64_columns@[0].0@ == "src"@
    &&& t.i64_columns@[1].0@ == "dst"@
    &&& t.i64_columns@[0].1.v@ == s
    &&& t.i64_columns@[1].1.v@ == d
    &&& t.f64_columns@.len() == 0
    &&& t.crk_col_name@ == "src"@
    &&& t.crk_col.v@ == s
}

/// A table with the columns `"src"` and `"dst"` holding the edges `s[k] -> d[k]`, cracked on
/// `"src"`: the columns are created empty and the edges inserted into them.
fn edges_into_table(s: Vec<i64>, d: Vec<i64>) -> (t: Table)
    requires
        s@.len() == d@.len(),
    ensures
        edge_table(t, s@, d@),
{
    let ghost s0 = s@;
    let ghost d0 = d@;
    let n = s.len();
    let mut t = Table::new();
    let cols: Vec<(&str, char)> = vec![("src", 'j'), ("dst", 'j')];
    proof {
        reveal_strlit("src");
        reveal_strlit("dst");
        assert("src"@ != "dst"@) by {
            assert("src"@[0] != "dst"@[0]);
        }
        assert(!has_name(t.i64_columns@, "src"@));
        assert(!has_name(t.i64_columns@, "dst"@));
    }
    t.new_columns(cols);
    proof {
        let cs = cols@;
        lemma_typed_names_step(cs, 0);
        lemma_typed_names_step(cs, 1);
        reveal(Seq::filter);
        assert(cs.subrange(0, 0) =~= Seq::<(&str, char)>::empty());
        assert(typed_names(cs.subrange(0, 0), 'j') =~= Seq::<Seq<char>>::empty());
        assert(cs.subrange(0, 2) =~= cs);
        assert(typed_names(cs, 'j') =~= seq!["src"@, "dst"@]);
        assert(names(t.i64_columns@) =~= seq!["src"@, "dst"@]);
        assert(t.i64_columns@.len() == 2);
        assert(t.i64_columns@[0].0@ == names(t.i64_columns@)[0]);
        assert(t.i64_columns@[1].0@ == names(t.i64_columns@)[1]);
        assert(names(t.f64_columns@) =~= Seq::<Seq<char>>::empty()) by {
            lemma_typed_names_step(cs, 0);
            lemma_typed_names_step(cs, 1);
            assert(typed_names(cs.subrange(0, 0), 'f') =~= Seq::<Seq<char>>::empty());
        }
        assert(t.f64_columns@.len() == 0) by {
            assert(names(t.f64_columns@).len() == t.f64_columns@.len());
        }
    }
    let ghost before = t.i64_columns@;
    let ins: Vec<(&str, Vec<i64>)> = vec![("src", s), ("dst", d)];
    proof {
        let b = ins@;
        assert(b[0].0@ == "src"@ && b[1].0@ == "dst"@);
        assert(b[0].1@ == s0 && b[1].1@ == d0);
        assert(has_name(before, "src"@)) by {
            assert(before[0].0@ == "src"@);
        }
        assert(has_name(before, "dst"@)) by {
            assert(before[1].0@ == "dst"@);
        }
        assert(names_distinct(before));
        assert forall|i: int| 0 <= i < before.len() implies exists|j: int| 0 <= j < b.len() && (#[trigger] b[j]).0@ == (#[trigger] before[i]).0@ by {
            if i == 0 {
                assert(b[0].0@ == before[0].0@);
            } else {
                assert(b[1].0@ == before[1].0@);
            }
        }
        assert forall|k: int| 0 <= k < b.len() implies has_name(before, (#[trigger] b[k]).0@) by {
        }
        lemma_new_entries_step(b, before, 0);
        lemma_new_entries_step(b, before, 1);
        assert(b.subrange(0, 0) =~= Seq::<(&str, Vec<i64>)>::empty());
        assert(new_entries(b.subrange(0, 0), before) =~= Seq::<(&str, Vec<i64>)>::empty());
        assert(b.subrange(0, 2) =~= b);
        assert(new_entries(b, before) =~= Seq::<(&str, Vec<i64>)>::empty());
        lemma_data_for_step(b, 0, "src"@);
        lemma_data_for_step(b, 1, "src"@);
        lemma_data_for_step(b, 0, "dst"@);
        lemma_data_for_step(b, 1, "dst"@);
        assert(data_for(b.subrange(0, 0), "src"@) =~= Seq::<i64>::empty());
        assert(data_for(b.subrange(0, 0), "dst"@) =~= Seq::<i64>::empty());
        assert(data_for(b, "src"@) =~= s0);
        assert(data_for(b, "dst"@) =~= d0);
        assert(crate::db::batch_distinct(b)) by {
            assert forall|i: int, j: int| 0 <= i < b.len() && 0 <= j < b.len() && i != j implies (#[trigger] b[i]).0@ != (#[trigger] b[j]).0@ by {
            }
        }
        assert(crate::db::batch_lengths_agree(b, before));
        assert(t.count == 0);
        assert(crate::db::batch_covers(b, before));
        assert(b.len() > 0);
        assert(names_distinct(t.i64_columns@));
        assert(!(forall|k: int| 0 <= k < b.len() ==> !has_name(before, (#[trigger] b[k]).0@))) by {
            assert(has_name(before, b[0].0@));
        }
        assert(forall|k: int| 0 <= k < b.len() && has_name(before, (#[trigger] b[k]).0@) ==> t.count + b[k].1@.len() <= usize::MAX);
        assert(crate::db::int_batch_ok(t, b));
    }
    t.insert(ins);
    proof {
        assert(t.i64_columns@[0].1.v@ =~= s0);
        assert(t.i64_columns@[1].1.v@ =~= d0);
        assert(first_named(t.i64_columns@, "src"@, 0));
    }
    t.set_crk_col("src");
    proof {
        let i = choose|i: int| #![trigger first_named(before, "src"@, i)] first_named(before, "src"@, i);
    }
    t
}

/// `t` holds the edges `s[k] -> d[k]` in some order as its columns `"src"` and `"dst"`, and so
/// does its cracker column's values; the cracked copy and the index are empty, as a
/// rearrangement leaves them.
pub open spec fn shuffled_edge_table(t: Table, s: Seq<i64>, d: Seq<i64>) -> bool {
    &&& t.count == s.len()
    &&& t.i64_columns@.len() == 2
    &&& t.i64_columns@[0].0@ == "src"@
    &&& t.i64_columns@[1].0@ == "dst"@
    &&& t.f64_columns@.len() == 0
    &&& t.crk_col_name@ == "src"@
    &&& t.crk_col.crk@.len() == 0
    &&& t.crk_col.crk_idx@.len() == 0
    &&& exists|p: Seq<usize>| #[trigger] is_permutation(p, s.len()) && t.i64_columns@[0].1.v@ == gather(s, p)
        && t.i64_columns@[1].1.v@ == gather(d, p) && t.crk_col.v@ == gather(s, p)
}

/// A table of the edges `s[k] -> d[k]`, cracked on `"src"`, with its rows then put in a random
/// order.
fn shuffled_edges(s: Vec<i64>, d: Vec<i64>) -> (t: Table)
    requires
        s@.len() == d@.len(),
        s@.len() >= 1,
    ensures
        shuffled_edge_table(t, s@, d@),
{
    let ghost s0 = s@;
    let ghost d0 = d@;
    let mut t = edges_into_table(s, d);
    let t_count = t.count;
    let order = deal(t_count);
    t.rearrange(order.as_slice());
    proof {
        assert(is_permutation(order@, s0.len()));
    }
    t
}

/// The edges of the complete graph on the nodes `1..=n`, node by node up to `upto`: node `i`
/// has an edge to each of `1..i` and then to each of `i + 1..=n`.
pub open spec fn complete_edges(n: int, upto: int) -> (Seq<i64>, Seq<i64>)
    decreases upto,
{
    if upto <= 0 {
        (Seq::empty(), Seq::empty())
    } else {
        let prev = complete_edges(n, upto - 1);
        (
            prev.0 + Seq::new((n - 1) as nat, |j: int| upto as i64),
            prev.1 + Seq::new((n - 1) as nat, |j: int| if j + 1 < upto { (j + 1) as i64 } else { (j + 2) as i64 }),
        )
    }
}

/// A complete graph on the nodes `1..=n` as a table, its rows in a random order.
pub fn fully_connected_graph(n: i64) -> (t: Table)
    requires
        2 <= n,
        n * (n - 1) <= usize::MAX,
    ensures
        shuffled_edge_table(t, complete_edges(n as int, n as int).0, complete_edges(n as int, n as int).1),
{
    proof {
        assert(n <= n * (n - 1)) by (nonlinear_arith)
            requires
                n >= 2;
        assert(n < 0x1_0000_0001) by (nonlinear_arith)
            requires
                n >= 2,
                n * (n - 1) <= 0xffff_ffff_ffff_ffff;
    }
    let mut src_nodes: Vec<i64> = Vec::new();
    let mut dst_nodes: Vec<i64> = Vec::new();
    let mut i: i64 = 1;
    while i < n + 1
        invariant
            2 <= n <= usize::MAX,
            n < 0x1_0000_0001,
            1 <= i <= n + 1,
            (src_nodes@, dst_nodes@) == complete_edges(n as int, i - 1),
            src_nodes@.len() >= i - 1,
            src_nodes@.len() == dst_nodes@.len(),
        decreases n + 1 - i,
    {
        let ghost prev = complete_edges(n as int, i - 1);
        let mut j: i64 = 0;
        while j < n - 1
            invariant
                2 <= n <= usize::MAX,
                1 <= i <= n,
                0 <= j <= n - 1,
                src_nodes@ == prev.0 + Seq::new(j as nat, |k: int| i as i64),
                dst_nodes@ == prev.1 + Seq::new(j as nat, |k: int| if k + 1 < i { (k + 1) as i64 } else { (k + 2) as i64 }),
                prev.0.len() >= i - 1,
                prev.0.len() == prev.1.len(),
                n < 0x1_0000_0001,
            decreases n - 1 - j,
        {
            src_nodes.push(i);
            let target: i64 = if j + 1 < i { j + 1 } else { j + 2 };
            dst_nodes.push(target);
            proof {
                assert(src_nodes@ =~= prev.0 + Seq::new((j + 1) as nat, |k: int| i as i64));
                assert(dst_nodes@ =~= prev.1 + Seq::new((j + 1) as nat, |k: int| if k + 1 < i { (k + 1) as i64 } else { (k + 2) as i64 }));
            }
            j += 1;
        }
        i += 1;
    }
    shuffled_edges(src_nodes, dst_nodes)
}

/// The edges of a tree on the nodes `1..=n`, each in both directions: `2 * (n - 1)` edges between
/// nodes of `1..=n`, every edge with its reverse, and every node reaching every other.
pub open spec fn tree_edges(s: Seq<i64>, d: Seq<i64>, n: i64) -> bool {
    &&& s.len() == 2 * (n - 1)
    &&& d.len() == 2 * (n - 1)
    &&& forall|i: int| 0 <= i < s.len() ==> 1 <= #[trigger] s[i] <= n && 1 <= d[i] <= n
    &&& symmetric(s, d)
    &&& forall|u: i64, v: i64| 1 <= u <= n && 1 <= v <= n ==> #[trigger] reachable(s, d, u, v)
}

/// A random tree on the nodes `1..=n`, each edge in both directions, as a table with its rows in
/// a random order.
pub fn randomly_connected_tree(n: i64) -> (t: Table)
    requires
        2 <= n <= usize::MAX,
    ensures
        exists|s: Seq<i64>, d: Seq<i64>| tree_edges(s, d, n) && #[trigger] shuffled_edge_table(t, s, d),
{
    let (src_col, dst_col) = datagen::randomly_connected_tree(n);
    let ghost s = src_col@;
    let ghost d = dst_col@;
    let t = shuffled_edges(src_col, dst_col);
    proof {
        assert(tree_edges(s, d, n));
    }
    t
}

/// A random graph on the nodes `1..=n` with `e` edges, none from a node to itself, as a table
/// with its rows in a random order; a graph with fewer edges than nodes is not made, and the
/// table is left empty.
pub fn randomly_connected_graph(n: i64, e: i64) -> (t: Table)
    requires
        e >= n ==> 2 <= n && n < usize::MAX && e <= usize::MAX,
    ensures
        e < n ==> t.count == 0 && t.i64_columns@.len() == 0 && t.f64_columns@.len() == 0,
        e >= n ==> exists|s: Seq<i64>, d: Seq<i64>| {
            &&& s.len() == e
            &&& d.len() == e
            &&& forall|k: int| 0 <= k < e ==> 1 <= #[trigger] s[k] <= n && 1 <= d[k] <= n && s[k] != d[k]
            &&& #[trigger] shuffled_edge_table(t, s, d)
        },
{
    if e < n {
        return Table::new();
    }
    let mut src_col: Vec<i64> = Vec::new();
    let mut dst_col: Vec<i64> = Vec::new();
    let mut rng = new_rng();
    let nu = n as usize;
    let mut k: i64 = 0;
    while k < e
        invariant
            2 <= n < usize::MAX,
            nu == n,
            0 <= k <= e,
            src_col@.len() == k,
            dst_col@.len() == k,
            forall|m: int| 0 <= m < k ==> 1 <= #[trigger] src_col@[m] <= n && 1 <= dst_col@[m] <= n && src_col@[m] != dst_col@[m],
        decreases e - k,
    {
        let src = gen_index(&mut rng, 1, nu + 1) as i64;
        let other = gen_index(&mut rng, 1, nu) as i64;
        let dst: i64 = if other < src { other } else { other + 1 };
        let ghost s_before = src_col@;
        let ghost d_before = dst_col@;
        src_col.push(src);
        dst_col.push(dst);
        proof {
            assert forall|m: int| 0 <= m < k + 1 implies 1 <= #[trigger] src_col@[m] <= n && 1 <= dst_col@[m] <= n && src_col@[m] != dst_col@[m] by {
                if m < k {
                    assert(src_col@[m] == s_before[m]);
                    assert(dst_col@[m] == d_before[m]);
                }
            }
        }
        k += 1;
    }
    shuffled_edges(src_col, dst_col)
}

} // verus!
