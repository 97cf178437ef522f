# cracking

Database cracking and its use for graph adjacency lists, verified with Verus.

- `src/crack.rs`, `src/cracker_index.rs`, `src/avl.rs`, `src/db.rs`: cracking a column in
  two or three pieces around a range, the dense and AVL cracker indexes, and a table of
  integer and float columns whose selections crack its cracker column. A selection in three on
  the table is stated exactly (`select3`, with the swap loop as `crack3`): the cracked column,
  base rows and index it leaves, and the rows it answers in their order; a valid index stays
  valid across selections.
- `src/laws.rs`: properties across operations (on the table, the decomposed and the
  recognitive adjacency lists, selections with a valid index answer exactly the rows in range;
  the base rows stay a permutation, repeated lookups agree, indexes give back what they
  record). Lookups of a single value on a coherent compactive adjacency list answer exactly the rows
  holding it; its range lookups, and the lookups on the run-length (Overswap) adjacency list,
  are stated to answer a stretch of the base rows.
- `src/graph/`: adjacency lists held in cracked tables (decomposed cracking, recognitive and
  compactive compression, run-length bookkeeping), breadth-first searches over them with the
  visited nodes in a bit vector, random graph generation, the person records of the
  social-network data sets and the out-degrees the rank computation reads.
- `app/`: the benchmark and demonstration program: reading the CSV data sets, timing,
  printing, and the floating-point pagerank and personrank computations.
- `tests/`: the tests of the library.
