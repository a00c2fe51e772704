# alg_playground

A collection of classic algorithms and data structures, written in Verus and proved
against their contracts.

## Layout

- `src/gcd.rs`: Euclid's algorithm, with the greatest common divisor stated and proved.
- `src/rmq/`: range-minimum queries (sparse table, disjoint sparse table, segment tree,
  the Alstrup block structure); every answer is the leftmost minimum of its half-open range.
- `src/row_minima/`: row minima of totally monotone matrices (monotone minima, SMAWK) and
  the LARSCH shortest-path recurrences.
- `src/bbst/`: implicit balanced trees (AVL, red-black, splay, randomized BST, zip tree)
  behind one sequence interface: split, merge, insert, remove, reverse, range fold and
  range update over a lazy monoid, each stated over the sequence the tree holds.
- `src/ordered_map/`: ordered maps over `u64` keys (sorted vector, B-trees, AA, LLRB,
  red-black, treap, splay, weight-balanced, scapegoat, skip list, van Emde Boas and `std`'s
  `BTreeMap`), each stated as a `Map` with insert, remove, lookup and lower bound.
- `src/dynamic_tree/`: dynamic forests (link-cut tree, link-cut tree with subtree sums,
  Euler tour tree, top tree) over a lazy monoid policy. Their contracts say exactly what
  each operation does to the node arena and what it answers.
- `src/bench.rs`: the input generators used by the benchmarks.
- `tests/`: the test suite; `app/`: the benchmark driver.
