# suffix_tree

Longest-suffix and exact lookup of byte strings (such as domain names)
through a trie built column by column from a matrix of reversed strings.

A batch of `(id, string)` pairs becomes a `Matrix` (`Matrix::new`), one
column per string, holding the string from its last byte down, then an end
marker. `Matrix::sort_in_place` sorts the columns line by line and records,
for every line, how each group of equal columns splits on that line.
`Matrix::build_tree` turns those groups into a node list, where each node
keeps the set of bytes it has children for as a 128-bit set. A
`SuffixMatcher` answers a query with the id of the longest string of the
batch that ends the query; an `ExactMatcher` with the id of the string equal
to it.

The code under `src/` is verified with Verus; the one exception is the
count of set bits in a 128-bit set, which calls `u128::count_ones` and is
trusted to return it:

- `src/bitset.rs`: bit sets of bytes, and the count of bits below a position.
- `src/tree.rs`: the matrix, its layout and order.
- `src/tree/heap.rs`: the heap sort of a range of columns by one line.
- `src/tree/groups.rs`: splitting groups line by line, and the sort.
- `src/tree/table.rs`: the table from a group to the groups it splits into.
- `src/tree/trie.rs`: building the trie, and what it then represents.
- `src/tree/matcher.rs`: the two lookups.
- `src/tree/laws.rs`: what a lookup answers about the batch the trie was built from.

`app/` holds text renderings of the matrix for printing.
