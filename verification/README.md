# diskann_layout

A verified library for the disk side of a graph index: the deterministic graph-aware
physical layout of an index, the reads that go through it, the caches and routing tables
that a search starts from, and the integer kernels that score compressed vectors.

- `src/` is the library. Its functions carry contracts that Verus proves, except for the
  few that call other crates.
  - `layout/`: opening an index, packing its nodes into blocks, ordering the blocks,
    rewriting the index and its checksummed sidecar, and loading them again.
  - `search/`: planning the reads of nodes, breadth-first walks, and choosing the nodes of
    a cache.
  - `routing/`, `start_points.rs`, `ranking.rs`: entry points for queries.
  - `storage/`: what is loaded beside an index graph.
  - `matrix_kernels/`, `wide.rs`: dot products and maxsim of small integers.
  - `data_model/`, `bytes.rs`, `float_bits.rs`, `heap.rs`, `text.rs`: what the rest is
    built on. Single-precision numbers are handled as their bit patterns.
- `tests/` runs the library.
- `app/` holds the command-line tools, `graph_aware_layout` and `generate_routing_table`,
  with the clustering and the file access around the library.

The library trusts, and does not prove, what `byteorder` reads and writes, what
`hashbrown::HashSet` holds, that `rand` draws from the range it is given, and that a
SHA-256 digest depends on its message alone.
