# cachesim

A cache simulator for comparing search-tree layouts, written in Verus.

Memory accesses go through a hierarchy of LRU caches (`lru_cache`,
`hierarchy`). Each cache keeps its recency order in `index_list`, a
doubly linked list over a fixed array of nodes addressed by index, proved
here. The list in `intrusive_collections` links its nodes through raw
pointers handed to it in `unsafe` code (`UnsafeRef`), and was not brought
in. `simalloc` hands out simulated addresses and reads words through the
hierarchy. On top of it stand:

- `veb_layout`, `veb`: the van Emde Boas layout of a complete binary search
  tree, its lookup tables, construction and search;
- `trees_of_small_height`: a dynamic search tree in that layout that
  rebalances by density and grows by doubling, and a simulated search of a
  tree too large to build;
- `btree`: a B-tree whose nodes live in simulated memory, and a simulated
  search of a B-tree too large to build;
- `hierarchical`: the lookup tables of the layout with several keys per node;
- `workload`: the experiments' loops, and the planning around them;
- `config`: the text form of a cache hierarchy (`64:100,4K:10n,...`).

The operations state, over mathematical models, what they return; the
lookups, insertions and simulated searches also state which words of
simulated memory they read, in order. `tree_shape` holds the theory
of the dynamic tree's slots that those proofs rest on.

`app/` is the command-line driver: argument parsing, seeding from the
operating system, and printing of the counters.
