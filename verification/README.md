# gcrates

Dependency-graph tooling for the crates.io database dump, written in Verus.

The library (`src/`) is verified:

- `graph` builds a compact package graph from the dump's `crates.csv`,
  `versions.csv` and `dependencies.csv`: one selected version per crate (the
  highest stable semver version, else the highest pre-release, else the newest
  upload), and its dependency edges in a fixed order. Including more dependency
  kinds only adds dependencies.
- `versions` and `dump` hold the version selection and the CSV field handling;
  `dep_graph` the petgraph graph that the build goes through; `ranking` the
  orders handed to the standard library's sort.
- `format` is the binary graph file (`GCR1`): every string once in a pool, fixed
  size package and dependency records. Reading what was written gives the same
  graph back.
- `explore` is what the graph explorer computes: dependent counts, name search,
  crate summaries, the rings of packages around a focused crate, the rank order
  and cluster summaries of the global overview.
- `text` holds the few string operations the rest needs.

`app/` is the command-line tool (`download`, `build-graph`, `inspect`) and the
floating-point layout of the explorer's views, built on the library.
