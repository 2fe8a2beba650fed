# spicy_simulate

The sparse-matrix core of a SPICE circuit simulator, written in Verus and
verified: every function in `src/` carries a `requires`/`ensures` contract
that Verus proves, and none of them can panic.

## Layout

- `src/solver/matrix/` — compressed sparse column and row matrices
  (`csc`, `csr`), their well-formedness and transposition, building them
  from triplets (`builder`, `sort`), and a line-by-line MatrixMarket reader
  (`mtx`).
- `src/solver/btf_max_transversal.rs`, `src/solver/btf_scc.rs`,
  `src/solver/klu/btf.rs` — block triangular form: a maximum transversal by
  augmenting paths, strongly connected components by Tarjan's algorithm,
  and their combination.
- `src/solver/aat.rs`, `src/solver/amd.rs`, `src/solver/amd_core.rs`,
  `src/solver/klu/amd.rs` — the approximate minimum degree ordering: the
  pattern of A + Aᵀ, the degree lists, the elimination on the quotient
  graph and the postordering of the assembly tree.
- `src/solver/klu/dump*.rs` — the binary permutation and solve dumps:
  writing, reading back (with the round-trip laws) and comparing.
- `src/solver/utils.rs`, `src/union_find.rs`, `src/devices/stamp.rs`,
  `src/setup_pattern.rs`, `src/raw_writer.rs` — permutations and markers,
  a union-find, the matrix positions of device stamps, and the text of raw
  output files.
- `tests/` — tests of the library, run against the compiled crate.
- `app/` — ordinary Rust around the library: files, error display, and the
  floating-point parts (tolerances, operation counts).
