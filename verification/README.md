# scope_backend

The verified core of an object-centric process mining backend, written in
Verus. Every function under `src/` carries a `requires`/`ensures` contract
over mathematical models (`Seq`, `Set`, `Map`, spec functions) and is proved
by Verus.

## Layout

- `src/case_notion/` — traditional, advanced and connected-component case
  notions over type-level log graphs.
- `src/clustering/` — hierarchy cuts (agglomerative), count-based case
  distances (k-medoids inputs: directly-follows and event-to-object counts,
  their L1 distances and per-view breakdowns), and what those counts read of
  cases (`case_counts`).
- `src/df2_miner/` — activity/edge filtering and the JSON-shaped tree output.
- `src/event_object_frequencies.rs` — histogram masks that cut a log down to
  the events and objects whose frequencies lie in chosen ranges.
- `src/identity_relations/` — identity-relation checks and OCPT extension.
- `src/ocim/` — the object-centric inductive miner: cut checks and detectors
  (sequence, exclusive, concurrent, loop), tau cases, the base case,
  fall-through candidates and their check counts, follows-relation closures,
  the decision of one mining step (`algorithm::ocim_step`) and the splitting
  of logs along a cut (`log_splitting`).
- `src/ocpt.rs`, `src/ocpn_conversion.rs` — OCPTs and their projection onto
  one object type as a process tree.
- `src/ocpn_merge.rs` — object-centric Petri nets: merging the Petri net of
  each object type into one, and the conversion of an OCPT into one.
- `src/process_tree.rs`, `src/process_tree_reduction.rs`, `src/petri_net.rs`
  — process trees, their simplification, and their layout as Petri nets with
  the silent-transition reductions.
- `src/ocgraphconf_case_compare.rs` — cases as graphs of event and object
  nodes.
- `app/` — plain Rust around the library: JSON reading and writing, and the
  floating-point parts (fitness ratios, two-means clustering, linkage
  distances, distance totals).
- `tests/` — tests of the library.

Outside crates are reached only through a few trusted items (petgraph's
union-find and topological sort, uuid's random identifiers, chrono's RFC 3339
parsing), each with a doc comment saying what its contract claims.

Not in this crate: the directly-follows construction that builds the miner's
data from a log, the validity checks and normalization of OCPTs, process trees
and object-centric Petri nets, and the solver-based case alignment.
