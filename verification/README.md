# raig

A library for and-inverter graphs (AIGs), verified with Verus, and a small
command-line tool around it.

## Layout

- `src/graph/` — signals (`NodeId`), nodes, graphs and the `AigBuilder` that
  shares structurally equal AND gates; evaluation and cycle-by-cycle
  simulation (`eval.rs`), stimulus files (`stimulus.rs`) and Graphviz output
  (`graphviz.rs`).
- `src/aiger/` — reading ASCII (`aag`) and binary (`aig`) AIGER files into a
  graph; `pre_optimize.rs` proves that reading with gate sharing gives the
  same circuit and the same simulation trace as reading without it.
- `src/aig_graph.rs`, `src/aiger_parser.rs` — a simpler graph type that
  keeps its AND table inside the graph, with an ASCII reader for it.
- `src/text.rs`, `src/paths.rs` — byte-level line reading, whitespace,
  numbers, and output file names.
- `app/` — the command-line tool (argument handling and file I/O).
- `tests/` — tests on concrete values.

Every public function states its result in its contract over a
mathematical view of its arguments; the laws of the library are public proof
functions (`lemma_*`).
