# rupta pre-analysis

The precision-critical function identification of a context-sensitive
pointer analysis for Rust, and the context strategies that use it, written in
Verus with their contracts proved.

- `src/pfg.rs`, `src/graph.rs`, `src/reach.rs`, `src/roots.rs`: per-function
  pointer flow graphs (on `petgraph`), their reachability and backward roots.
- `src/mir.rs`, `src/flow.rs`: the function bodies the analysis reads and the
  visit that builds a function's graph.
- `src/prec_crit.rs`, `src/analysis.rs`: the worklist over the call graph and
  the whole pre-analysis.
- `src/keys.rs`, `src/merge.rs`: merging redundant flow-entry callsites.
- `src/context.rs`, `src/strategies.rs`, `src/provenance.rs`: calling
  contexts, their cache, the `ContextStrategy` interface and the context
  strategies that implement it; `src/sets.rs`: the ordered sets of
  parameter ordinals that argument provenance collects.
- `app/`: printing a graph and timing the pre-analysis.
