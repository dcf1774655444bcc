# context_footprint

Computes the **Context Footprint** (CF) of code units: the amount of code that must be read
to understand a function, found by a conservative traversal of a dependency graph that stops
at well-specified abstraction boundaries. The library is written in Verus; its behaviour is
stated in `requires`/`ensures` contracts and proved.

## Layout

- `src/domain/` — the core model and algorithms
  - `semantic.rs`: the language-agnostic semantic data (definitions, references), symbol
    resolution through enclosing definitions;
  - `node.rs`, `edge.rs`, `type_registry.rs`, `graph.rs`: the context graph (over petgraph)
    and the registry of types;
  - `builder.rs`: the three-pass graph builder, specified pass by pass;
  - `policy.rs`: the pruning decisions (academic and strict modes) and the size-function and
    documentation-scorer interfaces;
  - `solver.rs`: the CF traversal, specified as a state machine, with its laws.
- `src/adapters/` — a tiktoken-like size function, two documentation scorers, test-code
  detectors per language, the SCIP index adapter, the file-reader line selection, and two
  stand-alone pruning policies (academic baseline and strict).
- `src/symbol.rs`, `src/scip.rs`, `src/graph.rs` — SCIP symbol parsing, the parts of a SCIP
  index that are read, and a symbol graph built from an index.
- `src/text.rs` — character-sequence specifications and verified string helpers.
- `app/` — the `cftool` command line: JSON and SCIP loading, file reading, output.
- `tests/` — behaviour tests, run against the compiled library.

Documentation scores are exact rationals (`DocScore`), so threshold comparisons are exact.
