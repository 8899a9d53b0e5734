# nexus

A codebase dependency analyzer: it measures source files (lines, code lines,
control flow, nesting, token variety), extracts their imports (Rust, Python,
JavaScript/TypeScript, Go), builds the dependency graph between them and
answers questions about it: transitive dependencies and dependents, cycles,
isolated files, rankings, the impact of changing some files. It prints the
results as a terminal report, as JSON or as a Mermaid diagram.

## Layout

- `src/` — the library, written in Verus and verified:
  - `text.rs`, `path.rs` — character-level text and path helpers
  - `types.rs` — files, languages, configuration, output formats
  - `metrics.rs` — line counts, complexity, test-file detection
  - `extract.rs` — import extraction per language
  - `graph.rs` — the dependency graph, closures, cycle search, laws
  - `analysis.rs` — the figures of a graph and impact sets
  - `config.rs` — command-line options
  - `resolve.rs`, `sources.rs` — resolving imports and building the graph
  - `report.rs`, `json.rs`, `commands.rs` — the texts the commands print
- `tests/` — tests of the library
- `app/main.rs` — the command-line program: walks the tree, reads files,
  computes the floating-point averages and risk score, prints.
