# ast_outline (verified core)

The verified core of `ast-outline`'s graph commands and agent installers.

- `src/graph.rs`, `src/traverse.rs`: the call graph and the breadth-first
  walk behind `callees` and `callers`; `src/traverse_laws.rs` proves what the
  walk guarantees (each definition once, at its shortest distance, every
  definition within the depth bound, a parent one level closer);
  `src/traverse_depth.rs` and `src/traverse_first.rs` relate walks of
  different depths and the one-level walk to the edges stored.
- `src/deps.rs`: the import graph laid out as a call graph, and `deps` /
  `reverse-deps` / `graph` / `cycles` decisions, notes and exit statuses.
- `src/paths.rs`: path arithmetic and the search for a project's root.
- `src/installers.rs`, `src/agent.rs`, `src/json.rs`, `src/settings.rs`:
  what the installers write, where, and when they leave a file alone;
  settings files are parsed and printed by `serde_json` and `toml_edit`.
- `app/lib.rs`: the file-system side (reading, atomic writes, probing the
  disk and `PATH`), which hands plain values to the library.

Everything under `src/` is checked by Verus; `tests/` runs the library.
