# module_lang

Module and import resolution for multi-file languages, verified with Verus.

- `src/graph.rs` — `ModuleGraph<T>`: modules, `define`/`import`/`resolve`.
- `src/model.rs` — the mathematical model the contracts speak of: the graph's
  view, what each operation makes of it (`after_define`, `after_import`,
  `with_module`), and what a name resolves to (`resolution`, `export_walk`).
- `src/error.rs` — `ResolveError` and its text.
- `src/id.rs` — `ModuleId`, the stable handle to a module, carrying its graph's tag.
- `src/tag.rs` — per-graph tags, drawn from std's randomly seeded hasher.
- `src/names.rs` — the outside handle types (`Symbol`, `SourceId`) and the one
  trusted call on them (`Symbol::as_u32`).
- `src/laws.rs` — what resolution promises on every valid graph, proved.
- `app/` — serde and `std::error::Error` support, on copies of the library types.
