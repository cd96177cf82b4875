# rustcop

A style checker and fixer for Rust source files, with machine-checked
contracts and proofs.

- `src/` — the library: the rules (`rules::imports` on parsed `use` trees,
  `rules::text_imports` on text alone, `rules::modules`, `rules::exports`,
  `rules::super_imports`), in-source suppressions (`suppression`),
  configuration values, layer merging and overrides (`config`), file
  selection (`files`), output helpers (`output`), one pass of the rules
  over a file (`pass`) and the run's decisions (`report`). Every function
  states its behaviour in `requires`/`ensures` over plain-value models.
  Where a result rests on the platform's path rules or on an outside crate
  (how syn parses, what a glob matches), the contract states it exactly for
  the inputs on which it is fixed (portable paths, patterns without `\`),
  through named results, and what holds on every platform for the rest. The
  laws of the library are proof functions named `law_*`.
- `app/` — the command line: argument parsing, file and directory access,
  reading configuration sections with serde, and writing SARIF/JSON.
- `tests/` — tests of the library.
