# patchquilt

A JVM-free front end for loading Quilt and Fabric server mods, written in
Verus. Verus proves the contracts of the library's functions, except those of
the few functions marked `#[verifier::external_body]`, which call
`serde_json`, `regex`, `zip`, `libc` or std: their contracts are trusted, not
proved.

## Layout

- `src/version.rs`, `src/constraint.rs` — semantic versions with Quilt's
  precedence rules and the `versions` constraint grammar (`>=`, `^`, `~`,
  wildcards, unions).
- `src/json.rs`, `src/metadata.rs` — `quilt.mod.json` / `fabric.mod.json`
  decoding on top of `serde_json`.
- `src/discovery.rs`, `src/plan.rs` — which files of a mods directory are
  jars, reading metadata out of a jar with `zip`, and planning a directory.
- `src/resolve.rs`, `src/solve.rs` — single-version validation and the
  multi-version search that picks one version per mod id.
- `src/java/` — an index of the type declarations in decompiled Java sources:
  blanking of comments and literals, declaration parsing with `regex`, the
  brace-depth scan, and the ordered index.
- `src/runtime.rs`, `src/trace.rs` — the decisions of the runtime plugin
  (layout, command line, readiness, shutdown) and of the ptrace supervisor
  (wait statuses, exit codes).
- `src/text.rs` — character-sequence helpers shared by the parsers.
- `app/` — the command line (`index`, `supervise`, `plan`), the file-system
  and process work, the plugin's process management, and the serde copies of
  the index types.
- `tests/` — tests of the library on concrete values.
