# gfm_store

A verified storage library for a file manager's search index: record
archives, term archives (prefix, substring, fuzzy), content postings and
segments, content manifests and their recovery and promotion, sidecar
rebuild planning, schema inspection, and telemetry with performance budgets.

- `src/` is the library, written in Verus: functions state what they
  compute in their contracts, and the round-trip and planning laws are
  proof functions beside the code they speak of.
- `tests/` runs the library on concrete values.
- `app/` holds what touches the file system: reading and publishing
  archives, probing storage, and running rebuilds with the library's
  decisions.
