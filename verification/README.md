# deadcode_core

A heuristic dead-code finder for Swift/SwiftUI and Kotlin codebases, written
in Verus: the scanning logic is verified against its specification.

It strips comments and string literals, counts every identifier of the
corpus once, then reports declarations whose name occurs only at the
declaration (DEAD), only in tests besides it (TEST-ONLY), or only in string
literals and resource files (DYNAMIC?). Findings are candidates to inspect,
never verdicts.

## Layout

- `src/` — the verified library
  - `lexer.rs` — comment and string-literal stripping, identifier tallying
  - `lang.rs` — declaration patterns (through the `regex` crate), built-in lists
  - `paths.rs` — path helpers (relative paths, test-file heuristic)
  - `scan.rs` — the scan over the files a walk found: tallies, declarations, buckets, ordering
  - `walk.rs` — which directories a walk enters and which files it keeps
  - `types.rs` — buckets, findings, the report, scan options, errors
  - `cli.rs` — argument parsing, bucket filter, the text report, exit status
  - `html.rs` — the self-contained HTML report page
  - `laws.rs` — properties that hold of every scan
  - `text.rs` — byte and UTF-8 helpers
- `app/` — the command-line program: reading arguments, walking the tree,
  reading files, JSON through `serde_json`, writing the reports.
- `tests/` — tests of the library.
