# git-ast

Language-aware Git extensions, verified with Verus: a canonical printer for a
Rust subset, HTML and JSON (the clean/smudge filter keeps formatting noise out
of history), node identity across versions, refactor-aware blame, structural
clone detection, and a structural JSON merge and diff driver.

## Layout

- `src/` — the library, verified by Verus. What Tree-sitter and serde_json
  compute is named, not specified, so the contracts of the parsing functions
  say what is done with the parse, not what the parse is:
  - `pktline` — Git's pkt-line framing, with read-after-write laws;
  - `filters` — the long-running `filter-process` protocol as a function of the
    bytes Git sends;
  - `cst` — the Tree-sitter parse, copied into a plain tree (`Cst`);
  - `printer`, `html`, `json` — canonical forms and definition listings;
  - `hash` — FNV-1a and Merkle subtree hashes;
  - `identity` — matching definitions across two versions, with its laws
    (self-match, reordering, grouping and order, leftovers, renames);
  - `blame`, `clones` — history and clone queries built on identity;
  - `merge`, `diff` — structural 3-way merge and diff of JSON values, with
    their laws (idempotence, one-side changes, symmetry, compatible edits,
    empty diff exactly on equal values);
  - `setup`, `config`, `drivers` — `.gitattributes` lines, per-path settings,
    and the drivers' argument handling and conflict markers.
- `app/main.rs` — the `git-ast` command: reads files, streams and Git's own
  output, and hands plain values to the library.
- `tests/` — behaviour tests run against the real Tree-sitter and serde_json.
