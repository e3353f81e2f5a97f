# bsv_language_server

A language server for Bluespec SystemVerilog (BSV), with its analyses
written in Verus and proved against their specifications.

## Layout

- `src/` — the verified library.
  - `syntax.rs` — the syntax tree the analyses read, as plain values.
  - `parser/` — folding ranges, document symbols (with recovery from
    malformed code), references, and the call around a cursor.
  - `diagnostics.rs` — syntax error diagnostics from `ERROR` nodes.
  - `formatter.rs` — line-based reformatting guided by the tree.
  - `constant_expansion/` — `#define` constants, number literals, type
    functions (`TAdd`, `TLog`, …) and expansion traces.
  - `symbols.rs` — the per-document symbol and reference table.
  - `requests.rs` — answers to editor requests: go to definition, workspace
    search, hovers, the word under the cursor.
  - `text.rs`, `numbers.rs`, `pattern.rs`, `position.rs`, `utils.rs` — text,
    number and position helpers; `pattern.rs` holds the calls into the
    `regex` crate.
- `app/` — the server program: tree-sitter parsing, the LSP protocol over
  standard input and output, and conversions to LSP types.
- `tests/` — tests of the library.

Columns in syntax trees and diagnostics are byte offsets within a line,
as tree-sitter reports them.
