# cmx_report

The computing core of a group reporting and consolidation service, written in
Verus: the functions in `src/` are verified by Verus, and nearly all of them carry a
`requires`/`ensures` contract stating what they compute; the few without one are
small internal steps whose callers' contracts cover them.

## Layout

- `src/decimal.rs` — exact decimals (mantissa and scale) over `rust_decimal`.
- `src/text.rs`, `src/order.rs`, `src/amount_map.rs` — text helpers, ascending
  name sets, and the ordered account → amount map.
- `src/consol/` — consolidation: domain types, elimination entries (`engine`),
  aggregation, worksheets, currency translation, cash-flow worksheets, the run
  order and subtrees of a scope, the whole-scope consolidation (`consolidate`,
  with what each node books in `plan`), intercompany reconciliation (`recon`),
  scope changes (`scope`), effective ownership under cross-holdings (`ownership`),
  notes, statements and the period-close workflow.
- `src/formula/` — the report formula language: lexer, parser, evaluator, the
  function catalogue, report cell bookkeeping, and the computation of a whole
  report (`resolve`): a memoised walk over its formula cells with cycle cutting.
  It reads loaded reports and fetched amounts from the answers gathered so far and
  names the first one it still lacks; the caller fetches it and computes again.
- `src/grid.rs`, `src/ops.rs` — A1 references, structural row/column edits and the
  layout operation log.
- `src/expand.rs`, `src/store.rs`, `src/layout.rs`, `src/pages.rs`, `src/api.rs` —
  floating row/column expansion, data-source plans, layout documents and hashes,
  page paths and request parameters.
- `tests/` — unit and scenario tests, run against the compiled library.
- `app/` — a small command-line front end (JSON in, JSON out).

## Trusted boundary

Calls into `rust_decimal`, `sha2`, `base64` and `xxhash-rust` sit behind
`#[verifier::external_body]` wrappers whose contracts state what those crates
document; results that take more than a few lines to state are named by
uninterpreted spec functions.
