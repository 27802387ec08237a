# tessera_engine

The core of a map-serving engine, written in Rust and verified with Verus: what a flush writes, what
a merge may collapse, which rows a session sees, which generation answers a request, and which rows
a paged read returns.

## Layout

- `src/` is the library, verified against the contracts its functions carry.
  - `flush/`: one flush of one view. The plan of buffered rows and fills, the dictionary ordinals its
    terms are promoted to, the value columns, text layers, record rows and group-scoped columns it
    writes, and the files it names.
  - `records/`: reads of records, page by page. The cursor, the refusals, the stretch ahead of a scan
    position, the take of its rows, the columns of a page, and the response's budgets.
    `records/coverage.rs` states what the pages of a read come to.
  - `occupancy/`: how many tiles of each depth hold a visible row.
  - `gate.rs`, `generation.rs`, `geometry.rs`, `pins.rs`, `projection.rs`, `refresh.rs`, `region.rs`,
    `merge.rs`, `ranges.rs`, `membership_column.rs`, `histogram.rs`, `gated_level.rs` and
    `lineage.rs`: one subject each.
  - `row_space.rs`, `runs.rs`, `order.rs`, `lru.rs`, `text.rs`, `seqs.rs`, `scalar.rs` and
    `shared.rs`: what the others stand on.
- `tests/` runs the library on concrete values.
- `app/` is ordinary Rust around it: clocks, locks, threads, sinks, the loops that read outside
  stores between the library's decisions, and the two measures that are floating point.

## What is believed without proof

Calls into other crates stand behind wrappers whose contracts are believed, each with a doc comment
that says what it claims: roaring bitmaps in `bitmap.rs`, SHA-256 in `hashing.rs`, the cursor's
cipher, encoding and nonce in `records/sealing.rs`, Arrow arrays in `records/arrays.rs`, lower-casing
in `text.rs`, and handles on shared values in `shared.rs`.

Floating-point values are carried as bit patterns: the library stores and compares them and never
computes with them.

## Laws

Properties that relate several functions are public proof functions whose names begin with `law_`.
They stand beside the functions they are about.
