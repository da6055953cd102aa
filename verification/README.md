# fastfind

A Linux filename indexer in the style of Everything: it scans directory
trees, keeps every filename in a persistent index, answers case-insensitive
substring and wildcard searches, and reconciles deletions after each scan.
The library also works out how the index changes for each filesystem
notification; that part is driven by the search window's background worker,
which is not part of the command line.

## Layout

- `src/` — the verified library (Verus).
  - `db.rs`: the index as a mathematical model (`IndexView`) with an
    executable implementation: roots, batched upserts, subtree removal,
    reconciliation after a scan, ranked search, per-root status, and the
    rows it is written to and read back from. A new row gets one more than
    the largest id, as in SQLite; once the largest is `i64::MAX`, where
    SQLite picks a free id at random, it gets the smallest free one.
  - `buckets.rs`: the hash index that finds entries by relative path.
  - `scanner.rs`: scan sessions fed one walked path at a time, entry
    construction from raw path bytes, exclusions, and the scan's telemetry
    in the order it is reported.
  - `live.rs`: which index changes a filesystem notification calls for, and
    applying them.
  - `query.rs`: the query language (quoted terms, `path:` terms, wildcards).
  - `paths.rs`, `text.rs`: byte paths with standard path semantics, and the
    text helpers the rest relies on.
  - `telemetry.rs`: versioned telemetry events and their human-readable form.
  - `cli.rs`: the command line's default database location, status lines
    and query events.
  - `ui.rs`, `worker.rs`, `features.rs`: the decisions behind the search
    window, its background worker, and the feature inventory.
- `tests/` — tests of the library.
- `app/` — the `fastfind` command line: SQLite persistence, the directory
  walk and output, plus the worker loop and notification handling that the
  search window uses.
