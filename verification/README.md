# starlings_core

Entity resolution hierarchies, verified with Verus. Weighted edges between
records are merged highest weight first into a list of merge events; the
partition of the records at any threshold is rebuilt from the events at or
above it, and partitions are compared with pair-counting metrics, swept
across thresholds incrementally.

## Layout

- `src/` — the verified library.
  - `hierarchy/` — union-find (in memory or in an anonymous memory mapping),
    edge sorting and grouping, the hierarchy builder and its queries, the
    incremental partition builder, event storage and the byte format of an
    event. `relation.rs` and `counting.rs` hold the mathematical model: a
    partition as a sequence of representatives, events replayed over it,
    the components of the edges at a threshold, and the number of entities.
  - `metrics/` — contingency tables and pair counts of two partitions, and
    their incremental update as entities merge.
  - `frame/`, `expressions/`, `base/` — record translation between
    collections, metric requests, keys, and the memory limit check.
- `tests/` — tests of the library, run against the real outside crates.
- `app/` — what the library cannot hold: floating-point thresholds and
  metric values, environment and file access, caches, the chain detector,
  and the copies of library types that carry outside derives.

Thresholds inside the library are integers in millionths (0.8 is 800000);
`app/` converts.
