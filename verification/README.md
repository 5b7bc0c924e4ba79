# facetfold

A soft-aggregation engine: one family of operators that runs from a plain
mean through softmax-weighted aggregation to an exact join, as a temperature
goes to zero. Around it stand change-data capture from a PostgreSQL
replication stream, a durable mirror, a nearest-neighbour index, joins, and
the records that make an answer accountable (audit log, signatures, privacy
budgets).

## Layout

- `src/` is the library, verified with Verus. What it has from other crates
  stands behind small wrappers whose contracts are taken as given. Numbers are
  held as bit patterns; arithmetic on them is handed in as a function, and the
  contracts are stated over what that function computes.
  - Folds: `arith`, `bits`, `fold`, `mask`, `semiring`, `operator`,
    `distributed`, `crud`, `tree`, `sketch`, `softavg`.
  - Laws of the folds: `anchored`, `monoid`, `partition`, `sums`, `unlearning`.
  - Change-data capture: `protocol`, `pgoutput`, `source`, `apply`, `table`,
    `durable`, `sidecar`.
  - Index and joins: `beam`, `footprint`, `hnsw`, `join`, `keys`, `order`,
    `streaming`.
  - Accountability: `memory`, `merkle`, `provenance`, `encrypted`, `anonymity`,
    `cascade`, `dp`.
- `tests/` runs the library with real arithmetic and the real crates.
- `app/` is the command line: sockets, files, random draws, and the inner
  products of `ndarray`.

## Laws that need exact arithmetic

That the order of rows, the cut into parts, or an insert undone by a delete
does not change an answer holds where addition regroups and weights compose
without rounding. The modules of laws above state those conditions as
predicates over a range, the numbers that occur in the rows and in the partial
sums over them, and prove the laws from them; with rounding numbers the
answers agree up to the last places only.
