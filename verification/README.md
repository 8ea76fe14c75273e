# h2hist

A log-linear (h2) histogram with caller-supplied counts storage,
band reports over a z/p/n quantile ladder, and their text
rendering, verified with Verus.

- `src/` — the verified library. Every executable function
  carries a contract over spec functions (`index_of`,
  `range_low`/`range_high`, `sum_counts`, `assign_pass`,
  `report_text`, …); the laws that span functions are public
  proof functions beside them (relative error, bucket
  partition, rank reads finding the recorded value, exact
  RankSplit spans, MidRank conservation and disjoint edges,
  exact rank windows).
  - `config` — parameters and index math; `bitmath` its
    lemmas.
  - `counter`, `histogram`, `array`, `analysis` — storage,
    record path, bucket walk, rank reads, merge.
  - `bands`, `table` — the boundary ladder, the two band
    assignment conventions, the assembled band table.
  - `numfmt`, `report`, `render` — comma grouping, boundary
    labels, the band-table text.
  - `rng`, `stream` — the deterministic synthetic latency
    stream used by the demo.
- `app/` — plain Rust around the library: floating-point
  quantile reads, mean/stdev statistics and their cell
  formatting, and the demo report.
- `tests/` — the library's tests, including parity checks
  against iopsystems' `histogram` crate.
