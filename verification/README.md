# harvey

An analyzer for HTTP Archive (HAR 1.2) files, with machine-readable
output for scripts and agents: summary statistics, entry listings and
filters, per-domain and per-endpoint breakdowns, single-entry inspection,
and live capture from a browser over the DevTools protocol.

## Layout

- `src/` — the library, verified with Verus. It holds the HAR data model,
  the entry filters, the statistics and distributions, the grouping and
  ordering behind every listing, the selection logic of each command, the
  display text that involves no floating point, the exit-status table and
  the capture pairing. `src/laws.rs` states and proves the properties that
  hold across functions (every tally accounts for every entry, filters
  combine with AND, listings show only passing entries, ...).
  `src/wrappers.rs` is the trusted boundary: each item there calls the
  `url` or `regex` crate or a std function and states what is assumed of
  it.
- `app/` — the command-line program: argument parsing (`clap`), reading
  and decoding files (`serde_json`), floating-point figures (averages,
  percentiles, millisecond columns), tables (`tabled`), JSON output, and
  the browser session (`chromiumoxide`, `tokio`).
- `tests/` — tests of the library.

Millisecond values are held as the bit pattern of the double that HAR
writes, so the library orders them exactly without doing arithmetic on
them.
