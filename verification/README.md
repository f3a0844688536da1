# ipsort

Sorts IP addresses and CIDR blocks by numeric value rather than
lexicographically, keeping the decoration around them (YAML list markers,
JSON quotes and brackets, `key:` prefixes, comments) exactly in place.

The library under `src/` is written in Verus: every function carries a
contract over a mathematical model (sequences of spans and lines, networks
as integers) and is proved against it, together with the laws of the
library (the sort order is a strict total order, block sorting keeps the
document's shape, permutes each block and is idempotent, deduplication
leaves every network once, inline sorting redistributes the sorted pool of
all IPs, and so on).

- `src/parse.rs`: networks, token parsing (through `ipnet`), normalization.
- `src/sort.rs`, `src/stable.rs`: the order of networks and a stable sort.
- `src/classify.rs`: lines split into IP and non-IP spans, classified.
- `src/blocks.rs`, `src/blocks/aggregate.rs`: per-block and inline sorting,
  deduplication, aggregation (through `ipnet`).
- `src/output.rs`: rendering of lines, normalization and ips-only modes.
- `src/pipeline.rs`: the whole run, including the comparison for `--check`.
- `app/main.rs`: the command line (clap), reading input and printing.
- `tests/`: unit tests of each stage and end-to-end runs.

Exit codes of the command: 0 on success, 1 when `--check` finds the input
not in the requested state, 2 on an operational error (no input, no IP
found, conflicting flags, an ambiguous `--unique` or `--aggregate`).
