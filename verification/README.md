# OpenQuanter

A deterministic core for matching, margin accounting, replay and backtesting,
written in Rust and proved with Verus.

- `src/types.rs`, `src/margin.rs`: prices, quantities, cash and margin brackets,
  all in integers.
- `src/venue`: the venue's order book, rebuilt from its depth stream.
- `src/engine`: three matchers. L0 fills at the observation's prices; L1 adds a
  queue, latency and impact as policy; L2 measures queue and taker cost from the
  venue's book.
- `src/ledger`: the core itself. Events go in, outputs come out, and the journal
  of the events replays to the same state.
- `src/backtest`: the host that runs a strategy over data, and the reports that
  say what its result depended on.
- `src/data`: tick files, as-of joins, bitemporal values, and the columnar export.
- `src/cli.rs`: what the command line asks for.
- `app`: the command-line tools: files, processes and printing.
- `tests`: scenarios.

Files named `*_laws.rs` hold what is true of a module as a whole; each law is a
proof function whose doc comment states it in words.

Reports are written against the trait `Figure`, so that the number type is the
host's choice. `Ratio` is one in fixed point; `app` brings one for doubles.
