# bbot_recon

Measuring tools for arbitrage between two perpetual-futures venues, **Lighter** and
**Hyperliquid**: a recorder of order books, an analyser of the recorded feeds, and a replay that
prices the spread between the venues.

## Layout

- `src/` is the library. Its functions state in `requires` and `ensures` what they do, and Verus
  proves it.
  - `double`, `rounding`, `arithmetic`, `exact`: binary64 numbers as bit patterns, correctly
    rounded conversions, the arithmetic that callers hand in, and exact values.
  - `text`, `json`, `args`, `recordings`: texts, JSON documents, command lines, files.
  - `tick`: what a recording holds.
  - `lighter_book`, `lighter`, `hyperliquid`: order books, and what each message of a feed says.
  - `ws_recorder`: the clock, the writer and the connections of the recorder.
  - `sorting`, `percentile`, `feed_analyzer`, `feeds`: the statistics of recorded feeds.
  - `spread_replay`, `trades`, `depth`, `rounded`, `evaluations`: the replay, what trades cost
    without and with rounding, and the report.
- `app/` is the program around it: sockets, files, `serde`, printing, and the arithmetic of the
  machine.
- `tests/` runs the library.

## Tools

    ws_recorder   --symbols BTC,ETH --duration 3600 --depth 20 --out data
    feed_analyzer --symbol BTC data/ticks_20260519_223215.jsonl
    spread_replay --notional 1000 --hl-fee-bps 4.5 data/ticks_20260519_223215.jsonl

The program picks the tool by its own name or by its first argument. Without a file, the analyser
and the replay take the latest recording in `data/`.
