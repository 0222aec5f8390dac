# hft-latency-lab

A NASDAQ TotalView-ITCH latency lab: a binary ITCH 5.0 decoder (a slow
reference decoder and an optimized one), message-filtering bitmaps, an
arena-backed price-ordered order book, synthetic market-data streams and the
bookkeeping around latency measurement.

## Layout

- `src/` — the verified library (Verus). Every function carries a contract
  over mathematical models: `decode_message` / `decode_stream` for the wire
  format, sequences of resting orders for the book, the queued items of the
  bounded queue, the recorded samples of the latency buffer.
  - `parser/` — wire layout, both decoders (held to one specification),
    the 512-message type bitmap and the growable `Bitmap64`.
  - `orderbook/` — the node arena, the book (bids best-first, asks
    best-first, with cancel, delete and execute) and message dispatch.
  - `data/gen.rs` — message builders whose decoding is proved, and the
    natural and shuffled streams.
  - `net/`, `pipeline/`, `strategy/`, `latency_buf.rs`, `bench_env.rs`,
    `microarch.rs` — packet timestamps and reception, the bounded queue,
    strategy outcome types, the sample buffer, the status-text counters and
    the message-start scan.
- `tests/` — the test suite, run against the compiled library.
- `app/` — the command-line benchmark driver: time-stamp-counter timing,
  percentile reports, `/proc` reading, the micro-architecture experiments
  and the floating-point strategy code.
