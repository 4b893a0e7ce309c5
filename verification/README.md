# event_driven_backtester

An event-driven backtesting library. A chronological event loop moves bars,
signals, orders and fills between pluggable components; an order produced on
a bar is executed on the next bar of its symbol, never on the bar that
produced it.

## Layout

- `src/` — the verified core, written in Verus:
  - `sort` — stable chronological ordering, lower bounds, byte order of symbols;
  - `data` — the in-memory bar feed (replay order, per-symbol history with a
    bounded window, current bar, symbol list, reset);
  - `engine` — the queue that decides which pending orders are due on a bar;
  - `time` — instants in nanoseconds, reading bar times from milliseconds or
    text (RFC 3339 and two plain layouts, parsed by `chrono`);
  - `walkforward` — in-sample / out-of-sample fold scheduling;
  - `strategy` — the moving-average crossover's naming and signal logic;
  - `portfolio` — which position a signal asks for;
  - `types`, `events`, `execution` — shared enumerations and model markers.
- `app/` — the floating-point accounting (portfolio, execution costs,
  metrics), CSV input and output, the engine's event loop and the
  walk-forward runner, built on the core.
- `tests/` — tests of the core.
