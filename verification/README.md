# inkback

Event-driven backtesting of Kalshi YES/NO prediction-market contracts, written in
Verus: the library in `src/` is verified, and `app/` is the command-line program around
it.

## Library (`src/`)

- `kalshi_types` – sides, market events, orders, fills, the order audit, metrics and
  the simulation configuration.
- `kalshi_l2_book` – the level-2 order book (YES bids, NO asks), snapshots, deltas,
  best prices, spread, depth and the cost of sweeping a side.
- `kalshi_event_stream` – merging orderbook and trade rows into one event stream sorted
  by sequence number and timestamp, and checking sequence ordering.
- `kalshi_strategy` – the strategy trait and the spread market-making, trailing
  market-making and directional strategies, with their accounting.
- `kalshi_exec_sim` – the execution engine: latency, time-to-live, maker-only fills
  against trades in price-time priority, the order audit and final settlement.
- `kalshi_backtest` – running a backtest and totalling the metrics of many markets.
- `kalshi_viz` – what a visual report records and the series it is drawn from.
- `kalshi_csv_io`, `kalshi_files`, `kalshi_json`, `kalshi_feed`, `kalshi_markets` –
  reading CSV records and levels fields, file and market-list names, JSON documents, the
  exchange's websocket messages and its market listing pages.

Public functions state their results in `ensures` over spec functions and views;
properties that relate several functions are public proof functions (`lemma_*`). A
strategy states how it answers each call in the spec function `KalshiStrategy::answers`
(the library's strategies state it exactly; one that states nothing allows every answer),
and each of its methods keeps to it. The engine records, for each processed event, the
market data it showed the strategy, the strategy's reply, the books and the fills
(`StepTrace`), and every call it made on the strategy (`StrategyCall`). `Engine::run`
states the final state as the fold of the step semantics (`event_step`, `run_trace`) over
that record, and that the strategy answered every recorded call as it states
(`followed`). A run that
fails other than on a book overflow stops at a step that leaves a range (`run_stops`), and
the final settlement is recorded with the resolution prices handed to the strategy.
The trusted items are `kalshi_json::read_json`, which parses JSON with `serde_json`, and
`kalshi_csv_io::read_csv_table`, which reads CSV with the `csv` crate.

## Program (`app/`)

`inkback backtest`, `inkback visualize` and `inkback collect`: file and network I/O,
command-line parsing, plotting, floating-point performance figures and logging.
