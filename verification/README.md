# backtesting

An event-driven backtester for trading strategies: a strategy sees bars one at
a time and places orders; a simulated broker fills them against the next bars
(market, limit and stop orders, SL/TP brackets, partial closes, hedging,
exclusive orders, margin checks) and records the equity of every bar; the run
ends with performance statistics.

The library in `src/` is written in Verus and verified. Prices are of a
number type `P: Scalar`; the library proves its bookkeeping for every value
that the number operations may return:

- `order.rs`: order ids, trade ids, order sizes, and the table of orders by id.
- `trade.rs`, `position.rs`: trades and the net position.
- `data.rs`: OHLCV columns with a visible prefix.
- `broker.rs`: the broker. Its well-formedness invariant (`Broker::wf`) holds
  after every operation: every queued order is stored under its own id below
  the next id, every trade is listed once as open or closed, open trades have
  no exit and closed ones have one, every order that closes a trade does so in
  whole units of the other sign.
- `strategy.rs`: the `Strategy` trait and the `Context` through which a
  strategy acts.
- `backtest.rs`: a run over the bars, equity back-filling, and choosing the
  best of several runs.
- `stats.rs`: statistics of a run.
- `sma.rs`, `synthetic.rs`: a moving-average crossover strategy and synthetic
  bars from random draws.

`app/` is the executable around it: `f64` prices, commission functions given
as closures, text reports, a parallel grid search, random draws, and CSV input.
