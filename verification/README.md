# noahroboros

A candle backtester for trading-strategy research, whose decision and
bookkeeping logic is verified with Verus.

* `src/` — the verified library:
  * `sorting` — stable ordering of records by timestamp (candles, trades);
  * `strategy` — the `Signal` type and the baseline voting strategy's rolling
    windows and signal decisions;
  * `backtest` — the engine's position/action state machine, the per-symbol
    split of a candle stream and the plan for merging per-asset equity curves;
  * `market` — candle-file rules and the paging of kline downloads;
  * `config`, `dates` — settings parsing, the download window;
  * `trading` — exchange connectors' settings and order vocabulary;
  * `text` — trimming, decimal numerals, lexicographic order.
* `app/` — the command-line program: file and network I/O, the `ta`
  indicators, and all floating-point price, equity and score arithmetic.
* `tests/` — tests of the library on concrete values.
