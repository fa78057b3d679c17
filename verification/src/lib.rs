//! Trading-strategy research toolkit: the decision and bookkeeping logic of a
//! candle backtester, its data loaders and its configuration, verified with Verus.

pub mod text;
pub mod sorting;
pub mod strategy;
pub mod backtest;
pub mod market;
pub mod config;
pub mod dates;
pub mod trading;
