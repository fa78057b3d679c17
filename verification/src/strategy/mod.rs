//! Strategies read candles one at a time and answer each with a [`Signal`].

use vstd::prelude::*;

pub mod baseline;

verus! {

/// Signal emitted by a strategy for each candle.
#[derive(Clone, Copy, Debug, PartialEq, Eq, Structural)]
pub enum Signal {
    /// Go long (or stay long)
    Long,
    /// Go short (or stay short)
    Short,
    /// No position / close existing
    Flat,
    /// No opinion, hold current state
    Hold,
}

} // verus!
