//! The decision logic of the baseline voting strategy.
//!
//! The strategy keeps a rolling window of closes and a handful of indicators.
//! Each candle is reduced to a [`BarReading`] (which way each indicator points
//! and whether the RSI reached an exit level); [`SignalState::on_bar`] turns
//! that reading into a [`Signal`]:
//!
//! * during the first `WARMUP_BARS` candles it always holds;
//! * in a long position it exits (`Flat`) once the RSI reaches the long exit
//!   level, in a short position once it reaches the short exit level, and
//!   otherwise holds;
//! * when flat, four signals vote (long and short momentum, EMA crossover, RSI
//!   above or below 50) and it enters long or short when at least
//!   `VOTE_THRESHOLD` of them agree.

use vstd::prelude::*;

use crate::strategy::Signal;

verus! {

/// Momentum lookback, in bars (12 hourly bars).
pub const MOM_LONG_BARS: usize = 12;

/// Short momentum lookback, in bars (6 hourly bars).
pub const MOM_SHORT_BARS: usize = 6;

/// Period of the fast EMA of the crossover signal.
pub const EMA_FAST_PERIOD: usize = 5;

/// Period of the slow EMA of the crossover signal.
pub const EMA_SLOW_PERIOD: usize = 21;

/// Period of the RSI (RSI(8)).
pub const RSI_PERIOD: usize = 8;

/// Fast EMA period of the MACD line.
pub const MACD_FAST: usize = 12;

/// Slow EMA period of the MACD line.
pub const MACD_SLOW: usize = 26;

/// EMA period of the MACD signal line.
pub const MACD_SIGNAL: usize = 9;

/// Number of closes in a Bollinger band.
pub const BB_PERIOD: usize = 20;

/// Number of band widths kept to detect a squeeze.
pub const BB_SQUEEZE_LOOKBACK: usize = 120;

/// Period of the ATR (not used by any exit at present).
pub const ATR_PERIOD: usize = 14;

/// Number of agreeing votes needed to enter a position.
pub const VOTE_THRESHOLD: usize = 4;

/// Number of candles during which the strategy only warms its indicators up.
pub const WARMUP_BARS: usize = 120;

/// Number of closes kept for the momentum signals.
pub const CLOSE_WINDOW: usize = 121;

// ---------------------------------------------------------------------------
// Rolling window
// ---------------------------------------------------------------------------

/// The window `s` after appending `x`, when it keeps at most `cap` items:
/// when the window overflows, its oldest item is dropped.
pub open spec fn window_after_push<T>(s: Seq<T>, x: T, cap: nat) -> Seq<T> {
    if s.len() + 1 > cap {
        s.push(x).drop_first()
    } else {
        s.push(x)
    }
}

/// A first-in first-out buffer that keeps the latest `capacity` values
/// (the close and Bollinger buffers of the strategy).
pub struct RollingWindow<T> {
    items: std::collections::VecDeque<T>,
    capacity: usize,
}

impl<T> View for RollingWindow<T> {
    type V = Seq<T>;

    closed spec fn view(&self) -> Seq<T> {
        self.items@
    }
}

impl<T> RollingWindow<T> {
    /// The largest number of values the window keeps.
    pub closed spec fn cap(&self) -> nat {
        self.capacity as nat
    }

    /// The window holds no more than its capacity.
    pub closed spec fn well_formed(&self) -> bool {
        self.items@.len() <= self.capacity
    }

    /// An empty window that keeps at most `capacity` values.
    pub fn new(capacity: usize) -> (w: Self)
        ensures
            w@ == Seq::<T>::empty(),
            w.cap() == capacity,
            w.well_formed(),
    {
        RollingWindow { items: std::collections::VecDeque::new(), capacity }
    }

    /// The largest number of values the window keeps.
    pub fn capacity(&self) -> (c: usize)
        ensures
            c == self.cap(),
    {
        self.capacity
    }

    /// Number of values held.
    pub fn len(&self) -> (n: usize)
        ensures
            n == self@.len(),
            self.well_formed() ==> n <= self.cap(),
    {
        self.items.len()
    }

    /// Appends `x`, dropping the oldest value when the window would hold more than its capacity.
    pub fn push(&mut self, x: T)
        ensures
            final(self)@ == window_after_push(old(self)@, x, old(self).cap()),
            final(self).cap() == old(self).cap(),
            old(self).well_formed() ==> final(self).well_formed(),
    {
        self.items.push_back(x);
        if self.items.len() > self.capacity {
            let _ = self.items.pop_front();
        }
        proof {
            let s = old(self)@;
            if s.len() + 1 > old(self).cap() {
                assert(self.items@ =~= s.push(x).drop_first());
            }
        }
    }

    /// The value pushed `k` pushes before the latest one (`k == 0` is the latest),
    /// if the window still holds it.
    pub fn ago(&self, k: usize) -> (r: Option<&T>)
        ensures
            k < self@.len() ==> r == Some(&self@[self@.len() - 1 - k]),
            k >= self@.len() ==> r is None,
    {
        let n = self.items.len();
        if k < n {
            Some(&self.items[n - 1 - k])
        } else {
            None
        }
    }

    /// The `i`-th value held, oldest first.
    pub fn get(&self, i: usize) -> (r: Option<&T>)
        ensures
            i < self@.len() ==> r == Some(&self@[i as int]),
            i >= self@.len() ==> r is None,
    {
        if i < self.items.len() {
            Some(&self.items[i])
        } else {
            None
        }
    }
}

// ---------------------------------------------------------------------------
// Signal decisions
// ---------------------------------------------------------------------------

/// Which way one indicator points on a candle.
#[derive(Clone, Copy, Debug, PartialEq, Eq, Structural)]
pub enum Trend {
    /// The current value is above its reference (a bullish vote).
    Rising,
    /// The current value is below its reference (a bearish vote).
    Falling,
    /// Neither above nor below: no vote.
    Level,
}

/// What the strategy's indicators say about one candle.
#[derive(Clone, Copy, Debug, PartialEq, Eq, Structural)]
pub struct BarReading {
    /// The RSI is at or above the long exit level.
    pub rsi_long_exit: bool,
    /// The RSI is at or below the short exit level.
    pub rsi_short_exit: bool,
    /// Close against the close `MOM_LONG_BARS` bars ago, when the window reaches that far.
    pub long_momentum: Option<Trend>,
    /// Close against the close `MOM_SHORT_BARS` bars ago, when the window reaches that far.
    pub short_momentum: Option<Trend>,
    /// Fast EMA against slow EMA.
    pub ema_cross: Trend,
    /// RSI against 50.
    pub rsi_bias: Trend,
}

/// One vote for `t` when `v` is `Some(t)`.
pub open spec fn votes_for(v: Option<Trend>, t: Trend) -> nat {
    if v == Some(t) {
        1
    } else {
        0
    }
}

/// Number of the four voting signals that point in direction `t`.
pub open spec fn count_votes(r: BarReading, t: Trend) -> nat {
    votes_for(r.long_momentum, t) + votes_for(r.short_momentum, t) + votes_for(
        Some(r.ema_cross),
        t,
    ) + votes_for(Some(r.rsi_bias), t)
}

/// The strategy's answer to one candle: from position `pos` (1 long, -1 short,
/// 0 flat) after `bars` earlier candles, the new position and the signal.
pub open spec fn decide(pos: int, bars: nat, r: BarReading) -> (int, Signal) {
    if bars + 1 <= WARMUP_BARS {
        (pos, Signal::Hold)
    } else if pos == 1 && r.rsi_long_exit {
        (0, Signal::Flat)
    } else if pos == -1 && r.rsi_short_exit {
        (0, Signal::Flat)
    } else if pos != 0 {
        (pos, Signal::Hold)
    } else if count_votes(r, Trend::Rising) >= VOTE_THRESHOLD {
        (1, Signal::Long)
    } else if count_votes(r, Trend::Falling) >= VOTE_THRESHOLD {
        (-1, Signal::Short)
    } else {
        (0, Signal::Hold)
    }
}

fn vote(v: Option<Trend>, t: Trend) -> (n: usize)
    ensures
        n == votes_for(v, t),
{
    match v {
        Some(x) => if x == t {
            1
        } else {
            0
        },
        None => 0,
    }
}

/// The position and candle count of the baseline strategy.
pub struct SignalState {
    position: i8,
    bars: usize,
}

impl View for SignalState {
    /// The position (1 long, -1 short, 0 flat) and the number of candles seen.
    type V = (int, nat);

    closed spec fn view(&self) -> (int, nat) {
        (self.position as int, self.bars as nat)
    }
}

impl SignalState {
    #[verifier::type_invariant]
    spec fn valid_position(&self) -> bool {
        -1 <= self.position <= 1
    }

    /// Flat, with no candle seen.
    pub fn new() -> (s: Self)
        ensures
            s@ == (0int, 0nat),
    {
        SignalState { position: 0, bars: 0 }
    }

    /// The position: 1 long, -1 short, 0 flat.
    pub fn position(&self) -> (p: i8)
        ensures
            p == self@.0,
            -1 <= p <= 1,
    {
        proof {
            use_type_invariant(self);
        }
        self.position
    }

    /// The number of candles seen.
    pub fn bars_seen(&self) -> (n: usize)
        ensures
            n == self@.1,
    {
        self.bars
    }

    /// Takes in one candle's reading and answers with a signal.
    pub fn on_bar(&mut self, r: &BarReading) -> (sig: Signal)
        requires
            old(self)@.1 < usize::MAX,
        ensures
            (final(self)@.0, sig) == decide(old(self)@.0, old(self)@.1, *r),
            final(self)@.1 == old(self)@.1 + 1,
            -1 <= final(self)@.0 <= 1,
    {
        proof {
            use_type_invariant(&*self);
        }
        self.bars = self.bars + 1;
        if self.bars <= WARMUP_BARS {
            return Signal::Hold;
        }
        if self.position == 1 && r.rsi_long_exit {
            self.position = 0;
            return Signal::Flat;
        }
        if self.position == -1 && r.rsi_short_exit {
            self.position = 0;
            return Signal::Flat;
        }
        if self.position != 0 {
            return Signal::Hold;
        }
        let bullish = vote(r.long_momentum, Trend::Rising) + vote(r.short_momentum, Trend::Rising)
            + vote(Some(r.ema_cross), Trend::Rising) + vote(Some(r.rsi_bias), Trend::Rising);
        let bearish = vote(r.long_momentum, Trend::Falling) + vote(
            r.short_momentum,
            Trend::Falling,
        ) + vote(Some(r.ema_cross), Trend::Falling) + vote(Some(r.rsi_bias), Trend::Falling);
        if bullish >= VOTE_THRESHOLD {
            self.position = 1;
            return Signal::Long;
        }
        if bearish >= VOTE_THRESHOLD {
            self.position = -1;
            return Signal::Short;
        }
        Signal::Hold
    }
}

/// Whatever the reading, no candle of the warm-up period produces anything but `Hold`,
/// and the position does not change during it.
pub proof fn lemma_warmup_holds(pos: int, bars: nat, r: BarReading)
    requires
        bars < WARMUP_BARS,
    ensures
        decide(pos, bars, r) == (pos, Signal::Hold),
{
}

/// The strategy enters only from flat, exits only from a position, and its
/// position always names the side of its latest entry: `Long` leaves it long,
/// `Short` short, `Flat` flat, and `Hold` keeps it.
pub proof fn lemma_signal_tracks_position(pos: int, bars: nat, r: BarReading)
    requires
        -1 <= pos <= 1,
    ensures
        ({
            let (np, sig) = decide(pos, bars, r);
            &&& -1 <= np <= 1
            &&& sig == Signal::Long ==> pos == 0 && np == 1
            &&& sig == Signal::Short ==> pos == 0 && np == -1
            &&& sig == Signal::Flat ==> pos != 0 && np == 0
            &&& sig == Signal::Hold ==> np == pos
        }),
{
}

/// All four voting signals point in direction `t` (momentum needs a full window).
pub open spec fn unanimous(r: BarReading, t: Trend) -> bool {
    r.long_momentum == Some(t) && r.short_momentum == Some(t) && r.ema_cross == t && r.rsi_bias == t
}

/// Entries past the warm-up: a flat strategy goes long exactly when all four
/// signals are bullish and short exactly when all four are bearish, otherwise
/// it holds; the RSI exit flags play no part in an entry.
pub proof fn lemma_flat_entries(bars: nat, r: BarReading)
    requires
        bars >= WARMUP_BARS,
    ensures
        unanimous(r, Trend::Rising) ==> decide(0, bars, r) == (1int, Signal::Long),
        unanimous(r, Trend::Falling) ==> decide(0, bars, r) == (-1int, Signal::Short),
        !unanimous(r, Trend::Rising) && !unanimous(r, Trend::Falling) ==> decide(0, bars, r) == (
            0int,
            Signal::Hold,
        ),
        forall|long_exit: bool, short_exit: bool|
            decide(0, bars, r) == #[trigger] decide(
                0,
                bars,
                BarReading { rsi_long_exit: long_exit, rsi_short_exit: short_exit, ..r },
            ),
{
}

/// Exits past the warm-up: a long position is closed exactly when the RSI is
/// at the long exit level, a short one exactly when it is at the short exit
/// level, whatever the votes; otherwise the position is held.
pub proof fn lemma_position_exits(bars: nat, r: BarReading)
    requires
        bars >= WARMUP_BARS,
    ensures
        decide(1, bars, r) == if r.rsi_long_exit {
            (0int, Signal::Flat)
        } else {
            (1int, Signal::Hold)
        },
        decide(-1, bars, r) == if r.rsi_short_exit {
            (0int, Signal::Flat)
        } else {
            (-1int, Signal::Hold)
        },
{
}

/// Bullish and bearish votes cannot both reach the threshold, so the bullish
/// test taking precedence never hides a bearish entry.
pub proof fn lemma_votes_exclusive(r: BarReading)
    ensures
        count_votes(r, Trend::Rising) + count_votes(r, Trend::Falling) <= 4,
        !(count_votes(r, Trend::Rising) >= VOTE_THRESHOLD && count_votes(r, Trend::Falling)
            >= VOTE_THRESHOLD),
{
}

// ---------------------------------------------------------------------------
// Whole runs
// ---------------------------------------------------------------------------

/// The strategy run over `readings` from a fresh start: its final position
/// and candle count, and the signals it gave.
pub open spec fn strategy_run(readings: Seq<BarReading>) -> (int, nat, Seq<Signal>)
    decreases readings.len(),
{
    if readings.len() == 0 {
        (0, 0, Seq::empty())
    } else {
        let (pos, bars, sigs) = strategy_run(readings.drop_last());
        let (np, sig) = decide(pos, bars, readings.last());
        (np, bars + 1, sigs.push(sig))
    }
}

/// The signals `sigs` with every `Hold` left out.
pub open spec fn without_holds(sigs: Seq<Signal>) -> Seq<Signal>
    decreases sigs.len(),
{
    if sigs.len() == 0 {
        Seq::empty()
    } else if sigs.last() == Signal::Hold {
        without_holds(sigs.drop_last())
    } else {
        without_holds(sigs.drop_last()).push(sigs.last())
    }
}

/// Entries and exits alternate: entries (`Long` or `Short`) at even places,
/// `Flat` at odd places.
pub open spec fn alternates(q: Seq<Signal>) -> bool {
    forall|k: int|
        0 <= k < q.len() ==> if k % 2 == 0 {
            #[trigger] q[k] == Signal::Long || q[k] == Signal::Short
        } else {
            q[k] == Signal::Flat
        }
}

/// Over any run from a fresh start, the strategy's signals other than `Hold`
/// alternate between an entry (`Long` or `Short`) and `Flat`: it never enters
/// twice in a row, never exits while flat, and never turns a long directly
/// into a short or back. It is flat exactly when it has given as many exits
/// as entries, and otherwise holds the side of its latest entry.
pub proof fn lemma_signals_alternate(readings: Seq<BarReading>)
    ensures
        ({
            let (pos, bars, sigs) = strategy_run(readings);
            let q = without_holds(sigs);
            &&& alternates(q)
            &&& (pos == 0 <==> q.len() % 2 == 0)
            &&& q.len() % 2 == 1 ==> (q.last() == Signal::Long ==> pos == 1) && (q.last()
                == Signal::Short ==> pos == -1)
            &&& -1 <= pos <= 1
            &&& sigs.len() == readings.len()
        }),
    decreases readings.len(),
{
    if readings.len() > 0 {
        let prev = readings.drop_last();
        lemma_signals_alternate(prev);
        let (pos, bars, sigs) = strategy_run(prev);
        let q = without_holds(sigs);
        let (np, sig) = decide(pos, bars, readings.last());
        let all = sigs.push(sig);
        assert(all.drop_last() =~= sigs);
        assert(all.last() == sig);
        if sig != Signal::Hold {
            let q2 = q.push(sig);
            assert(without_holds(all) == q2);
            assert forall|k: int| 0 <= k < q2.len() implies if k % 2 == 0 {
                #[trigger] q2[k] == Signal::Long || q2[k] == Signal::Short
            } else {
                q2[k] == Signal::Flat
            } by {
                if k < q.len() {
                    assert(q2[k] == q[k]);
                }
            }
        } else {
            assert(without_holds(all) == q);
        }
    }
}

} // verus!
