//! The position bookkeeping of the backtest engine.
//!
//! For every candle the engine asks the strategy for a [`Signal`] and, from its
//! current [`Position`], takes one [`BarAction`]: open, close, close and reverse,
//! or keep the position (marking it to market). At the end of the run a
//! position still open is closed at the last close. The price and equity
//! arithmetic of each action is done by the caller.

use vstd::prelude::*;

use crate::strategy::baseline::{BarReading, decide, lemma_signal_tracks_position, strategy_run};
use crate::strategy::Signal;

pub mod curves;
pub mod grouping;

verus! {

/// The engine's position in one asset.
#[derive(Clone, Copy, Debug, PartialEq, Eq, Structural)]
pub enum Position {
    Flat,
    Long,
    Short,
}

/// What the engine does on one candle.
#[derive(Clone, Copy, Debug, PartialEq, Eq, Structural)]
pub enum BarAction {
    /// Flat and told to go long: buy.
    OpenLong,
    /// Flat and told to go short: sell short.
    OpenShort,
    /// Long and told to go flat: sell, recording a long trade.
    CloseLong,
    /// Short and told to go flat: buy back, recording a short trade.
    CloseShort,
    /// Long and told to go short: close the long trade, then open a short.
    ReverseToShort,
    /// Short and told to go long: close the short trade, then open a long.
    ReverseToLong,
    /// Stay long; the equity is marked to market.
    HoldLong,
    /// Stay short; the equity is marked to market.
    HoldShort,
    /// Stay flat.
    StayFlat,
}

/// The action taken in position `p` on signal `s`.
pub open spec fn action_for(p: Position, s: Signal) -> BarAction {
    match p {
        Position::Flat => match s {
            Signal::Long => BarAction::OpenLong,
            Signal::Short => BarAction::OpenShort,
            _ => BarAction::StayFlat,
        },
        Position::Long => match s {
            Signal::Short => BarAction::ReverseToShort,
            Signal::Flat => BarAction::CloseLong,
            _ => BarAction::HoldLong,
        },
        Position::Short => match s {
            Signal::Long => BarAction::ReverseToLong,
            Signal::Flat => BarAction::CloseShort,
            _ => BarAction::HoldShort,
        },
    }
}

/// The position after action `a`.
pub open spec fn position_after(a: BarAction) -> Position {
    match a {
        BarAction::OpenLong | BarAction::ReverseToLong | BarAction::HoldLong => Position::Long,
        BarAction::OpenShort | BarAction::ReverseToShort | BarAction::HoldShort => Position::Short,
        BarAction::CloseLong | BarAction::CloseShort | BarAction::StayFlat => Position::Flat,
    }
}

/// Number of positions that action `a` opens.
pub open spec fn opens(a: BarAction) -> nat {
    match a {
        BarAction::OpenLong | BarAction::OpenShort | BarAction::ReverseToLong
        | BarAction::ReverseToShort => 1,
        _ => 0,
    }
}

/// Number of trades that action `a` records (positions it closes).
pub open spec fn closes(a: BarAction) -> nat {
    match a {
        BarAction::CloseLong | BarAction::CloseShort | BarAction::ReverseToLong
        | BarAction::ReverseToShort => 1,
        _ => 0,
    }
}

/// The action for position `p` and signal `s`.
pub fn bar_action(p: Position, s: Signal) -> (a: BarAction)
    ensures
        a == action_for(p, s),
{
    match p {
        Position::Flat => match s {
            Signal::Long => BarAction::OpenLong,
            Signal::Short => BarAction::OpenShort,
            _ => BarAction::StayFlat,
        },
        Position::Long => match s {
            Signal::Short => BarAction::ReverseToShort,
            Signal::Flat => BarAction::CloseLong,
            _ => BarAction::HoldLong,
        },
        Position::Short => match s {
            Signal::Long => BarAction::ReverseToLong,
            Signal::Flat => BarAction::CloseShort,
            _ => BarAction::HoldShort,
        },
    }
}

impl BarAction {
    /// The position after this action.
    pub fn next_position(&self) -> (p: Position)
        ensures
            p == position_after(*self),
    {
        match self {
            BarAction::OpenLong | BarAction::ReverseToLong | BarAction::HoldLong => Position::Long,
            BarAction::OpenShort | BarAction::ReverseToShort | BarAction::HoldShort => {
                Position::Short
            },
            BarAction::CloseLong | BarAction::CloseShort | BarAction::StayFlat => Position::Flat,
        }
    }
}

// ---------------------------------------------------------------------------
// Whole runs
// ---------------------------------------------------------------------------

/// The engine's position after the signals `sigs`, starting flat.
pub open spec fn run_position(sigs: Seq<Signal>) -> Position
    decreases sigs.len(),
{
    if sigs.len() == 0 {
        Position::Flat
    } else {
        position_after(action_for(run_position(sigs.drop_last()), sigs.last()))
    }
}

/// Number of positions opened over the signals `sigs`, starting flat.
pub open spec fn run_opens(sigs: Seq<Signal>) -> nat
    decreases sigs.len(),
{
    if sigs.len() == 0 {
        0
    } else {
        run_opens(sigs.drop_last()) + opens(action_for(run_position(sigs.drop_last()), sigs.last()))
    }
}

/// Number of trades recorded over the signals `sigs`, starting flat, before
/// the end-of-run close.
pub open spec fn run_closes(sigs: Seq<Signal>) -> nat
    decreases sigs.len(),
{
    if sigs.len() == 0 {
        0
    } else {
        run_closes(sigs.drop_last()) + closes(
            action_for(run_position(sigs.drop_last()), sigs.last()),
        )
    }
}

/// Number of trades recorded by a whole run over `sigs`, the end-of-run close included.
pub open spec fn run_trades(sigs: Seq<Signal>) -> nat {
    run_closes(sigs) + if run_position(sigs) == Position::Flat {
        0nat
    } else {
        1nat
    }
}

/// Every position the engine opens is closed exactly once: a run records as
/// many trades as it opens positions, the end-of-run close included.
pub proof fn lemma_every_open_position_is_closed(sigs: Seq<Signal>)
    ensures
        run_trades(sigs) == run_opens(sigs),
    decreases sigs.len(),
{
    if sigs.len() > 0 {
        lemma_every_open_position_is_closed(sigs.drop_last());
    }
}

/// The engine position matching a strategy position (1 long, -1 short, else flat).
pub open spec fn position_of(pos: int) -> Position {
    if pos == 1 {
        Position::Long
    } else if pos == -1 {
        Position::Short
    } else {
        Position::Flat
    }
}

/// The engine driven by the baseline strategy keeps the strategy's position:
/// after any run, the engine is long, short or flat exactly when the strategy
/// is, and the engine never needs to reverse a position within one candle.
pub proof fn lemma_engine_follows_strategy(readings: Seq<BarReading>)
    ensures
        ({
            let (pos, bars, sigs) = strategy_run(readings);
            &&& -1 <= pos <= 1
            &&& bars == readings.len()
            &&& sigs.len() == readings.len()
            &&& run_position(sigs) == position_of(pos)
            &&& forall|k: int|
                0 <= k < sigs.len() ==> {
                    let a = action_for(run_position(sigs.take(k)), #[trigger] sigs[k]);
                    a != BarAction::ReverseToLong && a != BarAction::ReverseToShort
                }
        }),
    decreases readings.len(),
{
    if readings.len() > 0 {
        let prev = readings.drop_last();
        lemma_engine_follows_strategy(prev);
        let (pos, bars, sigs) = strategy_run(prev);
        let (np, sig) = decide(pos, bars, readings.last());
        lemma_signal_tracks_position(pos, bars, readings.last());
        let all = sigs.push(sig);
        assert(all.drop_last() =~= sigs);
        assert(run_position(all) == position_after(action_for(run_position(sigs), sig)));
        assert forall|k: int| 0 <= k < all.len() implies {
            let a = action_for(run_position(all.take(k)), #[trigger] all[k]);
            a != BarAction::ReverseToLong && a != BarAction::ReverseToShort
        } by {
            if k < sigs.len() {
                assert(all.take(k) =~= sigs.take(k));
                assert(all[k] == sigs[k]);
            } else {
                assert(all.take(k) =~= sigs);
            }
        }
    }
}

// ---------------------------------------------------------------------------
// Trade bookkeeping
// ---------------------------------------------------------------------------

/// One trade: a position held over an unbroken stretch of candles, from the
/// candle that opened it to the candle that closed it (the last candle when
/// it was still open at the end of the run), long (1) or short (-1).
#[derive(Clone, Copy, Debug, PartialEq, Eq, Structural)]
pub struct TradeSpan {
    pub entry: usize,
    pub exit: usize,
    pub direction: i8,
}

/// The trade direction of a position: 1 long, -1 short, 0 flat.
pub open spec fn direction_of(p: Position) -> i8 {
    match p {
        Position::Long => 1i8,
        Position::Short => -1i8,
        Position::Flat => 0i8,
    }
}

/// Over the signals `sigs`, starting flat: the trades closed so far and the
/// candle at which the position now open (if any) was opened.
pub open spec fn span_state(sigs: Seq<Signal>) -> (Seq<TradeSpan>, nat)
    decreases sigs.len(),
{
    if sigs.len() == 0 {
        (Seq::empty(), 0)
    } else {
        let front = sigs.drop_last();
        let (ts, e) = span_state(front);
        let p = run_position(front);
        let a = action_for(p, sigs.last());
        let k = front.len();
        let ts2 = if closes(a) == 1 {
            ts.push(TradeSpan { entry: e as usize, exit: k as usize, direction: direction_of(p) })
        } else {
            ts
        };
        (ts2, if opens(a) == 1 {
            k
        } else {
            e
        })
    }
}

/// The trades of a whole run over `sigs`, in the order they are closed, the
/// end-of-run close included.
pub open spec fn planned_trades(sigs: Seq<Signal>) -> Seq<TradeSpan> {
    let (ts, e) = span_state(sigs);
    let p = run_position(sigs);
    if p != Position::Flat {
        ts.push(TradeSpan { entry: e as usize, exit: (sigs.len() - 1) as usize, direction: direction_of(p) })
    } else {
        ts
    }
}

/// The bookkeeping of one asset's run: the action taken on each candle (each
/// candle gives one equity point: marked to market for `HoldLong` and
/// `HoldShort`, the cash equity otherwise) and the trades recorded.
pub struct TradePlan {
    pub actions: Vec<BarAction>,
    pub trades: Vec<TradeSpan>,
}

fn closes_trade(a: BarAction) -> (r: bool)
    ensures
        r == (closes(a) == 1),
{
    match a {
        BarAction::CloseLong | BarAction::CloseShort | BarAction::ReverseToLong
        | BarAction::ReverseToShort => true,
        _ => false,
    }
}

fn opens_position(a: BarAction) -> (r: bool)
    ensures
        r == (opens(a) == 1),
{
    match a {
        BarAction::OpenLong | BarAction::OpenShort | BarAction::ReverseToLong
        | BarAction::ReverseToShort => true,
        _ => false,
    }
}

fn direction(p: Position) -> (d: i8)
    ensures
        d == direction_of(p),
{
    match p {
        Position::Long => 1,
        Position::Short => -1,
        Position::Flat => 0,
    }
}

/// The actions and trades of a run of the engine over the signals `signals`
/// (one per candle), starting flat.
pub fn trade_plan(signals: &Vec<Signal>) -> (plan: TradePlan)
    ensures
        plan.actions.len() == signals.len(),
        forall|k: int|
            0 <= k < signals.len() ==> #[trigger] plan.actions@[k] == action_for(
                run_position(signals@.take(k)),
                signals@[k],
            ),
        plan.trades@ == planned_trades(signals@),
        forall|i: int| 0 <= i < plan.trades.len() ==> held_over(signals@, #[trigger] plan.trades@[i]),
{
    let n = signals.len();
    proof {
        lemma_trade_directions(signals@);
    }
    let mut position = Position::Flat;
    let mut entry: usize = 0;
    let mut actions: Vec<BarAction> = Vec::new();
    let mut trades: Vec<TradeSpan> = Vec::new();
    let mut k: usize = 0;
    assert(signals@.take(0) =~= Seq::<Signal>::empty());
    while k < n
        invariant
            k <= n == signals.len(),
            position == run_position(signals@.take(k as int)),
            (trades@, entry as nat) == span_state(signals@.take(k as int)),
            entry <= k,
            actions.len() == k,
            forall|j: int|
                0 <= j < k ==> #[trigger] actions@[j] == action_for(
                    run_position(signals@.take(j)),
                    signals@[j],
                ),
        decreases n - k,
    {
        let ghost front = signals@.take(k as int);
        assert(signals@.take(k + 1).drop_last() =~= front);
        assert(signals@.take(k + 1).last() == signals@[k as int]);
        let a = bar_action(position, signals[k]);
        actions.push(a);
        if closes_trade(a) {
            trades.push(TradeSpan { entry, exit: k, direction: direction(position) });
        }
        if opens_position(a) {
            entry = k;
        }
        position = a.next_position();
        k += 1;
    }
    assert(signals@.take(n as int) =~= signals@);
    if position != Position::Flat {
        trades.push(TradeSpan { entry, exit: n - 1, direction: direction(position) });
    }
    TradePlan { actions, trades }
}

proof fn lemma_span_state(sigs: Seq<Signal>)
    requires
        sigs.len() <= usize::MAX,
    ensures
        ({
            let (ts, e) = span_state(sigs);
            &&& ts.len() == run_closes(sigs)
            &&& e <= sigs.len()
            &&& run_position(sigs) != Position::Flat ==> e < sigs.len()
            &&& forall|i: int|
                0 <= i < ts.len() ==> (#[trigger] ts[i]).entry <= ts[i].exit < sigs.len() && (
                ts[i].direction == 1 || ts[i].direction == -1)
            &&& run_position(sigs) != Position::Flat ==> forall|i: int|
                0 <= i < ts.len() ==> (#[trigger] ts[i]).exit <= e
            &&& forall|i: int, j: int|
                0 <= i < j < ts.len() ==> (#[trigger] ts[i]).exit <= (#[trigger] ts[j]).entry
        }),
    decreases sigs.len(),
{
    if sigs.len() > 0 {
        let front = sigs.drop_last();
        lemma_span_state(front);
        let (ts, e) = span_state(front);
        let (ts2, e2) = span_state(sigs);
        let p = run_position(front);
        let a = action_for(p, sigs.last());
        if closes(a) == 1 {
            assert forall|i: int| 0 <= i < ts2.len() implies (#[trigger] ts2[i]).entry <= ts2[i].exit
                < sigs.len() && (ts2[i].direction == 1 || ts2[i].direction == -1) by {
                if i < ts.len() {
                    assert(ts2[i] == ts[i]);
                }
            }
            if run_position(sigs) != Position::Flat {
                assert forall|i: int| 0 <= i < ts2.len() implies (#[trigger] ts2[i]).exit <= e2 by {
                    if i < ts.len() {
                        assert(ts2[i] == ts[i]);
                    }
                }
            }
            assert forall|i: int, j: int| 0 <= i < j < ts2.len() implies (#[trigger] ts2[i]).exit
                <= (#[trigger] ts2[j]).entry by {
                assert(ts2[i] == ts[i]);
                if j < ts.len() {
                    assert(ts2[j] == ts[j]);
                }
            }
        }
    }
}

/// The trades of a run are the stretches the engine held a position: one per
/// position opened, each long or short, each entered no later than it is
/// left, in time order and without overlap (a trade closed on a candle may be
/// followed by one opened on the same candle, as a reversal does).
pub proof fn lemma_trades_are_stretches(sigs: Seq<Signal>)
    requires
        sigs.len() <= usize::MAX,
    ensures
        ({
            let t = planned_trades(sigs);
            &&& t.len() == run_opens(sigs)
            &&& forall|i: int|
                0 <= i < t.len() ==> (#[trigger] t[i]).entry <= t[i].exit < sigs.len() && (
                t[i].direction == 1 || t[i].direction == -1)
            &&& forall|i: int, j: int|
                0 <= i < j < t.len() ==> (#[trigger] t[i]).exit <= (#[trigger] t[j]).entry
        }),
{
    lemma_span_state(sigs);
    lemma_every_open_position_is_closed(sigs);
    let (ts, e) = span_state(sigs);
    let t = planned_trades(sigs);
    if run_position(sigs) != Position::Flat {
        assert forall|i: int| 0 <= i < t.len() implies (#[trigger] t[i]).entry <= t[i].exit
            < sigs.len() && (t[i].direction == 1 || t[i].direction == -1) by {
            if i < ts.len() {
                assert(t[i] == ts[i]);
            }
        }
        assert forall|i: int, j: int| 0 <= i < j < t.len() implies (#[trigger] t[i]).exit
            <= (#[trigger] t[j]).entry by {
            assert(t[i] == ts[i]);
            if j < ts.len() {
                assert(t[j] == ts[j]);
            }
        }
    }
}

/// The position a trade direction stands for: 1 long, -1 short.
pub open spec fn side_of(d: i8) -> Position {
    if d == 1 {
        Position::Long
    } else if d == -1 {
        Position::Short
    } else {
        Position::Flat
    }
}

/// Trade `tr` is a stretch over which the engine, run on `sigs`, held one
/// position on the side of the trade's direction: the position after its
/// entry candle is that side, and so is the position before each later candle
/// up to and including its exit candle.
pub open spec fn held_over(sigs: Seq<Signal>, tr: TradeSpan) -> bool {
    &&& tr.direction == 1 || tr.direction == -1
    &&& tr.entry <= tr.exit < sigs.len()
    &&& run_position(sigs.take(tr.entry as int + 1)) == side_of(tr.direction)
    &&& forall|k: int|
        tr.entry < k <= tr.exit ==> run_position(#[trigger] sigs.take(k)) == side_of(tr.direction)
}

proof fn lemma_held_over_extends(front: Seq<Signal>, x: Signal, tr: TradeSpan)
    requires
        held_over(front, tr),
    ensures
        held_over(front.push(x), tr),
{
    let sigs = front.push(x);
    assert(sigs.take(tr.entry as int + 1) =~= front.take(tr.entry as int + 1));
    assert forall|k: int| tr.entry < k <= tr.exit implies run_position(#[trigger] sigs.take(k))
        == side_of(tr.direction) by {
        assert(sigs.take(k) =~= front.take(k));
    }
}

proof fn lemma_span_sides(sigs: Seq<Signal>)
    requires
        sigs.len() <= usize::MAX,
    ensures
        ({
            let (ts, e) = span_state(sigs);
            &&& forall|i: int| 0 <= i < ts.len() ==> held_over(sigs, #[trigger] ts[i])
            &&& run_position(sigs) != Position::Flat ==> {
                &&& e < sigs.len()
                &&& run_position(sigs.take(e as int + 1)) == run_position(sigs)
                &&& forall|k: int|
                    e < k <= sigs.len() ==> run_position(#[trigger] sigs.take(k)) == run_position(sigs)
            }
        }),
    decreases sigs.len(),
{
    if sigs.len() > 0 {
        let front = sigs.drop_last();
        let x = sigs.last();
        lemma_span_sides(front);
        lemma_span_state(front);
        assert(front.push(x) =~= sigs);
        let (ts, e) = span_state(front);
        let (ts2, e2) = span_state(sigs);
        let p = run_position(front);
        let a = action_for(p, x);
        let n = front.len();
        assert(sigs.take(n as int + 1) =~= sigs);
        assert(sigs.take(n as int) =~= front);
        assert(front.take(n as int) =~= front);
        if closes(a) == 1 {
            let tr = TradeSpan { entry: e as usize, exit: n as usize, direction: direction_of(p) };
            assert(ts2 == ts.push(tr));
            assert(front.take(e as int + 1) =~= sigs.take(e as int + 1));
            assert forall|k: int| tr.entry < k <= tr.exit implies run_position(
                #[trigger] sigs.take(k),
            ) == side_of(tr.direction) by {
                assert(sigs.take(k) =~= front.take(k));
            }
            assert(held_over(sigs, tr));
            assert forall|i: int| 0 <= i < ts2.len() implies held_over(sigs, #[trigger] ts2[i]) by {
                if i < ts.len() {
                    assert(ts2[i] == ts[i]);
                    lemma_held_over_extends(front, x, ts[i]);
                }
            }
        } else {
            assert forall|i: int| 0 <= i < ts2.len() implies held_over(sigs, #[trigger] ts2[i]) by {
                lemma_held_over_extends(front, x, ts[i]);
            }
        }
        if run_position(sigs) != Position::Flat {
            if opens(a) == 1 {
                assert forall|k: int| e2 < k <= sigs.len() implies run_position(
                    #[trigger] sigs.take(k),
                ) == run_position(sigs) by {
                    assert(k == sigs.len());
                }
            } else {
                assert forall|k: int| e2 < k <= sigs.len() implies run_position(
                    #[trigger] sigs.take(k),
                ) == run_position(sigs) by {
                    if k <= n {
                        assert(sigs.take(k) =~= front.take(k));
                    }
                }
                assert(sigs.take(e as int + 1) =~= front.take(e as int + 1));
            }
        }
    }
}

/// Every recorded trade has the direction of the position the engine held
/// over it: the engine, run on `sigs`, is long (direction 1) or short
/// (direction -1) after the trade's entry candle and before each later candle
/// up to its exit candle. So a trade closed by `CloseLong` or `ReverseToShort`
/// is a long, one closed by `CloseShort` or `ReverseToLong` a short, and a
/// trade still open at the end has the side of the final position.
pub proof fn lemma_trade_directions(sigs: Seq<Signal>)
    requires
        sigs.len() <= usize::MAX,
    ensures
        forall|i: int|
            0 <= i < planned_trades(sigs).len() ==> held_over(sigs, #[trigger] planned_trades(sigs)[i]),
        forall|i: int|
            0 <= i < planned_trades(sigs).len() && (#[trigger] planned_trades(sigs)[i]).exit + 1
                < sigs.len() ==> {
                let tr = planned_trades(sigs)[i];
                let a = action_for(run_position(sigs.take(tr.exit as int)), sigs[tr.exit as int]);
                &&& closes(a) == 1
                &&& (a == BarAction::CloseLong || a == BarAction::ReverseToShort) <==> tr.direction == 1
            },
{
    lemma_span_sides(sigs);
    lemma_span_state(sigs);
    let (ts, e) = span_state(sigs);
    let t = planned_trades(sigs);
    if run_position(sigs) != Position::Flat {
        let last = TradeSpan {
            entry: e as usize,
            exit: (sigs.len() - 1) as usize,
            direction: direction_of(run_position(sigs)),
        };
        assert(t == ts.push(last));
        assert forall|k: int| last.entry < k <= last.exit implies run_position(
            #[trigger] sigs.take(k),
        ) == side_of(last.direction) by {
        }
        assert(held_over(sigs, last));
        assert forall|i: int| 0 <= i < t.len() implies held_over(sigs, #[trigger] t[i]) by {
            if i < ts.len() {
                assert(t[i] == ts[i]);
            }
        }
    }
    assert forall|i: int| 0 <= i < t.len() && (#[trigger] t[i]).exit + 1 < sigs.len() implies {
        let tr = t[i];
        let a = action_for(run_position(sigs.take(tr.exit as int)), sigs[tr.exit as int]);
        &&& closes(a) == 1
        &&& (a == BarAction::CloseLong || a == BarAction::ReverseToShort) <==> tr.direction == 1
    } by {
        let tr = t[i];
        assert(held_over(sigs, tr));
        let x = tr.exit as int;
        let before = run_position(sigs.take(x));
        let a = action_for(before, sigs[x]);
        assert(sigs.take(x + 1).drop_last() =~= sigs.take(x));
        assert(sigs.take(x + 1).last() == sigs[x]);
        assert(run_position(sigs.take(x + 1)) == position_after(a));
        lemma_trade_exit_closes(sigs, i);
        assert(before == side_of(tr.direction));
    }
}

proof fn lemma_trade_exit_closes(sigs: Seq<Signal>, i: int)
    requires
        sigs.len() <= usize::MAX,
        0 <= i < planned_trades(sigs).len(),
        planned_trades(sigs)[i].exit + 1 < sigs.len(),
    ensures
        ({
            let tr = planned_trades(sigs)[i];
            &&& tr.entry < tr.exit
            &&& closes(action_for(run_position(sigs.take(tr.exit as int)), sigs[tr.exit as int])) == 1
        }),
{
    lemma_span_exits_close(sigs);
    let (ts, e) = span_state(sigs);
    let t = planned_trades(sigs);
    if run_position(sigs) != Position::Flat && i == ts.len() {
        assert(t[i].exit == sigs.len() - 1);
    } else {
        assert(t[i] == ts[i]);
    }
}

proof fn lemma_span_exits_close(sigs: Seq<Signal>)
    requires
        sigs.len() <= usize::MAX,
    ensures
        ({
            let (ts, e) = span_state(sigs);
            forall|i: int|
                0 <= i < ts.len() ==> (#[trigger] ts[i]).entry < ts[i].exit < sigs.len() && closes(
                    action_for(run_position(sigs.take(ts[i].exit as int)), sigs[ts[i].exit as int]),
                ) == 1
        }),
    decreases sigs.len(),
{
    if sigs.len() > 0 {
        let front = sigs.drop_last();
        lemma_span_exits_close(front);
        lemma_span_sides(front);
        let (ts, e) = span_state(front);
        let (ts2, e2) = span_state(sigs);
        let n = front.len();
        assert(sigs.take(n as int) =~= front);
        assert forall|i: int| 0 <= i < ts2.len() implies (#[trigger] ts2[i]).entry < ts2[i].exit
            < sigs.len() && closes(action_for(run_position(sigs.take(ts2[i].exit as int)), sigs[ts2[i].exit as int]))
            == 1 by {
            if i < ts.len() {
                assert(ts2[i] == ts[i]);
                let x = ts[i].exit as int;
                assert(sigs.take(x) =~= front.take(x));
                assert(sigs[x] == front[x]);
            }
        }
    }
}

} // verus!
