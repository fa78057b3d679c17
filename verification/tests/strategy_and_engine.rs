use noahroboros::backtest::{bar_action, trade_plan, BarAction, Position, TradeSpan};
use noahroboros::strategy::baseline::{BarReading, RollingWindow, SignalState, Trend, WARMUP_BARS};
use noahroboros::strategy::Signal;

fn reading(up: usize, down: usize, long_exit: bool, short_exit: bool) -> BarReading {
    // up + down <= 4 votes spread over the four signals
    let mut v = vec![Trend::Level; 4];
    for (i, slot) in v.iter_mut().enumerate() {
        if i < up {
            *slot = Trend::Rising;
        } else if i < up + down {
            *slot = Trend::Falling;
        }
    }
    BarReading {
        rsi_long_exit: long_exit,
        rsi_short_exit: short_exit,
        long_momentum: Some(v[0]),
        short_momentum: Some(v[1]),
        ema_cross: v[2],
        rsi_bias: v[3],
    }
}

fn warmed() -> SignalState {
    let mut s = SignalState::new();
    for _ in 0..WARMUP_BARS {
        assert_eq!(s.on_bar(&reading(4, 0, false, false)), Signal::Hold);
    }
    assert_eq!(s.position(), 0);
    s
}

#[test]
fn window_keeps_latest_values() {
    let mut w = RollingWindow::new(3);
    assert_eq!(w.ago(0), None);
    for x in 1..=5 {
        w.push(x);
    }
    assert_eq!(w.len(), 3);
    assert_eq!(w.ago(0), Some(&5));
    assert_eq!(w.ago(2), Some(&3));
    assert_eq!(w.ago(3), None);
    assert_eq!((w.get(0), w.get(2), w.get(3)), (Some(&3), Some(&5), None));
    let mut z = RollingWindow::new(0);
    z.push(1);
    assert_eq!(z.len(), 0);
}

#[test]
fn warmup_only_holds() {
    let s = warmed();
    assert_eq!(s.bars_seen(), WARMUP_BARS);
}

#[test]
fn enters_long_on_four_bullish_votes_and_exits_on_rsi() {
    let mut s = warmed();
    assert_eq!(s.on_bar(&reading(2, 0, false, false)), Signal::Hold);
    assert_eq!(s.on_bar(&reading(3, 0, false, false)), Signal::Hold);
    assert_eq!(s.on_bar(&reading(3, 1, false, false)), Signal::Hold);
    assert_eq!(s.on_bar(&reading(4, 0, false, false)), Signal::Long);
    assert_eq!(s.position(), 1);
    assert_eq!(s.on_bar(&reading(0, 4, false, true)), Signal::Hold);
    assert_eq!(s.on_bar(&reading(0, 0, true, false)), Signal::Flat);
    assert_eq!(s.position(), 0);
}

#[test]
fn enters_short_and_exits_on_rsi() {
    let mut s = warmed();
    assert_eq!(s.on_bar(&reading(1, 3, false, false)), Signal::Hold);
    assert_eq!(s.on_bar(&reading(0, 4, false, false)), Signal::Short);
    assert_eq!(s.position(), -1);
    assert_eq!(s.on_bar(&reading(4, 0, true, false)), Signal::Hold);
    assert_eq!(s.on_bar(&reading(0, 0, false, true)), Signal::Flat);
    assert_eq!(s.position(), 0);
}

#[test]
fn missing_momentum_does_not_vote() {
    let mut s = warmed();
    let r = BarReading {
        rsi_long_exit: false,
        rsi_short_exit: false,
        long_momentum: None,
        short_momentum: None,
        ema_cross: Trend::Rising,
        rsi_bias: Trend::Rising,
    };
    assert_eq!(s.on_bar(&r), Signal::Hold);
    let r = BarReading { short_momentum: Some(Trend::Rising), ..r };
    assert_eq!(s.on_bar(&r), Signal::Hold);
    let r = BarReading { long_momentum: Some(Trend::Rising), ..r };
    assert_eq!(s.on_bar(&r), Signal::Long);
}

#[test]
fn engine_actions() {
    let cases = [
        (Position::Flat, Signal::Long, BarAction::OpenLong, Position::Long),
        (Position::Flat, Signal::Short, BarAction::OpenShort, Position::Short),
        (Position::Flat, Signal::Flat, BarAction::StayFlat, Position::Flat),
        (Position::Flat, Signal::Hold, BarAction::StayFlat, Position::Flat),
        (Position::Long, Signal::Long, BarAction::HoldLong, Position::Long),
        (Position::Long, Signal::Hold, BarAction::HoldLong, Position::Long),
        (Position::Long, Signal::Flat, BarAction::CloseLong, Position::Flat),
        (Position::Long, Signal::Short, BarAction::ReverseToShort, Position::Short),
        (Position::Short, Signal::Short, BarAction::HoldShort, Position::Short),
        (Position::Short, Signal::Hold, BarAction::HoldShort, Position::Short),
        (Position::Short, Signal::Flat, BarAction::CloseShort, Position::Flat),
        (Position::Short, Signal::Long, BarAction::ReverseToLong, Position::Long),
    ];
    for (p, s, a, np) in cases {
        let got = bar_action(p, s);
        assert_eq!(got, a);
        assert_eq!(got.next_position(), np);
    }
}

#[test]
fn engine_follows_strategy_and_closes_every_trade() {
    let mut s = warmed();
    let mut position = Position::Flat;
    let (mut opened, mut closed) = (0, 0);
    let script = [
        reading(4, 0, false, false),
        reading(0, 0, false, false),
        reading(0, 0, true, false),
        reading(0, 4, false, false),
        reading(0, 0, false, true),
        reading(4, 0, false, false),
    ];
    for r in &script {
        let sig = s.on_bar(r);
        let a = bar_action(position, sig);
        assert!(a != BarAction::ReverseToLong && a != BarAction::ReverseToShort);
        if matches!(a, BarAction::OpenLong | BarAction::OpenShort) {
            opened += 1;
        }
        if matches!(a, BarAction::CloseLong | BarAction::CloseShort) {
            closed += 1;
        }
        position = a.next_position();
        let expected = match s.position() {
            1 => Position::Long,
            -1 => Position::Short,
            _ => Position::Flat,
        };
        assert_eq!(position, expected);
    }
    if position != Position::Flat {
        closed += 1;
    }
    assert_eq!((opened, closed), (3, 3));
}

#[test]
fn split_vote_holds() {
    let mut s = warmed();
    assert_eq!(s.on_bar(&reading(2, 2, false, false)), Signal::Hold);
    assert_eq!(s.position(), 0);
}

#[test]
fn signals_alternate_between_entry_and_flat() {
    let mut s = SignalState::new();
    let mut q = Vec::new();
    for i in 0..400usize {
        let r = reading(i % 5, (i / 3) % 5, i % 7 == 0, i % 11 == 0);
        let r = if (i / 3) % 5 + i % 5 > 4 { reading(i % 5, 0, r.rsi_long_exit, r.rsi_short_exit) } else { r };
        let sig = s.on_bar(&r);
        if sig != Signal::Hold {
            q.push(sig);
        }
    }
    assert!(q.len() >= 4);
    for (k, sig) in q.iter().enumerate() {
        if k % 2 == 0 {
            assert!(*sig == Signal::Long || *sig == Signal::Short);
        } else {
            assert_eq!(*sig, Signal::Flat);
        }
    }
}

#[test]
fn trade_plan_records_stretches() {
    let sigs = vec![
        Signal::Hold,
        Signal::Long,
        Signal::Hold,
        Signal::Short,
        Signal::Flat,
        Signal::Flat,
        Signal::Short,
        Signal::Long,
    ];
    let plan = trade_plan(&sigs);
    assert_eq!(
        plan.actions,
        vec![
            BarAction::StayFlat,
            BarAction::OpenLong,
            BarAction::HoldLong,
            BarAction::ReverseToShort,
            BarAction::CloseShort,
            BarAction::StayFlat,
            BarAction::OpenShort,
            BarAction::ReverseToLong,
        ]
    );
    assert_eq!(
        plan.trades,
        vec![
            TradeSpan { entry: 1, exit: 3, direction: 1 },
            TradeSpan { entry: 3, exit: 4, direction: -1 },
            TradeSpan { entry: 6, exit: 7, direction: -1 },
            TradeSpan { entry: 7, exit: 7, direction: 1 },
        ]
    );
    let empty = trade_plan(&vec![]);
    assert!(empty.actions.is_empty() && empty.trades.is_empty());
    let open_at_end = trade_plan(&vec![Signal::Short, Signal::Hold]);
    assert_eq!(open_at_end.trades, vec![TradeSpan { entry: 0, exit: 1, direction: -1 }]);
}
