use hft_latency_lab::strategy::execution_path::Side;
use hft_latency_lab::strategy::pipeline::{count_decision, match_symbol, step_position, PipelineStats, Position, TradeDecision};

#[test]
fn trade_decision_equality() {
    assert_eq!(TradeDecision::Hold, TradeDecision::Hold);
    assert_eq!(TradeDecision::Exit, TradeDecision::Exit);
    assert_eq!(
        TradeDecision::Enter { long: true },
        TradeDecision::Enter { long: true }
    );
    assert_ne!(
        TradeDecision::Enter { long: true },
        TradeDecision::Enter { long: false }
    );
}

#[test]
fn match_symbol_picks_leg() {
    let a = *b"A       ";
    let b = *b"B       ";
    assert_eq!(match_symbol(b"A       ", &a, &b), Some(true));
    assert_eq!(match_symbol(b"B       ", &a, &b), Some(false));
    assert_eq!(match_symbol(b"GOOG    ", &a, &b), None);
    // leg A wins when both legs name the same symbol
    assert_eq!(match_symbol(b"A       ", &a, &a), Some(true));
}

#[test]
fn plain_types_compare_by_value() {
    assert_ne!(Position::Flat, Position::Long);
    assert_eq!(Side::Sell, Side::Sell);
    let s = PipelineStats::default();
    assert_eq!(s.msg_count, 0);
    assert_eq!(s.exit_count, 0);
}

#[test]
fn decisions_are_counted_by_kind() {
    let mut s = PipelineStats::default();
    count_decision(&mut s, TradeDecision::Enter { long: false });
    count_decision(&mut s, TradeDecision::Hold);
    count_decision(&mut s, TradeDecision::Exit);
    count_decision(&mut s, TradeDecision::Enter { long: true });
    assert_eq!(s.entry_count, 2);
    assert_eq!(s.exit_count, 1);
    assert_eq!(s.signal_count, 3);
    assert_eq!(s.msg_count, 0);
}

#[test]
fn position_steps_follow_thresholds() {
    assert_eq!(step_position(Position::Flat, true, true, false, false), (Position::Long, TradeDecision::Enter { long: true }));
    assert_eq!(step_position(Position::Flat, true, false, true, true), (Position::Short, TradeDecision::Enter { long: false }));
    assert_eq!(step_position(Position::Flat, false, true, true, true), (Position::Flat, TradeDecision::Hold));
    assert_eq!(step_position(Position::Long, true, true, true, false), (Position::Flat, TradeDecision::Exit));
    assert_eq!(step_position(Position::Long, true, true, false, true), (Position::Long, TradeDecision::Hold));
    assert_eq!(step_position(Position::Short, false, false, false, true), (Position::Flat, TradeDecision::Exit));
    assert_eq!(step_position(Position::Short, false, false, true, false), (Position::Short, TradeDecision::Hold));
}
