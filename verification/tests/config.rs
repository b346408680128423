use schelling::cell::Cell;
use schelling::config::{parse_rule_string, read_rule_string, MoveMode, MoveStrategy, RuleParseError, SatisfactionRule};

#[test]
fn cell_codes() {
    assert_eq!(Cell::Empty.to_int(), 0);
    assert_eq!(Cell::GroupA.to_int(), 1);
    assert_eq!(Cell::GroupB.to_int(), 2);
}

#[test]
fn ratio_rule_evaluation() {
    let third = SatisfactionRule::Ratio { num: 1, den: 3, negative: false };
    assert!(third.evaluate(0, 0));
    assert!(third.evaluate(1, 3));
    assert!(!third.evaluate(1, 4));
    assert!(third.evaluate(2, 5));
    let point_333 = SatisfactionRule::Ratio { num: 333, den: 1000, negative: false };
    assert!(point_333.evaluate(1, 3));
    assert!(!point_333.evaluate(2, 7));
}

#[test]
fn count_rule_evaluation() {
    let congregate = SatisfactionRule::MinSame { min_same: 3 };
    assert!(congregate.evaluate(3, 8));
    assert!(!congregate.evaluate(2, 2));
    let integrate = SatisfactionRule::Bounded { min_same: 3, max_same: 6 };
    assert!(integrate.evaluate(3, 8));
    assert!(integrate.evaluate(6, 8));
    assert!(!integrate.evaluate(7, 8));
    assert!(!integrate.evaluate(2, 8));
}

#[test]
fn parse_rule_strings() {
    assert_eq!(parse_rule_string("ratio:0.333"), SatisfactionRule::Ratio { num: 333, den: 1000, negative: false });
    assert_eq!(parse_rule_string("ratio:0.5"), SatisfactionRule::Ratio { num: 5, den: 10, negative: false });
    assert_eq!(parse_rule_string("ratio:1"), SatisfactionRule::Ratio { num: 1, den: 1, negative: false });
    assert_eq!(parse_rule_string("ratio:.25"), SatisfactionRule::Ratio { num: 25, den: 100, negative: false });
    assert_eq!(parse_rule_string("min-same:3"), SatisfactionRule::MinSame { min_same: 3 });
    assert_eq!(parse_rule_string("min-same:+4"), SatisfactionRule::MinSame { min_same: 4 });
    assert_eq!(
        parse_rule_string("bounded:3:6"),
        SatisfactionRule::Bounded { min_same: 3, max_same: 6 }
    );
}

#[test]
fn parse_rule_errors() {
    assert_eq!(read_rule_string("bounded:6:3"), Err(RuleParseError::BoundsOutOfOrder));
    assert_eq!(read_rule_string("ratio:abc"), Err(RuleParseError::InvalidNumber));
    assert_eq!(read_rule_string("ratio:."), Err(RuleParseError::InvalidNumber));
    assert_eq!(read_rule_string("ratio:1.2.3"), Err(RuleParseError::InvalidNumber));
    assert_eq!(read_rule_string("min-same:-1"), Err(RuleParseError::InvalidNumber));
    assert_eq!(read_rule_string("bounded:3"), Err(RuleParseError::UnknownForm));
    assert_eq!(read_rule_string("majority:3"), Err(RuleParseError::UnknownForm));
    assert_eq!(read_rule_string(""), Err(RuleParseError::UnknownForm));
}

#[test]
fn parse_threshold_notations() {
    assert_eq!(parse_rule_string("ratio:1e-1"), SatisfactionRule::Ratio { num: 1, den: 10, negative: false });
    assert_eq!(parse_rule_string("ratio:3.33E-1"), SatisfactionRule::Ratio { num: 333, den: 1000, negative: false });
    assert_eq!(parse_rule_string("ratio:0.05e+1"), SatisfactionRule::Ratio { num: 5, den: 10, negative: false });
    assert_eq!(parse_rule_string("ratio:5e0"), SatisfactionRule::Ratio { num: 5, den: 1, negative: false });
    assert_eq!(parse_rule_string("ratio:2."), SatisfactionRule::Ratio { num: 2, den: 1, negative: false });
    assert_eq!(parse_rule_string("ratio:inf"), SatisfactionRule::Ratio { num: 1, den: 0, negative: false });
    assert_eq!(parse_rule_string("ratio:+Infinity"), SatisfactionRule::Ratio { num: 1, den: 0, negative: false });
    assert_eq!(read_rule_string("ratio:1e"), Err(RuleParseError::InvalidNumber));
    assert_eq!(read_rule_string("ratio:e5"), Err(RuleParseError::InvalidNumber));
    assert_eq!(read_rule_string("ratio:1e2e3"), Err(RuleParseError::InvalidNumber));
    assert_eq!(parse_rule_string("ratio:1e99"), SatisfactionRule::Ratio { num: 1, den: 0, negative: false });
    assert_eq!(parse_rule_string("ratio:1e300"), SatisfactionRule::Ratio { num: 1, den: 0, negative: false });
    assert_eq!(
        parse_rule_string("ratio:18446744073709551615.5"),
        SatisfactionRule::Ratio { num: 1, den: 0, negative: false }
    );
    assert_eq!(
        parse_rule_string("ratio:18446744073709551615"),
        SatisfactionRule::Ratio { num: u64::MAX, den: 1, negative: false }
    );
    assert_eq!(
        parse_rule_string("ratio:1e-30"),
        SatisfactionRule::Ratio { num: 1, den: u64::MAX, negative: false }
    );
    assert_eq!(
        parse_rule_string("ratio:0.000000000000000000000001234"),
        SatisfactionRule::Ratio { num: 1, den: u64::MAX, negative: false }
    );
    assert_eq!(parse_rule_string("ratio:0e-40"), SatisfactionRule::Ratio { num: 0, den: 1, negative: false });
    assert_eq!(parse_rule_string("ratio:000.25"), SatisfactionRule::Ratio { num: 25, den: 100, negative: false });
    assert_eq!(read_rule_string("ratio:0.33333333333333333333"), Err(RuleParseError::InvalidNumber));
    assert_eq!(read_rule_string("ratio:3e-20"), Err(RuleParseError::InvalidNumber));
    let tiny = parse_rule_string("ratio:1e-30");
    assert!(tiny.evaluate(1, 8));
    assert!(!tiny.evaluate(0, 8));
    let huge = parse_rule_string("ratio:1e300");
    assert!(!huge.evaluate(8, 8));
    assert!(huge.evaluate(0, 0));
    assert_eq!(
        parse_rule_string("ratio:-0.5"),
        SatisfactionRule::Ratio { num: 5, den: 10, negative: true }
    );
    assert_eq!(
        parse_rule_string("ratio:-inf"),
        SatisfactionRule::Ratio { num: 1, den: 0, negative: true }
    );
    assert_eq!(read_rule_string("ratio:-+1"), Err(RuleParseError::InvalidNumber));
    assert_eq!(read_rule_string("ratio:--1"), Err(RuleParseError::InvalidNumber));
    assert!(parse_rule_string("ratio:-0.5").evaluate(0, 8));
    assert!(parse_rule_string("ratio:-inf").evaluate(0, 8));
    assert_eq!(parse_rule_string("ratio:-0.5").label(), "ratio:-0.500");
    assert_eq!(parse_rule_string("ratio:-INF").label(), "ratio:-inf");
    assert_eq!(parse_rule_string("ratio:inf").label(), "ratio:inf");
    assert!(!parse_rule_string("ratio:inf").evaluate(8, 8));
    let nan = parse_rule_string("ratio:NaN");
    assert_eq!(nan, SatisfactionRule::Ratio { num: 0, den: 0, negative: false });
    assert!(!nan.evaluate(8, 8));
    assert!(!nan.evaluate(0, 3));
    assert!(nan.evaluate(0, 0));
    assert_eq!(nan.label(), "ratio:NaN");
    let minus_nan = parse_rule_string("ratio:-nan");
    assert!(!minus_nan.evaluate(8, 8));
    assert_eq!(minus_nan.label(), "ratio:NaN");
    assert!(parse_rule_string("ratio:inf").evaluate(0, 0));
}

#[test]
fn rule_labels() {
    assert_eq!(SatisfactionRule::Ratio { num: 1, den: 3, negative: false }.label(), "ratio:0.333");
    assert_eq!(SatisfactionRule::Ratio { num: 2, den: 3, negative: false }.label(), "ratio:0.667");
    assert_eq!(SatisfactionRule::Ratio { num: 5, den: 10, negative: false }.label(), "ratio:0.500");
    assert_eq!(SatisfactionRule::Ratio { num: 3, den: 2, negative: false }.label(), "ratio:1.500");
    assert_eq!(SatisfactionRule::Ratio { num: 1, den: 0, negative: false }.label(), "ratio:inf");
    assert_eq!(SatisfactionRule::MinSame { min_same: 3 }.label(), "min-same:3");
    assert_eq!(SatisfactionRule::Bounded { min_same: 3, max_same: 16 }.label(), "bounded:3:16");
}

#[test]
fn labels_read_back() {
    for rule in [
        SatisfactionRule::MinSame { min_same: 0 },
        SatisfactionRule::MinSame { min_same: 12345 },
        SatisfactionRule::Bounded { min_same: 2, max_same: 7 },
    ] {
        assert_eq!(parse_rule_string(&rule.label()), rule);
    }
    assert_eq!(
        parse_rule_string(&SatisfactionRule::Ratio { num: 1, den: 3, negative: false }.label()),
        SatisfactionRule::Ratio { num: 333, den: 1000, negative: false }
    );
}

#[test]
fn move_mode_names() {
    assert_eq!(MoveMode::parse("standard"), Some(MoveMode::Standard));
    assert_eq!(MoveMode::parse("strict"), Some(MoveMode::Strict));
    assert_eq!(MoveMode::parse("Strict"), None);
    assert_eq!(MoveMode::Standard.label(), "standard");
    assert_eq!(MoveMode::Strict.label(), "strict");
    for m in [MoveMode::Standard, MoveMode::Strict] {
        assert_eq!(MoveMode::parse(m.label()), Some(m));
    }
}

#[test]
fn move_strategy_names() {
    assert_eq!(MoveStrategy::parse("nearest"), Some(MoveStrategy::Nearest));
    assert_eq!(MoveStrategy::parse("best-local"), Some(MoveStrategy::BestLocal));
    assert_eq!(MoveStrategy::parse("best_local"), None);
    for s in [MoveStrategy::Nearest, MoveStrategy::BestLocal] {
        assert_eq!(MoveStrategy::parse(s.label()), Some(s));
    }
}
