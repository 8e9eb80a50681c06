use calc_engine::engine::{get_bracket_indicator, get_op_indicator, Config, Engine};
use calc_engine::token::CalcError;

fn push_all(e: &mut Engine, keys: &[&str]) {
    for k in keys {
        let _ = e.push(k);
    }
}

#[test]
fn add_two_numbers_display_and_history() {
    let mut e = Engine::new();
    push_all(&mut e, &["1", "+", "2", "="]);
    assert_eq!(e.get_display_sized(10), "         3");
    assert_eq!(e.get_history_string(false), Some(String::from("1+2 = 3")));
}

#[test]
fn bracket_overrides_precedence() {
    let mut e = Engine::new();
    push_all(&mut e, &["(", "1", "+", "2", ")", "*", "3", "="]);
    assert_eq!(e.get_display_sized(10), "         9");
    assert_eq!(e.get_history_string(false), Some(String::from("(1+2)*3 = 9")));
}

#[test]
fn bracket_count_never_negative() {
    let mut e = Engine::new();
    assert_eq!(e.count_opened_brackets(), 0);
    let _ = e.push("(");
    assert_eq!(e.count_opened_brackets(), 1);
    let _ = e.push(")");
    assert_eq!(e.count_opened_brackets(), 0);
    let r = e.push(")");
    assert!(r.is_ok());
    assert_eq!(e.count_opened_brackets(), 0);
}

#[test]
fn empty_bracket_pair_holds_zero() {
    let mut e = Engine::new();
    push_all(&mut e, &["(", ")"]);
    assert_eq!(e.count_opened_brackets(), 0);
    assert_eq!(e.get_display_sized(5), "    0");
    let mut f = Engine::new();
    push_all(&mut f, &["5", "+", "(", ")", "="]);
    assert_eq!(f.get_display_sized(5), "    5");
}

#[test]
fn undo_restores_state_after_push() {
    let mut e = Engine::new();
    push_all(&mut e, &["4", "2"]);
    let before = e.clone();
    let _ = e.push("7");
    assert_ne!(e, before);
    assert!(e.undo());
    assert_eq!(e, before);
}

#[test]
fn undo_restores_after_operator_and_clear() {
    let mut e = Engine::new();
    push_all(&mut e, &["8", "*"]);
    let before = e.clone();
    let _ = e.push("9");
    assert!(e.undo());
    assert_eq!(e, before);
    let before_clear = e.clone();
    let _ = e.push("ac");
    assert!(e.undo());
    assert_eq!(e, before_clear);
}

#[test]
fn undo_beyond_history_returns_false() {
    let mut e = Engine::new();
    let before = e.clone();
    assert!(!e.undo());
    assert_eq!(e, before);
}

#[test]
fn divide_by_zero_sets_error_and_blocks() {
    let mut e = Engine::new();
    push_all(&mut e, &["1", "/", "0", "="]);
    assert_eq!(e.get_display_sized(10), "     Error");
    let r = e.push("5");
    assert_eq!(r, Err(CalcError::DivideByZero));
    assert_eq!(e.get_display_sized(10), "     Error");
    e.reset();
    assert_eq!(e.get_display_sized(10), "         0");
}

#[test]
fn error_recovered_by_undo() {
    let mut e = Engine::new();
    push_all(&mut e, &["1", "/", "0"]);
    let before = e.clone();
    let _ = e.push("=");
    assert!(e.undo());
    assert_eq!(e, before);
}

#[test]
fn reset_is_idempotent() {
    let mut e = Engine::new();
    push_all(&mut e, &["3", ".", "1", "+", "2"]);
    let mut once = e.clone();
    once.reset();
    let mut twice = once.clone();
    twice.reset();
    assert_eq!(once, twice);
}

#[test]
fn result_reentry_round_trip() {
    let mut e = Engine::new();
    push_all(&mut e, &["1", "0", "/", "4", "="]);
    assert_eq!(e.get_display_sized(10), "       2.5");
    push_all(&mut e, &["2", ".", "5", "+", "0", "="]);
    assert_eq!(e.get_display_sized(10), "       2.5");
}

#[test]
fn operand_text_is_digits_typed() {
    let mut e = Engine::new();
    push_all(&mut e, &["1", "2", ".", "0", "5"]);
    assert_eq!(e.get_display_sized(8), "   12.05");
}

#[test]
fn second_decimal_point_ignored() {
    let mut e = Engine::new();
    push_all(&mut e, &["3", ".", "1", ".", "4"]);
    assert_eq!(e.get_display_sized(8), "    3.14");
}

#[test]
fn leading_zero_collapses() {
    let mut e = Engine::new();
    push_all(&mut e, &["0", "0", "7"]);
    assert_eq!(e.get_display_sized(5), "    7");
}

#[test]
fn unknown_key_rejected_without_change() {
    let mut e = Engine::new();
    push_all(&mut e, &["4", "2"]);
    let before = e.clone();
    assert_eq!(e.push("zz"), Err(CalcError::UnknownToken));
    assert_eq!(e, before);
}

#[test]
fn percent_divides_by_hundred() {
    let mut e = Engine::new();
    push_all(&mut e, &["5", "0", "%"]);
    assert_eq!(e.get_display_sized(6), "   0.5");
}

#[test]
fn exact_unary_functions() {
    let mut e = Engine::new();
    push_all(&mut e, &["5", "neg"]);
    assert_eq!(e.get_display_sized(6), "    -5");
    let _ = e.push("abs");
    assert_eq!(e.get_display_sized(6), "     5");
    let _ = e.push("square");
    assert_eq!(e.get_display_sized(6), "    25");
    let _ = e.push("inv");
    assert_eq!(e.get_display_sized(6), "  0.04");
}

#[test]
fn inv_of_zero_is_domain_error() {
    let mut e = Engine::new();
    push_all(&mut e, &["0", "inv"]);
    assert_eq!(e.get_display_sized(10), "     Error");
}

#[test]
fn sqrt_of_negative_is_domain_error() {
    let mut e = Engine::new();
    push_all(&mut e, &["4", "neg", "sqrt"]);
    assert_eq!(e.get_display_sized(10), "     Error");
}

#[test]
fn sqrt_through_outside_calculator() {
    let mut e = Engine::new();
    push_all(&mut e, &["9", "sqrt"]);
    assert_eq!(e.get_display_sized(10), "         3");
}

#[test]
fn log_through_outside_calculator() {
    let mut e = Engine::new();
    push_all(&mut e, &["1", "0", "0", "log"]);
    assert_eq!(e.get_display_sized(10), "         2");
}

#[test]
fn cos_of_zero_is_one() {
    let mut e = Engine::new();
    push_all(&mut e, &["0", "cos"]);
    assert_eq!(e.get_display_sized(10), "         1");
}

#[test]
fn entry_capped_at_eighteen_digits() {
    let mut e = Engine::new();
    for _ in 0..18 {
        assert!(e.push("9").is_ok());
    }
    assert_eq!(e.push("9"), Err(CalcError::OverflowError));
    assert_eq!(e.get_display_sized(20), "  999999999999999999");
}

#[test]
fn last_operator_and_indicators() {
    let mut e = Engine::new();
    assert_eq!(e.get_last_operator(), None);
    assert_eq!(get_op_indicator(&e), " ");
    push_all(&mut e, &["1", "/"]);
    assert_eq!(e.get_last_operator(), Some(String::from("/")));
    assert_eq!(get_op_indicator(&e), "\u{f7}");
    let _ = e.push("(");
    assert_eq!(get_bracket_indicator(&e), "\u{2474}");
}

#[test]
fn verbose_history_joins_lines() {
    let mut e = Engine::new();
    push_all(&mut e, &["1", "+", "2", "="]);
    push_all(&mut e, &["4", "*", "5", "="]);
    assert_eq!(
        e.get_history_string(true),
        Some(String::from("1+2 = 3\n4*5 = 20"))
    );
    assert_eq!(e.get_history_string(false), Some(String::from("4*5 = 20")));
}

#[test]
fn history_survives_reset() {
    let mut e = Engine::new();
    push_all(&mut e, &["1", "+", "2", "="]);
    e.reset();
    assert_eq!(e.get_history_string(false), Some(String::from("1+2 = 3")));
}

#[test]
fn history_continues_from_result() {
    let mut e = Engine::new();
    push_all(&mut e, &["1", "+", "2", "="]);
    push_all(&mut e, &["+", "5", "="]);
    assert_eq!(e.get_history_string(false), Some(String::from("3+5 = 8")));
}

#[test]
fn disabled_undo_and_history() {
    let mut e = Engine::new_with_config(Config {
        enable_undo: false,
        enable_history: false,
        max_undo_depth: 0,
    });
    push_all(&mut e, &["1", "+", "2", "="]);
    assert_eq!(e.get_history_string(false), None);
    assert!(!e.undo());
    assert_eq!(e.get_display_sized(10), "         3");
}

#[test]
fn undo_depth_evicts_oldest() {
    let mut e = Engine::new_with_config(Config {
        enable_undo: true,
        enable_history: true,
        max_undo_depth: 2,
    });
    push_all(&mut e, &["1", "2", "3"]);
    assert!(e.undo());
    assert!(e.undo());
    assert!(!e.undo());
    assert_eq!(e.get_display_sized(5), "    1");
}

#[test]
fn evaluate_with_trailing_operator_is_malformed() {
    let mut e = Engine::new();
    push_all(&mut e, &["1", "+"]);
    assert_eq!(e.push("="), Err(CalcError::MalformedExpression));
    assert_eq!(e.get_display_sized(10), "     Error");
}

#[test]
fn unmatched_open_bracket_auto_closes() {
    let mut e = Engine::new();
    push_all(&mut e, &["(", "1", "+", "2", "="]);
    assert_eq!(e.get_display_sized(10), "         3");
}

#[test]
fn adjacent_operand_and_bracket_rejected() {
    let mut e = Engine::new();
    let _ = e.push("2");
    assert_eq!(e.push("("), Err(CalcError::MalformedExpression));
    assert_eq!(e.get_display_sized(5), "    2");
}

#[test]
fn display_truncates_fraction_to_width() {
    let mut e = Engine::new();
    push_all(&mut e, &["1", "0", "/", "3", "="]);
    assert_eq!(e.get_display_sized(6), "3.3333");
}

#[test]
fn display_scientific_when_integer_too_wide() {
    let mut e = Engine::new();
    for _ in 0..9 {
        let _ = e.push("9");
    }
    push_all(&mut e, &["*", "9", "="]);
    // 999999999 * 9 = 8999999991, which cannot show in 6 places
    assert_eq!(e.get_display_sized(6), "8.99E9");
}
