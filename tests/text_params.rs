use ising_monte_carlo::params::{check_count, not_count_message, BatchApp, CountError, InitialState};
use ising_monte_carlo::params::{BATCH_FIELD_COUNT, BATCH_FIELD_L, BATCH_FIELD_P_STEP};
use ising_monte_carlo::params::{BATCH_FIELD_TC_WIN_MAX, BATCH_FIELD_T_WIN_MAX};
use ising_monte_carlo::text::{decimal, parse_count, trim};

#[test]
fn trim_removes_surrounding_whitespace() {
    assert_eq!(trim("  a b \t\r"), "a b");
    assert_eq!(trim(" \n "), "");
    assert_eq!(trim("x"), "x");
    assert_eq!(trim("\u{3000}y\u{a0}"), "y");
}

#[test]
fn counts_parse_like_usize() {
    assert_eq!(parse_count("42"), Some(42));
    assert_eq!(parse_count("+7"), Some(7));
    assert_eq!(parse_count("007"), Some(7));
    assert_eq!(parse_count(""), None);
    assert_eq!(parse_count("+"), None);
    assert_eq!(parse_count("-1"), None);
    assert_eq!(parse_count("1.5"), None);
    assert_eq!(parse_count(" 1"), None);
    assert_eq!(parse_count("18446744073709551615"), Some(usize::MAX));
    assert_eq!(parse_count("18446744073709551616"), None);
}

#[test]
fn decimal_writes_counts() {
    assert_eq!(decimal(0), "0");
    assert_eq!(decimal(10000), "10000");
    assert_eq!(decimal(usize::MAX), usize::MAX.to_string());
}

#[test]
fn labels_round_trip() {
    for s in [InitialState::Random, InitialState::AllUp, InitialState::AllDown] {
        assert_eq!(InitialState::from_label(s.label()), Some(s));
        assert_eq!(s.next().prev(), s);
        assert_eq!(s.next().next().next(), s);
    }
    assert_eq!(InitialState::AllUp.label(), "All Up  (+1)");
    assert_eq!(InitialState::from_label("  All Down (-1) "), Some(InitialState::AllDown));
    assert_eq!(InitialState::from_label("All Up (+1)"), None);
    assert_eq!(InitialState::Random.next(), InitialState::AllUp);
    assert_eq!(InitialState::Random.prev(), InitialState::AllDown);
}

#[test]
fn count_fields_are_checked() {
    assert_eq!(check_count(" 32 ", 2), Ok(32));
    assert_eq!(check_count("1", 2), Err(CountError::TooSmall));
    assert_eq!(check_count("abc", 1), Err(CountError::NotCount));
    assert_eq!(check_count("0", 0), Ok(0));
    assert_eq!(
        not_count_message("L", "x2"),
        "L must be a positive integer, got 'x2'"
    );
}

#[test]
fn batch_form_starts_with_defaults() {
    let app = BatchApp::new();
    assert_eq!(app.fields.len(), BATCH_FIELD_COUNT);
    assert_eq!(app.selected, BATCH_FIELD_L);
    assert!(app.error_msg.is_none());
    let expected = [
        "32", "1", "0", "1", "4", "0.1", "10000", "5000", "10", "1", "0", "0.1", "0.01", "2",
        "2.45", "2.25", "2.45",
    ];
    for (f, e) in app.fields.iter().zip(expected.iter()) {
        assert_eq!(f, e);
    }
}

#[test]
fn batch_cursor_skips_window_fields_in_auto_mode() {
    let mut app = BatchApp::new();
    app.move_up(false);
    assert_eq!(app.selected, BATCH_FIELD_L);
    app.move_down(false);
    assert_eq!(app.selected, 1);
    app.selected = BATCH_FIELD_P_STEP;
    app.move_down(false);
    assert_eq!(app.selected, BATCH_FIELD_P_STEP + 1);
    app.selected = BATCH_FIELD_TC_WIN_MAX;
    app.move_up(true);
    assert_eq!(app.selected, BATCH_FIELD_P_STEP);
    app.move_down(true);
    assert_eq!(app.selected, BATCH_FIELD_TC_WIN_MAX);
    app.move_down(true);
    assert_eq!(app.selected, BATCH_FIELD_TC_WIN_MAX);
    app.selected = BATCH_FIELD_T_WIN_MAX;
    app.error_msg = Some("bad".to_string());
    assert!(app.toggle_window(false));
    assert_eq!(app.selected, BATCH_FIELD_P_STEP);
    assert!(app.error_msg.is_none());
    assert!(!app.toggle_window(true));
    assert_eq!(app.selected, BATCH_FIELD_P_STEP);
}
