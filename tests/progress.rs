use ising_monte_carlo::progress::{parse_progress_line, split_words, sweep_progress_head, tc_progress_line, ProgressLine};

#[test]
fn progress_lines_are_read() {
    assert_eq!(parse_progress_line("BATCH_PROGRESS SWEEP 3 31 1.20000000"), ProgressLine::Sweep(3, 31));
    assert_eq!(parse_progress_line("BATCH_PROGRESS TC 7 2001"), ProgressLine::Tc(7, 2001));
    assert_eq!(parse_progress_line("BATCH_PROGRESS TC 7"), ProgressLine::Unreadable);
    assert_eq!(parse_progress_line("BATCH_PROGRESS TC x 9"), ProgressLine::Unreadable);
    assert_eq!(parse_progress_line("BATCH_PROGRESS FOO 1 2"), ProgressLine::Unreadable);
    assert_eq!(parse_progress_line("BATCH_PROGRESS   TC   4   5  "), ProgressLine::Tc(4, 5));
    assert_eq!(parse_progress_line("Sweep finished"), ProgressLine::Log(false));
    assert_eq!(parse_progress_line("   "), ProgressLine::Log(true));
    assert_eq!(parse_progress_line("BATCH_PROGRESS"), ProgressLine::Log(false));
}

#[test]
fn progress_lines_are_written() {
    let tc = tc_progress_line(12, 400);
    assert_eq!(tc, "BATCH_PROGRESS TC 12 400");
    assert_eq!(parse_progress_line(&tc), ProgressLine::Tc(12, 400));
    let sweep = format!("{}{:.8}", sweep_progress_head(2, 31), 1.1f64);
    assert_eq!(sweep, "BATCH_PROGRESS SWEEP 2 31 1.10000000");
    assert_eq!(parse_progress_line(&sweep), ProgressLine::Sweep(2, 31));
}

#[test]
fn words_split_on_whitespace() {
    assert_eq!(split_words("  a bc\td  "), vec!["a", "bc", "d"]);
    assert!(split_words("   ").is_empty());
    assert_eq!(split_words("x"), vec!["x"]);
}
