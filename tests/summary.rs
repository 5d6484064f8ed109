use ising_monte_carlo::params::InitialState;
use ising_monte_carlo::summary::{parse_summary, render_parameters, settle_summary, total_bonds, SummaryError, SummaryFields};
use ising_monte_carlo::summary::{KEY_H, KEY_J, KEY_L, KEY_T_START};

fn fields() -> SummaryFields {
    SummaryFields {
        l: 16,
        j: "1".to_string(),
        p: "0.05".to_string(),
        h: "-0.25".to_string(),
        initial_state: InitialState::AllDown,
        mc_steps: 2000,
        therm_steps: 1000,
        stride: 5,
        sample_count: 3,
        t_start: "1.5".to_string(),
        t_end: "3.5".to_string(),
        t_step: "0.05".to_string(),
        tc_step: "0.0001".to_string(),
    }
}

fn same(a: &SummaryFields, b: &SummaryFields) -> bool {
    a.l == b.l && a.j == b.j && a.p == b.p && a.h == b.h && a.initial_state == b.initial_state
        && a.mc_steps == b.mc_steps && a.therm_steps == b.therm_steps && a.stride == b.stride
        && a.sample_count == b.sample_count && a.t_start == b.t_start && a.t_end == b.t_end
        && a.t_step == b.t_step && a.tc_step == b.tc_step
}

#[test]
fn written_parameters_read_back() {
    let f = fields();
    let block = render_parameters(&f, 26);
    assert!(block.contains("Total bonds = 512\n"));
    assert!(block.contains("-J bonds (rigid) = 26\n"));
    let text = format!(
        "Simulation summary\nTimestamp: 20240101_000000\nOutput directory: out\n\n{}\nAuto analysis windows\nT window (envelope) = [1.500000, 3.500000]\n",
        block
    );
    match parse_summary(&text).outcome {
        Ok(g) => assert!(same(&f, &g)),
        Err(_) => panic!("summary not read"),
    }
}

#[test]
fn samples_default_to_one() {
    let mut f = fields();
    f.sample_count = 0;
    let text = render_parameters(&f, 0);
    let g = parse_summary(&text).outcome.ok().unwrap();
    assert_eq!(g.sample_count, 1);
    let text = text.replace("Disorder samples = 0\n", "");
    let g = parse_summary(&text).outcome.ok().unwrap();
    assert_eq!(g.sample_count, 1);
}

#[test]
fn missing_key_is_reported_in_order() {
    let text = "L = 4\np = 0\n";
    match parse_summary(text).outcome {
        Err(SummaryError::Missing(k)) => assert_eq!(k, KEY_J),
        _ => panic!("expected a missing key"),
    }
    let e = SummaryError::Missing(KEY_T_START);
    assert_eq!(e.message("run/summary.txt"), "Missing T_start in run/summary.txt");
}

#[test]
fn invalid_count_is_reported() {
    let text = "J = 1\n  L =  four \nL = 4\n";
    match parse_summary(text).outcome {
        Err(SummaryError::Invalid(k, v)) => {
            assert_eq!(k, KEY_L);
            assert_eq!(v, "four");
            let e = SummaryError::Invalid(k, v);
            assert_eq!(e.message("s.txt"), "Invalid L value in s.txt: 'four'");
        }
        _ => panic!("expected an invalid value"),
    }
}

#[test]
fn invalid_label_is_reported() {
    let text = "Initial state = Sideways\n";
    assert!(matches!(parse_summary(text).outcome, Err(SummaryError::Invalid(4, _))));
}

#[test]
fn bond_totals_saturate() {
    assert_eq!(total_bonds(32), 2048);
    assert_eq!(total_bonds(0), 0);
    assert_eq!(total_bonds(usize::MAX), usize::MAX);
}

fn load(text: &str) -> Result<SummaryFields, SummaryError> {
    let reading = parse_summary(text);
    let valid: Vec<bool> = reading.real_entries.iter().map(|(_, v)| v.parse::<f64>().is_ok()).collect();
    settle_summary(reading, &valid)
}

#[test]
fn first_bad_entry_in_file_order_is_reported() {
    match load("J = abc\nL = x\n") {
        Err(SummaryError::Invalid(k, v)) => {
            assert_eq!(k, KEY_J);
            assert_eq!(v, "abc");
        }
        _ => panic!("expected the invalid J"),
    }
    match load("L = x\nJ = abc\n") {
        Err(SummaryError::Invalid(k, v)) => {
            assert_eq!(k, KEY_L);
            assert_eq!(v, "x");
        }
        _ => panic!("expected the invalid L"),
    }
    match load("H = q\nJ = w\n") {
        Err(SummaryError::Invalid(k, _)) => assert_eq!(k, KEY_H),
        _ => panic!("expected the invalid H"),
    }
    match load("p = 0.1\nH = nope\n") {
        Err(SummaryError::Invalid(k, _)) => assert_eq!(k, KEY_H),
        _ => panic!("a bad value comes before a missing key"),
    }
    let reading = parse_summary("J = 1\nT_end = 4\nL = 8\nJ = 2\n");
    let keys: Vec<usize> = reading.real_entries.iter().map(|(k, _)| *k).collect();
    assert_eq!(keys, vec![KEY_J, 9, KEY_J]);
}

#[test]
fn rendered_summary_loads() {
    let f = fields();
    match load(&render_parameters(&f, 3)) {
        Ok(g) => assert!(same(&f, &g)),
        Err(_) => panic!("summary not loaded"),
    }
}
