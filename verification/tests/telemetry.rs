use sim_runner::telemetry::measure_window;
use sim_runner::telemetry::parse_telemetry_line;
use sim_runner::telemetry::telemetry_outcome;
use sim_runner::telemetry::Measurement;
use sim_runner::telemetry::TelemetrySample;
use sim_runner::telemetry::TelemetryWindow;
use sim_runner::telemetry::WindowStep;

fn sample(elapsed_s: u64, total_packets: u64) -> TelemetrySample {
    TelemetrySample { elapsed_s, total_packets }
}

fn line(elapsed_s: u64, total_packets: u64) -> String {
    format!("[{elapsed_s:>4}s] SPD1:    100 pkt/s | total: {total_packets} pkts, 0.000123 sim-s")
}

#[test]
fn parses_documented_monitor_line() {
    let l = "[   3s] SPD1:    123456 pkt/s | ... | total: 246912 pkts, 0.000123 sim-s";
    assert_eq!(parse_telemetry_line(l), Some(sample(3, 246912)));
}

#[test]
fn parses_minimal_line() {
    assert_eq!(parse_telemetry_line("[0s] total: 0 pkts"), Some(sample(0, 0)));
}

#[test]
fn elapsed_field_is_trimmed_of_unicode_white_space() {
    assert_eq!(parse_telemetry_line("[\t 12\u{a0}s] total: 7 pkts"), Some(sample(12, 7)));
}

#[test]
fn plus_sign_is_accepted_as_from_str_does() {
    assert_eq!(parse_telemetry_line("[+5s] total: +9 pkts"), Some(sample(5, 9)));
}

#[test]
fn rejects_line_without_bracket() {
    assert_eq!(parse_telemetry_line(" [3s] total: 1 pkts"), None);
    assert_eq!(parse_telemetry_line(""), None);
}

#[test]
fn rejects_line_without_total() {
    assert_eq!(parse_telemetry_line("[3s] SPD1: 5 pkt/s"), None);
    assert_eq!(parse_telemetry_line("[3s] total: 5 packets"), None);
}

#[test]
fn rejects_bad_numbers() {
    assert_eq!(parse_telemetry_line("[3xs] total: 5 pkts"), None);
    assert_eq!(parse_telemetry_line("[s] total: 5 pkts"), None);
    assert_eq!(parse_telemetry_line("[3s] total: -5 pkts"), None);
    assert_eq!(parse_telemetry_line("[3s] total:  5 pkts"), None);
    assert_eq!(parse_telemetry_line("[3s] total: 1 2 pkts"), None);
}

#[test]
fn u64_bounds() {
    assert_eq!(
        parse_telemetry_line("[18446744073709551615s] total: 18446744073709551615 pkts"),
        Some(sample(u64::MAX, u64::MAX))
    );
    assert_eq!(parse_telemetry_line("[18446744073709551616s] total: 1 pkts"), None);
    assert_eq!(parse_telemetry_line("[1s] total: 18446744073709551616 pkts"), None);
}

#[test]
fn first_markers_are_used() {
    // the first "s]" closes the elapsed field, the first "total: " opens the count
    assert_eq!(parse_telemetry_line("[2s] x s] total: 4 pkts total: 9 pkts"), Some(sample(2, 4)));
    // the count ends at the first " pkts" after "total: "
    assert_eq!(parse_telemetry_line("[2s] 3 pkts total: 8 pkts"), Some(sample(2, 8)));
}

#[test]
fn window_opens_at_first_sample_and_closes_after_window() {
    let mut w = TelemetryWindow::new(2);
    assert_eq!(w.step("starting up"), WindowStep::Waiting);
    assert_eq!(w.step(&line(1, 100)), WindowStep::Waiting);
    assert_eq!(w.first, Some(sample(1, 100)));
    assert_eq!(w.step(&line(2, 250)), WindowStep::Waiting);
    assert_eq!(w.step("garbage"), WindowStep::Waiting);
    assert_eq!(
        w.step(&line(3, 400)),
        WindowStep::Measured(Measurement { first: sample(1, 100), last: sample(3, 400) })
    );
}

#[test]
fn zero_window_closes_at_second_sample() {
    let mut w = TelemetryWindow::new(0);
    assert_eq!(w.step(&line(4, 10)), WindowStep::Waiting);
    assert_eq!(
        w.step(&line(4, 30)),
        WindowStep::Measured(Measurement { first: sample(4, 10), last: sample(4, 30) })
    );
}

#[test]
fn window_does_not_overflow_on_huge_first_sample() {
    let mut w = TelemetryWindow::new(10);
    assert_eq!(w.step(&line(u64::MAX - 3, 0)), WindowStep::Waiting);
    assert_eq!(w.step(&line(u64::MAX, 5)), WindowStep::Waiting);
    assert_eq!(w.step(&line(2, 5)), WindowStep::Waiting);
}

#[test]
fn measure_window_over_lines() {
    let lines = vec![
        "boot".to_string(),
        line(1, 10),
        line(2, 20),
        line(4, 50),
        line(9, 500),
    ];
    let m = measure_window(&lines, 3).unwrap();
    assert_eq!(m, Measurement { first: sample(1, 10), last: sample(4, 50) });
    assert_eq!(m.packets(), 40);
    assert_eq!(m.seconds(), 3);
}

#[test]
fn measure_window_ends_without_enough_lines() {
    let lines = vec![line(1, 10), line(2, 20)];
    assert_eq!(measure_window(&lines, 5), None);
    assert_eq!(measure_window(&Vec::new(), 0), None);
}

#[test]
fn monitor_format_round_trips() {
    for (e, t) in [(0u64, 0u64), (3, 246912), (u64::MAX, 1), (10, u64::MAX)] {
        let l = format!("[{e}s] total: {t} pkts");
        assert_eq!(parse_telemetry_line(&l), Some(sample(e, t)));
    }
}

#[test]
fn telemetry_outcome_reports_early_end() {
    let m = Measurement { first: sample(1, 2), last: sample(3, 4) };
    assert_eq!(telemetry_outcome(Some(m)).unwrap(), m);
    match telemetry_outcome(None) {
        Err(e) => assert_eq!(e.message(), "fresnel exited before emitting enough telemetry lines"),
        Ok(_) => panic!("expected an error"),
    }
}
