use hft_latency_lab::bench_env::{parse_ctxt_switches, EnvSnapshot};

#[test]
fn parses_proc_status_counters() {
    let status = "Name:\tbench\nState:\tR (running)\nvoluntary_ctxt_switches:\t12\nnonvoluntary_ctxt_switches:\t3\n";
    assert_eq!(parse_ctxt_switches(status), (12, 3));
    let snap = EnvSnapshot::take(status);
    assert_eq!(snap.vol, 12);
    assert_eq!(snap.nonvol, 3);
}

#[test]
fn missing_or_malformed_counters_read_as_zero() {
    assert_eq!(parse_ctxt_switches(""), (0, 0));
    assert_eq!(parse_ctxt_switches("voluntary_ctxt_switches: x1\n"), (0, 0));
    assert_eq!(parse_ctxt_switches("nonvoluntary_ctxt_switches:   \n"), (0, 0));
    assert_eq!(parse_ctxt_switches("voluntary_ctxt_switches: 99999999999999999999"), (0, 0));
    assert_eq!(parse_ctxt_switches(" voluntary_ctxt_switches: 5"), (0, 0));
}

#[test]
fn later_lines_override_and_whitespace_is_trimmed() {
    let status = "voluntary_ctxt_switches: 1\r\nvoluntary_ctxt_switches:\u{a0}+7 \nnonvoluntary_ctxt_switches:18446744073709551615";
    assert_eq!(parse_ctxt_switches(status), (7, u64::MAX));
}

#[test]
fn isolation_clean_compares_involuntary_switches() {
    let before = EnvSnapshot { vol: 10, nonvol: 4 };
    assert!(before.isolation_clean(&EnvSnapshot { vol: 50, nonvol: 4 }));
    assert!(!before.isolation_clean(&EnvSnapshot { vol: 10, nonvol: 5 }));
}
