use linera_parsing_tools::extract::{
    benchmark_tokens_of, log_key_digits, measurements_of_tokens, millisecond_parts, runtime_tail,
    trace_busy_idle, without_last_char, TimeScale, TimeUnit, TraceScan,
};

fn strings(v: &[&str]) -> Vec<String> {
    v.iter().map(|x| x.to_string()).collect()
}

#[test]
fn benchmark_report_tokens_and_measurements() {
    let line = "bench_a time: [1.0 µs 2.5 µs 3.0 µs] change: x bench_b time: [4 ms 5 ms 6 ms]";
    let toks = benchmark_tokens_of(line, "bench_a").unwrap();
    assert_eq!(toks[0], "time:");
    let ms = measurements_of_tokens(&toks);
    let got: Vec<(String, TimeUnit)> = ms.into_iter().map(|m| (m.value, m.unit)).collect();
    // The report runs up to the next occurrence of the target, so the
    // measurements of the later benchmark are read too.
    assert_eq!(
        got,
        vec![
            ("1.0".to_string(), TimeUnit::Micros),
            ("2.5".to_string(), TimeUnit::Micros),
            ("3.0".to_string(), TimeUnit::Micros),
            ("4".to_string(), TimeUnit::Millis),
            ("5".to_string(), TimeUnit::Millis),
            ("6".to_string(), TimeUnit::Millis),
        ]
    );
    let toks = benchmark_tokens_of(line, "bench_b").unwrap();
    let ms = measurements_of_tokens(&toks);
    assert_eq!(ms.len(), 3);
    assert_eq!(ms[1].value, "5");
    assert_eq!(ms[1].unit, TimeUnit::Millis);
    assert!(benchmark_tokens_of(line, "bench_c").is_none());
}

#[test]
fn log_values_after_the_key() {
    assert_eq!(log_key_digits("block took 1_234 ms", "took").as_deref(), Some("1234"));
    assert_eq!(log_key_digits("block took 12 s", "took"), None);
    assert_eq!(log_key_digits("took took 3ms", "took"), None);
    assert_eq!(log_key_digits("nothing 3ms", "took"), None);
    assert_eq!(log_key_digits("took ½3ms", "took").as_deref(), Some("½3"));
}

#[test]
fn runtime_is_two_lines_after_its_target() {
    let lines = strings(&["start", "running target_x", "noise", "finished in 12.5s", "end"]);
    assert_eq!(runtime_tail(&lines, "target_x").as_deref(), Some("12.5s"));
    assert_eq!(runtime_tail(&lines, "absent"), None);
    let short = strings(&["target_x", "finished in 1s"]);
    assert_eq!(runtime_tail(&short, "target_x"), None);
    assert_eq!(without_last_char(&"12.5s".to_string()), "12.5");
}

#[test]
fn duration_suffixes() {
    assert_eq!(millisecond_parts("12ns"), Some(("12".to_string(), TimeScale::Nanos)));
    assert_eq!(millisecond_parts("3.5µs"), Some(("3.5".to_string(), TimeScale::Micros)));
    assert_eq!(millisecond_parts("4ms"), Some(("4".to_string(), TimeScale::Millis)));
    assert_eq!(millisecond_parts("5s"), Some(("5".to_string(), TimeScale::Seconds)));
    assert_eq!(millisecond_parts("5m"), None);
}

#[test]
fn trace_close_lines() {
    let keys = strings(&["span_a", "close"]);
    match trace_busy_idle("x span_a y close time.busy=1ms time.idle=2µs", &keys) {
        TraceScan::Found(b, i) => {
            assert_eq!(b, "1ms");
            assert_eq!(i, "2µs");
        },
        _ => panic!("expected both times"),
    }
    assert!(matches!(trace_busy_idle("x close time.idle=2µs", &keys), TraceScan::Absent));
    assert!(matches!(trace_busy_idle("span_a span_a close", &keys), TraceScan::Repeated));
    match trace_busy_idle("span_a close time.idle=2µs", &keys) {
        TraceScan::IdleOnly(i) => assert_eq!(i, "2µs"),
        _ => panic!("expected the idle time only"),
    }
    assert!(matches!(trace_busy_idle("span_a close time.busy=1ms", &keys), TraceScan::Absent));
}
