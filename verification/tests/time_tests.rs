use linera_parsing_tools::timefmt::{
    format_calendar, get_duration_as_string, get_request_string, get_time_string_lower,
    get_time_string_upper, request_window_from_interval, request_window_from_texts, run_window,
    CalendarTime,
};

#[test]
fn calendar_fields_are_printed_zero_padded() {
    let c = CalendarTime { year: 2024, month: 3, day: 5, hour: 7, minute: 8, second: 9 };
    assert_eq!(format_calendar(&c), "2024-03-05T07:08:09Z");
    let c = CalendarTime { year: -5, month: 12, day: 31, hour: 23, minute: 59, second: 59 };
    assert_eq!(format_calendar(&c), "-5-12-31T23:59:59Z");
}

#[test]
fn run_window_widens_by_two_seconds() {
    let (lo, hi) = run_window(0, 0).unwrap();
    assert_eq!(lo, "1969-12-31T23:59:58Z");
    assert_eq!(hi, "1970-01-01T00:00:02Z");
    let (lo, hi) = run_window(1_700_000_000, 1_700_000_100).unwrap();
    assert_eq!(lo, "2023-11-14T22:13:18Z");
    assert_eq!(hi, "2023-11-14T22:15:02Z");
}

#[test]
fn run_window_outside_chrono_range_is_refused() {
    assert_eq!(run_window(i64::MIN, 0), None);
    assert_eq!(run_window(0, i64::MAX / 2), None);
}

#[test]
fn request_window_from_parsed_texts() {
    let (a, b) = request_window_from_texts("2024-01-01T00:00:00Z", "2024-01-02T03:04:05.7Z").unwrap();
    assert_eq!(a, "2024-01-01T00:00:00Z");
    assert_eq!(b, "2024-01-02T03:04:05Z");
    assert_eq!(request_window_from_texts("yesterday", "2024-01-02T03:04:05Z"), None);
}

#[test]
fn request_window_from_an_interval() {
    let (a, b) = request_window_from_interval(86_400, 3_600).unwrap();
    assert_eq!(a, "1970-01-01T23:00:00Z");
    assert_eq!(b, "1970-01-02T00:00:00Z");
    assert_eq!(request_window_from_interval(0, u64::MAX), None);
}

#[test]
fn durations_print_their_leading_fields() {
    assert_eq!(get_duration_as_string(90061), "n_day=1 n_hour=1 n_min=1");
    assert_eq!(get_duration_as_string(3600), "n_hour=1 n_min=0");
    assert_eq!(get_duration_as_string(59), "n_min=0");
    assert_eq!(get_duration_as_string(0), "n_min=0");
}

#[test]
fn a_duration_and_its_opposite_print_the_same() {
    for s in [1i64, 61, 3_601, 90_061, 1_000_000] {
        assert_eq!(get_duration_as_string(s), get_duration_as_string(-s));
    }
}

#[test]
fn window_ends_are_two_seconds_away() {
    assert_eq!(get_time_string_lower(1_700_000_000), "2023-11-14T22:13:18Z");
    assert_eq!(get_time_string_upper(1_700_000_000), "2023-11-14T22:13:22Z");
    assert_eq!(get_request_string(1_700_000_000), "2023-11-14T22:13:20Z");
    assert_eq!(get_time_string_lower(1_700_000_004), get_time_string_upper(1_700_000_000));
}
