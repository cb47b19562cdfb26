use vstd::prelude::*;
use chrono::{Datelike, Timelike};
use crate::text::{
    chars_of, decimal, decimal_chars, pad2, pad2_chars, signed_decimal, signed_decimal_chars,
    string_from_chars,
};

verus! {

/// A UTC instant read as calendar fields (what chrono's `Datelike` and
/// `Timelike` report).
pub struct CalendarTime {
    pub year: i32,
    pub month: u32,
    pub day: u32,
    pub hour: u32,
    pub minute: u32,
    pub second: u32,
}

/// The calendar fields of the UTC instant `secs` seconds after the Unix
/// epoch, as chrono computes them (`None` where chrono has no such instant).
pub uninterp spec fn utc_calendar(secs: i64) -> Option<CalendarTime>;

/// The Unix time, in whole seconds, of the instant chrono parses from `text`
/// as a `DateTime<Utc>`, if it parses.
pub uninterp spec fn utc_parse(text: Seq<char>) -> Option<i64>;

/// chrono's `DateTime::<Utc>::from_timestamp(secs, 0)`, read through
/// `year`, `month`, `day`, `hour`, `minute` and `second`. The contract claims
/// the field ranges that chrono documents and that every instant within
/// 8 * 10^12 seconds of the epoch exists (chrono's years run from -262143 to
/// 262142). The calendar arithmetic itself is not stated.
#[verifier::external_body]
fn calendar_of_timestamp(secs: i64) -> (r: Option<CalendarTime>)
    ensures
        r == utc_calendar(secs),
        r matches Some(c) ==> 1 <= c.month <= 12 && 1 <= c.day <= 31 && c.hour < 24 && c.minute
            < 60 && c.second < 60,
        -8_000_000_000_000 <= secs <= 8_000_000_000_000 ==> r is Some,
{
    let t = chrono::DateTime::from_timestamp(secs, 0)?;
    Some(CalendarTime {
        year: t.year(),
        month: t.month(),
        day: t.day(),
        hour: t.hour(),
        minute: t.minute(),
        second: t.second(),
    })
}

/// chrono's `str::parse::<DateTime<Utc>>` (RFC 3339 like text), giving the
/// whole seconds of the instant. The contract claims only that a parsed
/// instant is one that `from_timestamp` gives back (chrono documents the
/// round trip); which texts parse is not stated.
#[verifier::external_body]
fn parse_utc_timestamp(text: &str) -> (r: Option<i64>)
    ensures
        r == utc_parse(text@),
        r matches Some(t) ==> utc_calendar(t) is Some,
{
    match text.parse::<chrono::DateTime<chrono::Utc>>() {
        Ok(t) => Some(t.timestamp()),
        Err(_) => None,
    }
}

/// `YYYY-MM-DDTHH:MM:SSZ`: the year as a plain signed number, the other
/// fields with at least two digits.
pub open spec fn calendar_text(c: CalendarTime) -> Seq<char> {
    signed_decimal(c.year as int) + seq!['-'] + pad2(c.month as nat) + seq!['-'] + pad2(
        c.day as nat,
    ) + seq!['T'] + pad2(c.hour as nat) + seq![':'] + pad2(c.minute as nat) + seq![':'] + pad2(
        c.second as nat,
    ) + seq!['Z']
}

/// The text of calendar fields in the form Prometheus queries take.
pub fn format_calendar(c: &CalendarTime) -> (r: String)
    ensures
        r@ == calendar_text(*c),
{
    let mut v = signed_decimal_chars(c.year as i64);
    v.push('-');
    let mut x = pad2_chars(c.month as u64);
    v.append(&mut x);
    v.push('-');
    let mut x = pad2_chars(c.day as u64);
    v.append(&mut x);
    v.push('T');
    let mut x = pad2_chars(c.hour as u64);
    v.append(&mut x);
    v.push(':');
    let mut x = pad2_chars(c.minute as u64);
    v.append(&mut x);
    v.push(':');
    let mut x = pad2_chars(c.second as u64);
    v.append(&mut x);
    v.push('Z');
    let r = string_from_chars(&v);
    assert(r@ =~= calendar_text(*c));
    r
}

/// The text of the instant `ti` (Unix seconds).
fn get_time_string(ti: i64) -> (r: String)
    requires
        utc_calendar(ti) is Some,
    ensures
        r@ == calendar_text(utc_calendar(ti)->0),
{
    let c = calendar_of_timestamp(ti);
    match c {
        Some(c) => format_calendar(&c),
        None => String::new(),
    }
}

/// The text of the instant two seconds before `time`: the lower end of a
/// query window.
pub fn get_time_string_lower(time: i64) -> (r: String)
    requires
        time >= i64::MIN + 2,
        utc_calendar((time - 2) as i64) is Some,
    ensures
        r@ == calendar_text(utc_calendar((time - 2) as i64)->0),
{
    get_time_string(time - 2)
}

/// The text of the instant two seconds after `time`: the upper end of a
/// query window.
pub fn get_time_string_upper(time: i64) -> (r: String)
    requires
        time <= i64::MAX - 2,
        utc_calendar((time + 2) as i64) is Some,
    ensures
        r@ == calendar_text(utc_calendar((time + 2) as i64)->0),
{
    get_time_string(time + 2)
}

/// The text of the instant `datetime` as a Prometheus request takes it.
pub fn get_request_string(datetime: i64) -> (r: String)
    requires
        utc_calendar(datetime) is Some,
    ensures
        r@ == calendar_text(utc_calendar(datetime)->0),
{
    let c = calendar_of_timestamp(datetime);
    match c {
        Some(c) => format_calendar(&c),
        None => String::new(),
    }
}

/// The window texts for a run that started at `start` and ended at `end`:
/// two seconds are added on each side. `None` when one of the widened
/// instants is outside chrono's range.
pub fn run_window(start: i64, end: i64) -> (r: Option<(String, String)>)
    ensures
        match r {
            Some((lo, hi)) => {
                &&& start >= i64::MIN + 2 && end <= i64::MAX - 2
                &&& utc_calendar((start - 2) as i64) is Some
                &&& utc_calendar((end + 2) as i64) is Some
                &&& lo@ == calendar_text(utc_calendar((start - 2) as i64)->0)
                &&& hi@ == calendar_text(utc_calendar((end + 2) as i64)->0)
            },
            None => !(start >= i64::MIN + 2 && end <= i64::MAX - 2 && utc_calendar(
                (start - 2) as i64,
            ) is Some && utc_calendar((end + 2) as i64) is Some),
        },
{
    if start < i64::MIN + 2 || end > i64::MAX - 2 {
        return None;
    }
    let a = calendar_of_timestamp(start - 2);
    let b = calendar_of_timestamp(end + 2);
    if a.is_none() || b.is_none() {
        return None;
    }
    Some((get_time_string_lower(start), get_time_string_upper(end)))
}

/// The request texts for a window given by its two ends as text: `None`
/// when one of them does not parse as a UTC date and time.
pub fn request_window_from_texts(start: &str, end: &str) -> (r: Option<(String, String)>)
    ensures
        match r {
            Some((a, b)) => {
                &&& utc_parse(start@) matches Some(s) && a@ == calendar_text(utc_calendar(s)->0)
                &&& utc_parse(end@) matches Some(e) && b@ == calendar_text(utc_calendar(e)->0)
            },
            None => utc_parse(start@) is None || utc_parse(end@) is None,
        },
{
    let s = parse_utc_timestamp(start);
    let e = parse_utc_timestamp(end);
    match (s, e) {
        (Some(s), Some(e)) => Some((get_request_string(s), get_request_string(e))),
        _ => None,
    }
}

/// The request texts for the `interval` seconds that end at `end`: `None`
/// when an end of the window falls outside chrono's range.
pub fn request_window_from_interval(end: i64, interval: u64) -> (r: Option<(String, String)>)
    ensures
        match r {
            Some((a, b)) => {
                &&& end - interval >= i64::MIN
                &&& utc_calendar((end - interval) as i64) matches Some(c) && a@ == calendar_text(c)
                &&& utc_calendar(end) matches Some(c) && b@ == calendar_text(c)
            },
            None => end - interval < i64::MIN || utc_calendar((end - interval) as i64) is None
                || utc_calendar(end) is None,
        },
{
    if calendar_of_timestamp(end).is_none() {
        return None;
    }
    let wide: i128 = (end as i128) - (interval as i128);
    if wide < i64::MIN as i128 {
        return None;
    }
    let start = wide as i64;
    if calendar_of_timestamp(start).is_none() {
        return None;
    }
    Some((get_request_string(start), get_request_string(end)))
}

/// `n_day=.. n_hour=.. n_min=..` for a span of `num_sec` seconds (sign
/// ignored), leaving out leading zero fields.
pub open spec fn duration_text(num_sec: int) -> Seq<char> {
    let s = if num_sec > 0 { num_sec } else { -num_sec };
    let n_day = s / 86400;
    let n_hour = (s % 86400) / 3600;
    let n_min = (s % 3600) / 60;
    if n_day > 0 {
        "n_day="@ + decimal(n_day as nat) + " n_hour="@ + decimal(n_hour as nat) + " n_min="@
            + decimal(n_min as nat)
    } else if n_hour > 0 {
        "n_hour="@ + decimal(n_hour as nat) + " n_min="@ + decimal(n_min as nat)
    } else {
        "n_min="@ + decimal(n_min as nat)
    }
}

/// The text of a span given by its whole seconds (chrono's
/// `Duration::num_seconds`, which never reaches `i64::MIN`).
pub fn get_duration_as_string(num_seconds: i64) -> (r: String)
    requires
        num_seconds > i64::MIN,
    ensures
        r@ == duration_text(num_seconds as int),
{
    let num_sec: i64 = if num_seconds > 0 { num_seconds } else { -num_seconds };
    let n_day = num_sec / 86400;
    let n_hour = (num_sec % 86400) / 3600;
    let n_min = (num_sec % 3600) / 60;
    let mut v: Vec<char>;
    if n_day > 0 {
        v = chars_of("n_day=");
        let mut x = decimal_chars(n_day as u64);
        v.append(&mut x);
        let mut x = chars_of(" n_hour=");
        v.append(&mut x);
        let mut x = decimal_chars(n_hour as u64);
        v.append(&mut x);
        let mut x = chars_of(" n_min=");
        v.append(&mut x);
        let mut x = decimal_chars(n_min as u64);
        v.append(&mut x);
    } else if n_hour > 0 {
        v = chars_of("n_hour=");
        let mut x = decimal_chars(n_hour as u64);
        v.append(&mut x);
        let mut x = chars_of(" n_min=");
        v.append(&mut x);
        let mut x = decimal_chars(n_min as u64);
        v.append(&mut x);
    } else {
        v = chars_of("n_min=");
        let mut x = decimal_chars(n_min as u64);
        v.append(&mut x);
    }
    let r = string_from_chars(&v);
    assert(r@ =~= duration_text(num_seconds as int));
    r
}

} // verus!
