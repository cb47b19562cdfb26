use vstd::prelude::*;
use crate::text::{
    chars_eq, chars_of, ends_with, ends_with_chars, is_ascii_digit, lemma_split_len, owned,
    split_chars, split_spec, split_str, string_from_chars, views,
};

verus! {

/// The unit printed after a benchmark measurement.
#[derive(PartialEq, Eq, Structural, Clone, Copy, Debug)]
pub enum TimeUnit {
    Micros,
    Millis,
}

/// A measurement of a benchmark report: the number as printed, and its unit.
pub struct Measurement {
    pub value: String,
    pub unit: TimeUnit,
}

/// The unit a token names, if it names one (`µs` or `ms`).
pub open spec fn token_unit(t: Seq<char>) -> Option<TimeUnit> {
    if t == "µs"@ {
        Some(TimeUnit::Micros)
    } else if t == "ms"@ {
        Some(TimeUnit::Millis)
    } else {
        None
    }
}

/// `s` with square brackets turned into spaces.
pub open spec fn brackets_as_spaces(s: Seq<char>) -> Seq<char> {
    s.map_values(|c: char| if c == '[' || c == ']' { ' ' } else { c })
}

/// The space separated tokens of the report that follows the first
/// `target ` in `line` (up to the next one), square brackets read as spaces;
/// `None` when `target ` does not occur.
pub open spec fn benchmark_tokens(line: Seq<char>, target: Seq<char>) -> Option<Seq<Seq<char>>> {
    let pieces = split_spec(line, target + seq![' ']);
    if pieces.len() < 2 {
        None
    } else {
        Some(split_spec(brackets_as_spaces(pieces[1]), seq![' ']))
    }
}

/// Each token that names a unit, paired with the token before it, in order.
pub open spec fn measurements(tokens: Seq<Seq<char>>) -> Seq<(Seq<char>, TimeUnit)>
    decreases tokens.len(),
{
    if tokens.len() == 0 {
        Seq::empty()
    } else {
        match token_unit(tokens.last()) {
            Some(u) => measurements(tokens.drop_last()).push((tokens[tokens.len() - 2], u)),
            None => measurements(tokens.drop_last()),
        }
    }
}

/// The characters `µs`.
fn micros_chars() -> (r: Vec<char>)
    ensures
        r@ == "µs"@,
{
    chars_of("µs")
}

/// The tokens of the benchmark report on `target` in `single_line`.
pub fn benchmark_tokens_of(single_line: &str, target: &str) -> (r: Option<Vec<String>>)
    ensures
        match benchmark_tokens(single_line@, target@) {
            Some(t) => r matches Some(v) && views(v@) == t,
            None => r is None,
        },
{
    let line = chars_of(single_line);
    let mut pat = chars_of(target);
    pat.push(' ');
    assert(pat@ =~= target@ + seq![' ']);
    let pieces = split_chars(&line, &pat);
    if pieces.len() < 2 {
        return None;
    }
    let sec = &pieces[1];
    assert(sec@ == split_spec(single_line@, target@ + seq![' '])[1]);
    let mut cleaned: Vec<char> = Vec::new();
    let n = sec.len();
    let mut i: usize = 0;
    while i < n
        invariant
            i <= n,
            n == sec@.len(),
            cleaned@ == brackets_as_spaces(sec@).take(i as int),
        decreases n - i,
    {
        let c = sec[i];
        cleaned.push(if c == '[' || c == ']' { ' ' } else { c });
        assert(brackets_as_spaces(sec@).take(i + 1) =~= brackets_as_spaces(sec@).take(
            i as int,
        ).push(brackets_as_spaces(sec@)[i as int]));
        i += 1;
    }
    assert(brackets_as_spaces(sec@).take(n as int) =~= brackets_as_spaces(sec@));
    let mut space: Vec<char> = Vec::new();
    space.push(' ');
    let toks = split_chars(&cleaned, &space);
    let mut out: Vec<String> = Vec::new();
    let m = toks.len();
    let mut k: usize = 0;
    while k < m
        invariant
            k <= m,
            m == toks@.len(),
            forall|j: int| 0 <= j < m ==> #[trigger] toks@[j]@ == split_spec(cleaned@, space@)[j],
            m == split_spec(cleaned@, space@).len(),
            views(out@) == split_spec(cleaned@, space@).take(k as int),
        decreases m - k,
    {
        let s = string_from_chars(&toks[k]);
        let ghost prev = views(out@);
        out.push(s);
        assert(views(out@) =~= prev.push(toks@[k as int]@));
        assert(views(out@) =~= split_spec(cleaned@, space@).take(k + 1));
        k += 1;
    }
    assert(split_spec(cleaned@, space@).take(m as int) =~= split_spec(cleaned@, space@));
    assert(space@ =~= seq![' ']);
    Some(out)
}

/// The unit a token names.
pub fn unit_of_token(t: &String) -> (r: Option<TimeUnit>)
    ensures
        r == token_unit(t@),
{
    let c = chars_of(t.as_str());
    if chars_eq(&c, &micros_chars()) {
        return Some(TimeUnit::Micros);
    }
    if chars_eq(&c, &chars_of("ms")) {
        return Some(TimeUnit::Millis);
    }
    None
}

/// The measurements of a report: each unit token with the number before it.
/// The first token must not be a unit (there is no number before it).
pub fn measurements_of_tokens(tokens: &Vec<String>) -> (r: Vec<Measurement>)
    requires
        tokens@.len() == 0 || token_unit(tokens@[0]@) is None,
    ensures
        r@.len() == measurements(views(tokens@)).len(),
        forall|j: int|
            0 <= j < r@.len() ==> (#[trigger] r@[j]).value@ == measurements(views(tokens@))[j].0
                && r@[j].unit == measurements(views(tokens@))[j].1,
{
    let ghost tv = views(tokens@);
    let n = tokens.len();
    let mut r: Vec<Measurement> = Vec::new();
    let mut i: usize = 0;
    while i < n
        invariant
            i <= n,
            n == tokens@.len(),
            tv == views(tokens@),
            n == 0 || token_unit(tokens@[0]@) is None,
            r@.len() == measurements(tv.take(i as int)).len(),
            forall|j: int|
                0 <= j < r@.len() ==> (#[trigger] r@[j]).value@ == measurements(tv.take(i as int))[j].0
                    && r@[j].unit == measurements(tv.take(i as int))[j].1,
        decreases n - i,
    {
        let ghost pre = tv.take(i as int);
        let ghost cur = tv.take(i + 1);
        assert(cur.drop_last() =~= pre);
        assert(cur.last() == tokens@[i as int]@);
        let u = unit_of_token(&tokens[i]);
        match u {
            Some(unit) => {
                assert(i > 0);
                assert(cur[cur.len() - 2] == tokens@[i - 1]@);
                let value = tokens[i - 1].clone();
                r.push(Measurement { value, unit });
            },
            None => {},
        }
        i += 1;
    }
    assert(tv.take(n as int) =~= tv);
    r
}


/// Whether `char::is_numeric` holds of `c` (Unicode general categories Nd,
/// Nl and No).
pub uninterp spec fn char_numeric(c: char) -> bool;

/// std's `char::is_numeric`. The contract names its result and claims, as
/// the Unicode tables give it, that among ASCII characters only the digits
/// `0` to `9` are numeric; other characters are left to the name.
#[verifier::external_body]
fn is_numeric_char(c: char) -> (r: bool)
    ensures
        r == char_numeric(c),
        (c as u32) < 128 ==> (r <==> is_ascii_digit(c)),
{
    c.is_numeric()
}

/// The numeric characters of `s`, in order.
pub open spec fn numeric_chars(s: Seq<char>) -> Seq<char>
    decreases s.len(),
{
    if s.len() == 0 {
        Seq::empty()
    } else if char_numeric(s.last()) {
        numeric_chars(s.drop_last()).push(s.last())
    } else {
        numeric_chars(s.drop_last())
    }
}

/// For a log line that ends in `ms` and holds `key` exactly once, the
/// numeric characters after `key`.
pub open spec fn log_key_digits_spec(line: Seq<char>, key: Seq<char>) -> Option<Seq<char>> {
    if ends_with(line, "ms"@) && split_spec(line, key).len() == 2 {
        Some(numeric_chars(split_spec(line, key)[1]))
    } else {
        None
    }
}

/// The digits a log line gives for `key`, if the line reports on it.
pub fn log_key_digits(line: &str, key: &str) -> (r: Option<String>)
    ensures
        match log_key_digits_spec(line@, key@) {
            Some(d) => r matches Some(x) && x@ == d,
            None => r is None,
        },
{
    let l = chars_of(line);
    if !ends_with_chars(&l, &chars_of("ms")) {
        return None;
    }
    let pieces = split_chars(&l, &chars_of(key));
    if pieces.len() != 2 {
        return None;
    }
    let sec = &pieces[1];
    let n = sec.len();
    let mut d: Vec<char> = Vec::new();
    let mut i: usize = 0;
    while i < n
        invariant
            i <= n,
            n == sec@.len(),
            d@ == numeric_chars(sec@.take(i as int)),
        decreases n - i,
    {
        let ghost cur = sec@.take(i + 1);
        assert(cur.drop_last() =~= sec@.take(i as int));
        assert(cur.last() == sec@[i as int]);
        if is_numeric_char(sec[i]) {
            d.push(sec[i]);
        }
        i += 1;
    }
    assert(sec@.take(n as int) =~= sec@);
    Some(string_from_chars(&d))
}

/// Whether line `i` holds `target` exactly once and line `i + 2` holds
/// `finished in ` exactly once.
pub open spec fn runtime_line(lines: Seq<Seq<char>>, target: Seq<char>, i: int) -> bool {
    &&& split_spec(lines[i], target).len() == 2
    &&& split_spec(lines[i + 2], "finished in "@).len() == 2
}

/// The first line from `i` on (before the last two lines) that reports the
/// runtime of `target`.
pub open spec fn first_runtime_line(lines: Seq<Seq<char>>, target: Seq<char>, i: int) -> Option<int>
    decreases lines.len() - i,
{
    if i < 0 || i >= lines.len() - 2 {
        None
    } else if runtime_line(lines, target, i) {
        Some(i)
    } else {
        first_runtime_line(lines, target, i + 1)
    }
}

/// The text after `finished in ` on the second line after the first line
/// that holds `target` exactly once (with `finished in ` there once too).
pub fn runtime_tail(lines: &Vec<String>, target: &str) -> (r: Option<String>)
    requires
        lines@.len() >= 2,
    ensures
        match first_runtime_line(views(lines@), target@, 0) {
            Some(i) => r matches Some(t) && t@ == split_spec(lines@[i + 2]@, "finished in "@)[1],
            None => r is None,
        },
{
    let ghost lv = views(lines@);
    let n = lines.len();
    let mut i: usize = 0;
    while i < n - 2
        invariant
            i <= n - 2,
            n == lines@.len(),
            n >= 2,
            lv == views(lines@),
            first_runtime_line(lv, target@, 0) == first_runtime_line(lv, target@, i as int),
        decreases n - 2 - i,
    {
        let pieces = split_str(lines[i].as_str(), target);
        assert(lv[i as int] == lines@[i as int]@);
        if pieces.len() == 2 {
            let tail = split_str(lines[i + 2].as_str(), "finished in ");
            assert(lv[i + 2] == lines@[i + 2]@);
            if tail.len() == 2 {
                assert(views(tail@)[1] == tail@[1]@);
                return Some(tail[1].clone());
            }
        }
        i += 1;
    }
    None
}

/// `s` without its last character, which must be ASCII (a one byte cut).
pub fn without_last_char(s: &String) -> (r: String)
    requires
        s@.len() > 0,
        (s@.last() as u32) < 128,
    ensures
        r@ == s@.drop_last(),
{
    let mut v = chars_of(s.as_str());
    v.pop();
    string_from_chars(&v)
}

/// The scale of a duration text's suffix.
#[derive(PartialEq, Eq, Structural, Clone, Copy, Debug)]
pub enum TimeScale {
    Nanos,
    Micros,
    Millis,
    Seconds,
}

/// A duration text split into its number text and its unit, the suffixes
/// tried in the order `ns`, `µs`, `ms`, `s`.
pub open spec fn duration_parts(line: Seq<char>) -> Option<(Seq<char>, TimeScale)> {
    if ends_with(line, "ns"@) {
        Some((line.take(line.len() - "ns"@.len()), TimeScale::Nanos))
    } else if ends_with(line, "µs"@) {
        Some((line.take(line.len() - "µs"@.len()), TimeScale::Micros))
    } else if ends_with(line, "ms"@) {
        Some((line.take(line.len() - "ms"@.len()), TimeScale::Millis))
    } else if ends_with(line, "s"@) {
        Some((line.take(line.len() - "s"@.len()), TimeScale::Seconds))
    } else {
        None
    }
}

fn strip_suffix_chars(l: &Vec<char>, suffix: &Vec<char>) -> (r: Option<String>)
    ensures
        match r {
            Some(x) => ends_with(l@, suffix@) && x@ == l@.take(l@.len() - suffix@.len()),
            None => !ends_with(l@, suffix@),
        },
{
    if !ends_with_chars(l, suffix) {
        return None;
    }
    let k = l.len() - suffix.len();
    let mut v: Vec<char> = Vec::new();
    let mut i: usize = 0;
    while i < k
        invariant
            i <= k,
            k <= l@.len(),
            v@ == l@.take(i as int),
        decreases k - i,
    {
        v.push(l[i]);
        assert(l@.take(i + 1) =~= l@.take(i as int).push(l@[i as int]));
        i += 1;
    }
    Some(string_from_chars(&v))
}

/// The number text and unit of a duration text, if its suffix is known.
pub fn millisecond_parts(line: &str) -> (r: Option<(String, TimeScale)>)
    ensures
        match duration_parts(line@) {
            Some((t, u)) => r matches Some((x, v)) && x@ == t && v == u,
            None => r is None,
        },
{
    let l = chars_of(line);
    match strip_suffix_chars(&l, &chars_of("ns")) {
        Some(x) => return Some((x, TimeScale::Nanos)),
        None => {},
    }
    match strip_suffix_chars(&l, &micros_chars()) {
        Some(x) => return Some((x, TimeScale::Micros)),
        None => {},
    }
    match strip_suffix_chars(&l, &chars_of("ms")) {
        Some(x) => return Some((x, TimeScale::Millis)),
        None => {},
    }
    match strip_suffix_chars(&l, &chars_of("s")) {
        Some(x) => Some((x, TimeScale::Seconds)),
        None => None,
    }
}


/// What narrowing a line by trace keys gives: a key is missing, a key occurs
/// more than once, or the text after the last key.
pub enum Narrowed {
    Missing,
    Repeated,
    Rest(Seq<char>),
}

/// Narrows `line` to the text after each key in turn.
pub open spec fn narrow_by_keys(line: Seq<char>, keys: Seq<Seq<char>>) -> Narrowed
    decreases keys.len(),
{
    if keys.len() == 0 {
        Narrowed::Rest(line)
    } else {
        let l = split_spec(line, keys[0]);
        if l.len() > 2 {
            Narrowed::Repeated
        } else if l.len() == 1 {
            Narrowed::Missing
        } else {
            narrow_by_keys(l[1], keys.skip(1))
        }
    }
}

/// What a trace line gives for busy and idle times.
pub enum TraceScan {
    /// The line is not a close event of the trace keys.
    Absent,
    /// One of the keys occurs more than once in what is left of the line.
    Repeated,
    /// The idle time, but no busy time before it.
    IdleOnly(String),
    /// The busy time and the idle time texts.
    Found(String, String),
}

/// The busy/idle scan of a line, over characters.
pub enum TraceView {
    Absent,
    Repeated,
    IdleOnly(Seq<char>),
    Found(Seq<char>, Seq<char>),
}

/// What a trace line holds: after narrowing by the keys, the text after
/// ` time.idle=` (which must occur once) is the idle time, and the second
/// piece of what comes before it split at ` time.busy=` is the busy time.
pub open spec fn trace_scan_spec(line: Seq<char>, keys: Seq<Seq<char>>) -> TraceView {
    match narrow_by_keys(line, keys) {
        Narrowed::Missing => TraceView::Absent,
        Narrowed::Repeated => TraceView::Repeated,
        Narrowed::Rest(rest) => {
            let l1 = split_spec(rest, " time.idle="@);
            if l1.len() != 2 {
                TraceView::Absent
            } else {
                let l2 = split_spec(l1[0], " time.busy="@);
                if l2.len() < 2 {
                    TraceView::IdleOnly(l1[1])
                } else {
                    TraceView::Found(l2[1], l1[1])
                }
            }
        },
    }
}

/// A scan result and its specification agree.
pub open spec fn trace_scan_matches(r: TraceScan, line: Seq<char>, keys: Seq<Seq<char>>) -> bool {
    match (r, trace_scan_spec(line, keys)) {
        (TraceScan::Absent, TraceView::Absent) => true,
        (TraceScan::Repeated, TraceView::Repeated) => true,
        (TraceScan::IdleOnly(i), TraceView::IdleOnly(j)) => i@ == j,
        (TraceScan::Found(b, i), TraceView::Found(c, j)) => b@ == c && i@ == j,
        _ => false,
    }
}

/// Finds the busy and idle time texts of a trace close line: the line is
/// narrowed to what follows each key in turn, then split at ` time.idle=`
/// and ` time.busy=`.
pub fn trace_busy_idle(line: &str, keys: &Vec<String>) -> (r: TraceScan)
    ensures
        trace_scan_matches(r, line@, views(keys@)),
{
    let ghost kv = views(keys@);
    let mut main_line = owned(line);
    let n = keys.len();
    let mut i: usize = 0;
    assert(kv.skip(0) =~= kv);
    while i < n
        invariant
            i <= n,
            n == keys@.len(),
            kv == views(keys@),
            narrow_by_keys(line@, kv) == narrow_by_keys(main_line@, kv.skip(i as int)),
        decreases n - i,
    {
        let l = split_str(main_line.as_str(), keys[i].as_str());
        proof {
            lemma_split_len(main_line@, keys@[i as int]@);
            assert(kv.skip(i as int)[0] == keys@[i as int]@);
            assert(kv.skip(i as int).skip(1) =~= kv.skip(i + 1));
        }
        if l.len() > 2 {
            return TraceScan::Repeated;
        }
        if l.len() == 1 {
            return TraceScan::Absent;
        }
        assert(views(l@)[1] == l@[1]@);
        main_line = l[1].clone();
        i += 1;
    }
    assert(kv.skip(n as int) =~= Seq::<Seq<char>>::empty());
    let l1 = split_str(main_line.as_str(), " time.idle=");
    if l1.len() != 2 {
        return TraceScan::Absent;
    }
    assert(views(l1@)[0] == l1@[0]@);
    assert(views(l1@)[1] == l1@[1]@);
    let l2 = split_str(l1[0].as_str(), " time.busy=");
    if l2.len() < 2 {
        return TraceScan::IdleOnly(l1[1].clone());
    }
    assert(views(l2@)[1] == l2@[1]@);
    TraceScan::Found(l2[1].clone(), l1[1].clone())
}

} // verus!
