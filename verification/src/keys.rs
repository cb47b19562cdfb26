use vstd::prelude::*;
use vstd::string::*;
use crate::text::{
    chars_of, ends_with, ends_with_chars, owned, starts_with, starts_with_chars, string_from_chars,
    sub_chars, trim_char, trim_quotes, views,
};

verus! {

/// The unit printed after a metric: keys ending in `latency` or `runtime`
/// are in milliseconds, the others carry no unit.
pub open spec fn unit_of_key(key: Seq<char>) -> Seq<char> {
    if ends_with(key, "latency"@) || ends_with(key, "runtime"@) {
        " ms"@
    } else {
        ""@
    }
}

/// The unit suffix for a metric key.
pub fn get_unit_of_key(key: &str) -> (r: String)
    ensures
        r@ == unit_of_key(key@),
{
    let k = chars_of(key);
    if ends_with_chars(&k, &chars_of("latency")) {
        return owned(" ms");
    }
    if ends_with_chars(&k, &chars_of("runtime")) {
        return owned(" ms");
    }
    owned("")
}

/// The lines joined by single spaces.
pub open spec fn joined_by_space(lines: Seq<Seq<char>>) -> Seq<char>
    decreases lines.len(),
{
    if lines.len() == 0 {
        Seq::empty()
    } else if lines.len() == 1 {
        lines[0]
    } else {
        joined_by_space(lines.drop_last()) + seq![' '] + lines.last()
    }
}

/// All lines on one line, separated by single spaces.
pub fn create_single_line(lines: Vec<String>) -> (r: String)
    ensures
        r@ == joined_by_space(views(lines@)),
{
    let mut single_line = String::new();
    let n = lines.len();
    let mut i: usize = 0;
    while i < n
        invariant
            i <= n,
            n == lines@.len(),
            single_line@ == joined_by_space(views(lines@).take(i as int)),
        decreases n - i,
    {
        let ghost prev = views(lines@).take(i as int);
        if i > 0 {
            single_line.append(" ");
        }
        single_line.append(lines[i].as_str());
        proof {
            let cur = views(lines@).take(i + 1);
            assert(cur.drop_last() =~= prev);
            assert(cur.last() == lines@[i as int]@);
            if i == 0 {
                assert(single_line@ =~= cur[0]);
            } else {
                reveal_strlit(" ");
                assert(single_line@ =~= joined_by_space(prev) + seq![' '] + cur.last());
            }
        }
        i += 1;
    }
    assert(views(lines@).take(n as int) =~= views(lines@));
    single_line
}


/// The name of a metric listed by Prometheus (in its JSON rendering) without
/// the quotes and the `linera_` prefix, for Linera metrics.
pub open spec fn linera_variable(entry: Seq<char>) -> Option<Seq<char>> {
    let t = trim_char(entry, '"');
    if starts_with(t, "linera_"@) {
        Some(t.skip("linera_"@.len() as int))
    } else {
        None
    }
}

/// Whether a variable is a counter: not a `_sum`, `_bucket` or `_count`
/// part of a histogram.
pub open spec fn is_counter_key(v: Seq<char>) -> bool {
    !ends_with(v, "_sum"@) && !ends_with(v, "_bucket"@) && !ends_with(v, "_count"@)
}

/// The counter keys and the histogram keys (named by their `_sum` part,
/// without it) among the listed metric names, in order.
pub open spec fn linera_keys(entries: Seq<Seq<char>>) -> (Seq<Seq<char>>, Seq<Seq<char>>)
    decreases entries.len(),
{
    if entries.len() == 0 {
        (Seq::empty(), Seq::empty())
    } else {
        let (c, h) = linera_keys(entries.drop_last());
        match linera_variable(entries.last()) {
            None => (c, h),
            Some(v) => (
                if is_counter_key(v) { c.push(v) } else { c },
                if ends_with(v, "_sum"@) { h.push(v.take(v.len() - "_sum"@.len())) } else { h },
            ),
        }
    }
}

/// Sorts the metric names Prometheus lists into Linera counter keys and
/// Linera histogram keys.
pub fn split_linera_keys(entries: &Vec<String>) -> (r: (Vec<String>, Vec<String>))
    ensures
        views(r.0@) == linera_keys(views(entries@)).0,
        views(r.1@) == linera_keys(views(entries@)).1,
{
    let ghost ev = views(entries@);
    let prefix = chars_of("linera_");
    let sum = chars_of("_sum");
    let bucket = chars_of("_bucket");
    let count = chars_of("_count");
    let mut counters: Vec<String> = Vec::new();
    let mut hists: Vec<String> = Vec::new();
    let n = entries.len();
    let mut i: usize = 0;
    while i < n
        invariant
            i <= n,
            n == entries@.len(),
            ev == views(entries@),
            prefix@ == "linera_"@,
            sum@ == "_sum"@,
            bucket@ == "_bucket"@,
            count@ == "_count"@,
            views(counters@) == linera_keys(ev.take(i as int)).0,
            views(hists@) == linera_keys(ev.take(i as int)).1,
        decreases n - i,
    {
        let ghost cur = ev.take(i + 1);
        assert(cur.drop_last() =~= ev.take(i as int));
        assert(cur.last() == entries@[i as int]@);
        let t = chars_of(trim_quotes(entries[i].as_str()).as_str());
        if starts_with_chars(&t, &prefix) {
            let vc = sub_chars(&t, prefix.len(), t.len());
            assert(vc@ =~= t@.skip("linera_"@.len() as int));
            let is_sum = ends_with_chars(&vc, &sum);
            let counter = !is_sum && !ends_with_chars(&vc, &bucket) && !ends_with_chars(
                &vc,
                &count,
            );
            if counter {
                let ghost old_c = views(counters@);
                counters.push(string_from_chars(&vc));
                assert(views(counters@) =~= old_c.push(vc@));
            }
            if is_sum {
                let hc = sub_chars(&vc, 0, vc.len() - sum.len());
                let ghost old_h = views(hists@);
                hists.push(string_from_chars(&hc));
                assert(views(hists@) =~= old_h.push(hc@));
            }
        }
        i += 1;
    }
    assert(ev.take(n as int) =~= ev);
    (counters, hists)
}

} // verus!
