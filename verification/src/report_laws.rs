use vstd::prelude::*;
use crate::extract::{benchmark_tokens, char_numeric, first_runtime_line, log_key_digits_spec, numeric_chars};
use crate::laws::{joined_with, law_split_join};
use crate::prometheus::changed_indices;
use crate::commands::{selected_entries, EnvironmentList};
use crate::text::{
    ends_with, lemma_split_nonempty_len, views, prepend_to_first, split_nonempty, split_spec, starts_with,
};

verus! {

/// `p` occurs in `s` starting at position `k`.
pub open spec fn occurs_at_pos(s: Seq<char>, p: Seq<char>, k: int) -> bool {
    0 <= k && k + p.len() <= s.len() && s.subrange(k, k + p.len()) == p
}

proof fn lemma_occurs_shift(s: Seq<char>, p: Seq<char>, k: int)
    requires
        s.len() > 0,
        k >= 0,
    ensures
        occurs_at_pos(s.skip(1), p, k) == occurs_at_pos(s, p, k + 1),
{
    if k + p.len() <= s.len() - 1 {
        assert(s.skip(1).subrange(k, k + p.len()) =~= s.subrange(k + 1, k + 1 + p.len()));
    }
}

proof fn lemma_starts_with_occurs(s: Seq<char>, p: Seq<char>)
    ensures
        starts_with(s, p) == occurs_at_pos(s, p, 0),
{
    if p.len() <= s.len() {
        assert(s.take(p.len() as int) =~= s.subrange(0, p.len() as int));
    }
}

/// Splitting at the first occurrence of a nonempty pattern, at `i`: the
/// first piece is the text before it, the other pieces those of the text
/// after it.
pub proof fn lemma_split_at_first(s: Seq<char>, p: Seq<char>, i: int)
    requires
        p.len() > 0,
        occurs_at_pos(s, p, i),
        forall|k: int| 0 <= k < i ==> !#[trigger] occurs_at_pos(s, p, k),
    ensures
        split_nonempty(s, p).len() >= 2,
        split_nonempty(s, p)[0] == s.take(i),
        split_nonempty(s, p).skip(1) == split_nonempty(s.skip(i + p.len()), p),
    decreases i,
{
    lemma_starts_with_occurs(s, p);
    if i == 0 {
        let rest = s.skip(p.len() as int);
        lemma_split_nonempty_len(rest, p);
        assert(s.take(0) =~= Seq::<char>::empty());
        assert((seq![Seq::<char>::empty()] + split_nonempty(rest, p)).skip(1) =~= split_nonempty(
            rest,
            p,
        ));
    } else {
        assert(!occurs_at_pos(s, p, 0));
        let t = s.skip(1);
        lemma_occurs_shift(s, p, i - 1);
        assert forall|k: int| 0 <= k < i - 1 implies !#[trigger] occurs_at_pos(t, p, k) by {
            lemma_occurs_shift(s, p, k);
            assert(!occurs_at_pos(s, p, k + 1));
        }
        lemma_split_at_first(t, p, i - 1);
        let x = split_nonempty(t, p);
        assert(split_nonempty(s, p) == prepend_to_first(seq![s[0]], x));
        assert(seq![s[0]] + t.take(i - 1) =~= s.take(i));
        assert(prepend_to_first(seq![s[0]], x).skip(1) =~= x.skip(1));
        assert(t.skip(i - 1 + p.len()) =~= s.skip(i + p.len()));
    }
}

/// A text in which a nonempty pattern never occurs splits into itself alone.
pub proof fn lemma_split_no_occurrence(s: Seq<char>, p: Seq<char>)
    requires
        p.len() > 0,
        forall|k: int| 0 <= k ==> !#[trigger] occurs_at_pos(s, p, k),
    ensures
        split_nonempty(s, p) == seq![s],
    decreases s.len(),
{
    lemma_starts_with_occurs(s, p);
    if s.len() >= p.len() {
        assert(!occurs_at_pos(s, p, 0));
        let t = s.skip(1);
        assert forall|k: int| 0 <= k implies !#[trigger] occurs_at_pos(t, p, k) by {
            lemma_occurs_shift(s, p, k);
            assert(!occurs_at_pos(s, p, k + 1));
        }
        lemma_split_no_occurrence(t, p);
        assert(seq![s[0]] + t =~= s);
        assert(prepend_to_first(seq![s[0]], seq![t]) =~= seq![s]);
    }
}

/// The piece that follows the first occurrence of a nonempty pattern at
/// `i` ends at the next occurrence `e`, or at the end of the text.
proof fn lemma_second_piece(s: Seq<char>, p: Seq<char>, i: int, e: int)
    requires
        p.len() > 0,
        occurs_at_pos(s, p, i),
        forall|k: int| 0 <= k < i ==> !#[trigger] occurs_at_pos(s, p, k),
        i + p.len() <= e <= s.len(),
        forall|k: int| i + p.len() <= k < e ==> !#[trigger] occurs_at_pos(s, p, k),
        occurs_at_pos(s, p, e) || e == s.len(),
    ensures
        split_nonempty(s, p).len() >= 2,
        split_nonempty(s, p)[1] == s.subrange(i + p.len(), e),
{
    lemma_split_at_first(s, p, i);
    let start = i + p.len();
    let rest = s.skip(start);
    assert(split_nonempty(s, p)[1] == split_nonempty(rest, p)[0]);
    assert forall|k: int| 0 <= k implies #[trigger] occurs_at_pos(rest, p, k) == occurs_at_pos(
        s,
        p,
        k + start,
    ) by {
        if k + p.len() <= rest.len() {
            assert(rest.subrange(k, k + p.len()) =~= s.subrange(k + start, k + start + p.len()));
        }
    }
    if occurs_at_pos(s, p, e) {
        assert(occurs_at_pos(rest, p, e - start));
        assert forall|k: int| 0 <= k < e - start implies !#[trigger] occurs_at_pos(rest, p, k) by {
            assert(!occurs_at_pos(s, p, k + start));
        }
        lemma_split_at_first(rest, p, e - start);
        assert(rest.take(e - start) =~= s.subrange(start, e));
    } else {
        assert forall|k: int| 0 <= k implies !#[trigger] occurs_at_pos(rest, p, k) by {
            if k < e - start {
                assert(!occurs_at_pos(s, p, k + start));
            }
        }
        lemma_split_no_occurrence(rest, p);
        assert(rest =~= s.subrange(start, e));
    }
}

/// A benchmark's report is read between the first `target ` of the line and
/// the next one (or the end of the line): the tokens, joined again with
/// single spaces, are exactly that text with its square brackets turned
/// into spaces. A later report of the same target is never read.
pub proof fn law_benchmark_tokens_first_report(line: Seq<char>, target: Seq<char>, i: int, e: int)
    requires
        occurs_at_pos(line, target + seq![' '], i),
        forall|k: int| 0 <= k < i ==> !#[trigger] occurs_at_pos(line, target + seq![' '], k),
        i + target.len() + 1 <= e <= line.len(),
        forall|k: int|
            i + target.len() + 1 <= k < e ==> !#[trigger] occurs_at_pos(line, target + seq![' '], k),
        occurs_at_pos(line, target + seq![' '], e) || e == line.len(),
    ensures
        benchmark_tokens(line, target) matches Some(t) && {
            let joined = joined_with(t, seq![' ']);
            let start = i + target.len() + 1;
            &&& joined.len() == e - start
            &&& forall|j: int|
                0 <= j < e - start ==> #[trigger] joined[j] == if line[start + j] == '['
                    || line[start + j] == ']' {
                    ' '
                } else {
                    line[start + j]
                }
        },
{
    let p = target + seq![' '];
    lemma_second_piece(line, p, i, e);
    let text = line.subrange(i + p.len(), e);
    let cleaned = crate::extract::brackets_as_spaces(text);
    law_split_join(cleaned, seq![' ']);
}

/// When `target ` does not occur in the line, there is no report to read.
pub proof fn law_benchmark_tokens_absent(line: Seq<char>, target: Seq<char>)
    requires
        forall|k: int| 0 <= k ==> !#[trigger] occurs_at_pos(line, target + seq![' '], k),
    ensures
        benchmark_tokens(line, target) is None,
{
    lemma_split_no_occurrence(line, target + seq![' ']);
}

proof fn lemma_numeric_chars_filter(s: Seq<char>)
    ensures
        numeric_chars(s) == s.filter(|c: char| char_numeric(c)),
    decreases s.len(),
{
    reveal_with_fuel(Seq::filter, 1);
    if s.len() > 0 {
        lemma_numeric_chars_filter(s.drop_last());
    }
}

/// A log line that ends in `ms` and holds `key` exactly once, at `i`, gives
/// the numeric characters that follow the key, in order, and nothing from
/// before it.
pub proof fn law_log_digits_after_key(line: Seq<char>, key: Seq<char>, i: int)
    requires
        key.len() > 0,
        ends_with(line, "ms"@),
        occurs_at_pos(line, key, i),
        forall|k: int| 0 <= k && k != i ==> !#[trigger] occurs_at_pos(line, key, k),
    ensures
        log_key_digits_spec(line, key) == Some(
            line.skip(i + key.len()).filter(|c: char| char_numeric(c)),
        ),
{
    lemma_split_at_first(line, key, i);
    let rest = line.skip(i + key.len());
    assert forall|k: int| 0 <= k implies !#[trigger] occurs_at_pos(rest, key, k) by {
        if k + key.len() <= rest.len() {
            assert(rest.subrange(k, k + key.len()) =~= line.subrange(
                k + i + key.len(),
                k + i + key.len() + key.len(),
            ));
        }
        assert(!occurs_at_pos(line, key, k + i + key.len()));
    }
    lemma_split_no_occurrence(rest, key);
    let pieces = split_nonempty(line, key);
    assert(pieces.skip(1).len() == 1);
    assert(pieces.len() == 2);
    assert(pieces[1] == pieces.skip(1)[0]);
    assert(split_spec(line, key) == pieces);
    lemma_numeric_chars_filter(rest);
}

/// Line `i` names `target` once and line `i + 2` holds `finished in ` once.
pub open spec fn reports_runtime(lines: Seq<Seq<char>>, target: Seq<char>, i: int) -> bool {
    split_spec(lines[i], target).len() == 2 && split_spec(lines[i + 2], "finished in "@).len() == 2
}

proof fn lemma_runtime_scan_from(lines: Seq<Seq<char>>, target: Seq<char>, j: int, i: int)
    requires
        0 <= j <= i,
        i + 2 < lines.len(),
        reports_runtime(lines, target, i),
        forall|k: int| j <= k < i ==> !#[trigger] reports_runtime(lines, target, k),
    ensures
        first_runtime_line(lines, target, j) == Some(i),
    decreases i - j,
{
    if j < i {
        assert(!reports_runtime(lines, target, j));
        lemma_runtime_scan_from(lines, target, j + 1, i);
    }
}

proof fn lemma_runtime_scan_none(lines: Seq<Seq<char>>, target: Seq<char>, j: int)
    requires
        0 <= j,
        forall|k: int| j <= k && k + 2 < lines.len() ==> !#[trigger] reports_runtime(lines, target, k),
    ensures
        first_runtime_line(lines, target, j) is None,
    decreases lines.len() - j,
{
    if j + 2 < lines.len() {
        assert(!reports_runtime(lines, target, j));
        lemma_runtime_scan_none(lines, target, j + 1);
    }
}

/// Every line `i` with a line two places after it is examined: the runtime
/// is read from the first such `i` whose line names the target once and
/// whose line `i + 2` holds `finished in ` once, even when that is the last
/// line of the log.
pub proof fn law_runtime_first_reporting_line(lines: Seq<Seq<char>>, target: Seq<char>, i: int)
    requires
        0 <= i,
        i + 2 < lines.len(),
        reports_runtime(lines, target, i),
        forall|k: int| 0 <= k < i ==> !#[trigger] reports_runtime(lines, target, k),
    ensures
        first_runtime_line(lines, target, 0) == Some(i),
{
    lemma_runtime_scan_from(lines, target, 0, i);
}

/// Without any line reporting the target's runtime, nothing is read.
pub proof fn law_runtime_absent(lines: Seq<Seq<char>>, target: Seq<char>)
    requires
        forall|k: int| 0 <= k && k + 2 < lines.len() ==> !#[trigger] reports_runtime(lines, target, k),
    ensures
        first_runtime_line(lines, target, 0) is None,
{
    lemma_runtime_scan_none(lines, target, 0);
}

/// The steps at which a sample list's value changes are exactly the
/// indices `idx`, `1 <= idx < len`, whose value text differs from the one
/// at `idx - 1`, listed once each in increasing order.
pub proof fn law_changed_steps_exact(s: Seq<(usize, Seq<char>)>)
    requires
        s.len() <= usize::MAX,
    ensures
        forall|idx: int|
            1 <= idx < s.len() ==> (changed_indices(s).contains(idx as usize) <==> (#[trigger] s[idx]).1
                != s[idx - 1].1),
        forall|j: int|
            0 <= j < changed_indices(s).len() ==> 1 <= #[trigger] changed_indices(s)[j] < s.len(),
        forall|a: int, b: int|
            0 <= a < b < changed_indices(s).len() ==> changed_indices(s)[a] < changed_indices(s)[b],
    decreases s.len(),
{
    if s.len() > 1 {
        let d = s.drop_last();
        law_changed_steps_exact(d);
        let rd = changed_indices(d);
        let r = changed_indices(s);
        let last = (s.len() - 1) as usize;
        assert(forall|j: int| 0 <= j < rd.len() ==> rd[j] < last);
        assert forall|idx: int| 1 <= idx < s.len() implies (r.contains(idx as usize) <==> (#[trigger] s[idx]).1
            != s[idx - 1].1) by {
            if idx < s.len() - 1 {
                assert(d[idx] == s[idx] && d[idx - 1] == s[idx - 1]);
                assert(rd.contains(idx as usize) <==> d[idx].1 != d[idx - 1].1);
                if r.contains(idx as usize) {
                    let w = choose|w: int| 0 <= w < r.len() && r[w] == idx as usize;
                    if w < rd.len() {
                        assert(r[w] == rd[w]);
                    }
                }
                if rd.contains(idx as usize) {
                    let w = choose|w: int| 0 <= w < rd.len() && rd[w] == idx as usize;
                    assert(r[w] == rd[w]);
                }
            } else {
                if s[idx].1 != s[idx - 1].1 {
                    assert(r[rd.len() as int] == last);
                } else {
                    assert(r == rd);
                    if r.contains(idx as usize) {
                        let w = choose|w: int| 0 <= w < r.len() && r[w] == idx as usize;
                        assert(rd[w] < last);
                    }
                }
            }
        }
    }
}

proof fn lemma_concat_contains<A>(a: Seq<A>, b: Seq<A>, x: A)
    ensures
        (a + b).contains(x) <==> (a.contains(x) || b.contains(x)),
{
    if a.contains(x) {
        let w = choose|w: int| 0 <= w < a.len() && a[w] == x;
        assert((a + b)[w] == x);
    }
    if b.contains(x) {
        let w = choose|w: int| 0 <= w < b.len() && b[w] == x;
        assert((a + b)[a.len() + w] == x);
    }
    if (a + b).contains(x) {
        let w = choose|w: int| 0 <= w < (a + b).len() && (a + b)[w] == x;
        if w < a.len() {
            assert(a[w] == x);
        } else {
            assert(b[w - a.len()] == x);
        }
    }
}

/// An environment entry is read for `command` exactly when some list whose
/// command equals `command` holds it: a list configured for another command,
/// even one that begins with `command`, contributes nothing.
pub proof fn law_environment_entries_of_equal_commands(
    lists: Seq<EnvironmentList>,
    command: Seq<char>,
    e: Seq<char>,
)
    ensures
        selected_entries(lists, command).contains(e) <==> exists|k: int|
            0 <= k < lists.len() && lists[k].command@ == command && #[trigger] views(
                lists[k].environments@,
            ).contains(e),
    decreases lists.len(),
{
    if lists.len() > 0 {
        let d = lists.drop_last();
        law_environment_entries_of_equal_commands(d, command, e);
        let n = lists.len() - 1;
        if lists.last().command@ == command {
            lemma_concat_contains(selected_entries(d, command), views(lists.last().environments@), e);
        }
        if exists|k: int|
            0 <= k < lists.len() && lists[k].command@ == command && #[trigger] views(
                lists[k].environments@,
            ).contains(e) {
            let k = choose|k: int|
                0 <= k < lists.len() && lists[k].command@ == command && #[trigger] views(
                    lists[k].environments@,
                ).contains(e);
            if k < n {
                assert(d[k] == lists[k]);
            }
        }
        if exists|k: int|
            0 <= k < d.len() && d[k].command@ == command && #[trigger] views(
                d[k].environments@,
            ).contains(e) {
            let k = choose|k: int|
                0 <= k < d.len() && d[k].command@ == command && #[trigger] views(
                    d[k].environments@,
                ).contains(e);
            assert(lists[k] == d[k]);
        }
    }
}

/// Removing a list configured for another command leaves the entries read
/// for `command`, and their order, unchanged.
pub proof fn law_environment_other_command_ignored(
    lists: Seq<EnvironmentList>,
    command: Seq<char>,
    k: int,
)
    requires
        0 <= k < lists.len(),
        lists[k].command@ != command,
    ensures
        selected_entries(lists.remove(k), command) == selected_entries(lists, command),
    decreases lists.len(),
{
    if k == lists.len() - 1 {
        assert(lists.remove(k) =~= lists.drop_last());
    } else {
        let d = lists.drop_last();
        law_environment_other_command_ignored(d, command, k);
        let r = lists.remove(k);
        assert(r.drop_last() =~= d.remove(k));
        assert(r.last() == lists.last());
    }
}

} // verus!
