use vstd::prelude::*;
use crate::analysis::{dropping_start, key_selected};
use crate::prometheus::{is_time_ordered_latest, last_value_at};
use crate::text::{
    decimal, digit_char, digits_value, is_ascii_digit, lemma_split_nonempty_len, parse_unsigned,
    prepend_to_first, split_nonempty, split_spec, starts_with, trim_char, trim_end_char,
    trim_start_char, unsigned_body,
};
use crate::timefmt::duration_text;

verus! {

proof fn lemma_ordered_prefix_agree(
    a: Seq<(usize, Seq<char>)>,
    b: Seq<(usize, Seq<char>)>,
    samples: Seq<(usize, Seq<char>)>,
    i: int,
)
    requires
        is_time_ordered_latest(a, samples),
        is_time_ordered_latest(b, samples),
        0 <= i <= a.len(),
        i <= b.len(),
        forall|j: int| 0 <= j < i ==> a[j] == b[j],
    ensures
        a.len() == b.len(),
        a == b,
    decreases a.len() + b.len() - 2 * i,
{
    if i == a.len() && i == b.len() {
        assert(a =~= b);
    } else if i < a.len() && i < b.len() {
        // a[i] and b[i] are both the smallest time after the common prefix.
        let ta = a[i].0;
        let tb = b[i].0;
        assert(last_value_at(samples, ta) is Some);
        assert(last_value_at(samples, tb) is Some);
        let jb = choose|j: int| 0 <= j < b.len() && b[j].0 == ta;
        let ja = choose|j: int| 0 <= j < a.len() && a[j].0 == tb;
        if jb < i {
            assert(a[jb].0 == ta);
            assert(a[jb].0 < a[i].0);
        }
        if ja < i {
            assert(b[ja].0 == tb);
            assert(b[ja].0 < b[i].0);
        }
        if ta < tb {
            assert(b[jb].0 < b[i].0 || jb == i);
        }
        if tb < ta {
            assert(a[ja].0 < a[i].0 || ja == i);
        }
        assert(ta == tb);
        assert(last_value_at(samples, ta) == Some(a[i].1));
        assert(last_value_at(samples, tb) == Some(b[i].1));
        assert(a[i] == b[i]);
        lemma_ordered_prefix_agree(a, b, samples, i + 1);
    } else if i < a.len() {
        let ta = a[i].0;
        assert(last_value_at(samples, ta) is Some);
        let jb = choose|j: int| 0 <= j < b.len() && b[j].0 == ta;
        assert(a[jb].0 == ta);
        assert(a[jb].0 < a[i].0);
    } else {
        let tb = b[i].0;
        assert(last_value_at(samples, tb) is Some);
        let ja = choose|j: int| 0 <= j < a.len() && a[j].0 == tb;
        assert(b[ja].0 == tb);
        assert(b[ja].0 < b[i].0);
    }
}

/// A job's sample list is determined by the samples it was read from: two
/// lists that both hold each time once, in increasing order, with the last
/// value given at that time, are the same list.
pub proof fn law_time_ordered_latest_unique(
    a: Seq<(usize, Seq<char>)>,
    b: Seq<(usize, Seq<char>)>,
    samples: Seq<(usize, Seq<char>)>,
)
    requires
        is_time_ordered_latest(a, samples),
        is_time_ordered_latest(b, samples),
    ensures
        a == b,
{
    lemma_ordered_prefix_agree(a, b, samples, 0);
}

proof fn lemma_last_value_of_ordered(r: Seq<(usize, Seq<char>)>, t: usize)
    requires
        forall|i: int, j: int| 0 <= i < j < r.len() ==> r[i].0 < r[j].0,
    ensures
        forall|i: int| 0 <= i < r.len() && r[i].0 == t ==> last_value_at(r, t) == Some(r[i].1),
        (forall|i: int| 0 <= i < r.len() ==> r[i].0 != t) ==> last_value_at(r, t) is None,
    decreases r.len(),
{
    if r.len() > 0 {
        let d = r.drop_last();
        lemma_last_value_of_ordered(d, t);
        assert forall|i: int| 0 <= i < r.len() && r[i].0 == t implies last_value_at(r, t) == Some(
            r[i].1,
        ) by {
            if i < r.len() - 1 {
                assert(r[i].0 < r[r.len() - 1].0);
                assert(d[i] == r[i]);
            }
        }
        if forall|i: int| 0 <= i < r.len() ==> r[i].0 != t {
            assert(forall|i: int| 0 <= i < d.len() ==> d[i] == r[i]);
        }
    }
}

/// Sorting a job's samples again changes nothing: an ordered list with one
/// sample per time is its own time-ordered latest form.
pub proof fn law_time_ordered_latest_idempotent(r: Seq<(usize, Seq<char>)>, samples: Seq<
    (usize, Seq<char>),
>)
    requires
        is_time_ordered_latest(r, samples),
    ensures
        is_time_ordered_latest(r, r),
{
    assert forall|t: usize| #[trigger] last_value_at(r, t) is Some implies exists|i: int|
        0 <= i < r.len() && r[i].0 == t by {
        lemma_last_value_of_ordered(r, t);
    }
    assert forall|i: int| 0 <= i < r.len() implies last_value_at(r, #[trigger] r[i].0) == Some(
        r[i].1,
    ) by {
        lemma_last_value_of_ordered(r, r[i].0);
    }
}

proof fn lemma_digit_char_value(d: nat)
    requires
        d < 10,
    ensures
        is_ascii_digit(digit_char(d)),
        (digit_char(d) as int) - ('0' as int) == d,
{
}

proof fn lemma_decimal_digits(n: nat)
    ensures
        decimal(n).len() > 0,
        forall|k: int| 0 <= k < decimal(n).len() ==> is_ascii_digit(#[trigger] decimal(n)[k]),
        digits_value(decimal(n)) == n,
    decreases n,
{
    if n < 10 {
        lemma_digit_char_value(n);
        assert(decimal(n).drop_last() =~= Seq::<char>::empty());
        assert(digits_value(Seq::<char>::empty()) == 0);
        assert(digits_value(decimal(n)) == digits_value(decimal(n).drop_last()) * 10 + ((decimal(
            n,
        ).last() as int) - ('0' as int)) as nat);
    } else {
        lemma_decimal_digits(n / 10);
        lemma_digit_char_value(n % 10);
        assert(n == (n / 10) * 10 + n % 10) by (nonlinear_arith);
        let d = decimal(n);
        assert(d.drop_last() =~= decimal(n / 10));
        assert(d.last() == digit_char(n % 10));
        assert forall|k: int| 0 <= k < d.len() implies is_ascii_digit(#[trigger] d[k]) by {
            if k < d.len() - 1 {
                assert(d[k] == decimal(n / 10)[k]);
            }
        }
    }
}

/// Parsing the decimal text of a number gives the number back, whenever it
/// fits the type parsed into.
pub proof fn law_parse_decimal_roundtrip(n: nat, max: nat)
    requires
        n <= max,
    ensures
        parse_unsigned(decimal(n), max) == Some(n),
{
    lemma_decimal_digits(n);
    assert(unsigned_body(decimal(n)) == decimal(n));
}

proof fn lemma_trim_start_stable(s: Seq<char>, c: char)
    ensures
        trim_start_char(s, c).len() == 0 || trim_start_char(s, c)[0] != c,
        trim_start_char(trim_start_char(s, c), c) == trim_start_char(s, c),
    decreases s.len(),
{
    if s.len() > 0 && s[0] == c {
        lemma_trim_start_stable(s.skip(1), c);
    }
}

proof fn lemma_trim_end_keeps_start(s: Seq<char>, c: char)
    requires
        s.len() == 0 || s[0] != c,
    ensures
        trim_end_char(s, c).len() == 0 || trim_end_char(s, c)[0] != c,
        trim_end_char(s, c).len() == 0 || trim_end_char(s, c).last() != c,
        trim_start_char(trim_end_char(s, c), c) == trim_end_char(s, c),
        trim_end_char(trim_end_char(s, c), c) == trim_end_char(s, c),
    decreases s.len(),
{
    if s.len() > 0 && s.last() == c {
        let d = s.drop_last();
        assert(d.len() == 0 || d[0] == s[0]);
        lemma_trim_end_keeps_start(d, c);
    }
}

/// Trimming a character from both ends twice is trimming it once.
pub proof fn law_trim_idempotent(s: Seq<char>, c: char)
    ensures
        trim_char(trim_char(s, c), c) == trim_char(s, c),
{
    lemma_trim_start_stable(s, c);
    lemma_trim_end_keeps_start(trim_start_char(s, c), c);
}

/// A span and its opposite print the same.
pub proof fn law_duration_sign_symmetric(s: int)
    ensures
        duration_text(s) == duration_text(-s),
{
}

/// With a single run, keeping the keys that every other run has and keeping
/// the keys that no other run has select the same keys: all of the run's.
pub proof fn law_single_run_selections_agree(
    runs: Seq<Seq<(Seq<char>, Seq<char>)>>,
    k: (Seq<char>, Seq<char>),
)
    requires
        runs.len() == 1,
    ensures
        key_selected(runs, k, true) == key_selected(runs, k, false),
        key_selected(runs, k, true) == runs[0].contains(k),
{
}

/// `skip0` keeps every value and `half` keeps the later half, rounded up.
pub proof fn law_dropping_starts(n: nat)
    ensures
        dropping_start(n, "skip0"@) == Some(0nat),
        dropping_start(n, "half"@) matches Some(s) && n - s == n - n / 2 && s <= n,
{
    reveal_strlit("skip0");
    reveal_strlit("skip");
    reveal_strlit("half");
    assert("skip0"@.len() == 5 && "half"@.len() == 4);
    assert("skip0"@ != "half"@);
    assert("skip0"@.take(4) =~= "skip"@);
    assert("skip0"@.skip(4) =~= seq!['0']);
    assert(unsigned_body(seq!['0']) =~= seq!['0']);
    assert(seq!['0'].drop_last() =~= Seq::<char>::empty());
    assert(seq!['0'].last() == '0');
    assert(digits_value(Seq::<char>::empty()) == 0);
    assert(digits_value(seq!['0']) == digits_value(seq!['0'].drop_last()) * 10 + ((seq!['0'].last()
        as int) - ('0' as int)) as nat);
    assert(digits_value(seq!['0']) == 0);
}


/// The pieces joined with `p` between consecutive ones.
pub open spec fn joined_with(pieces: Seq<Seq<char>>, p: Seq<char>) -> Seq<char>
    decreases pieces.len(),
{
    if pieces.len() <= 1 {
        if pieces.len() == 0 {
            Seq::empty()
        } else {
            pieces[0]
        }
    } else {
        pieces[0] + p + joined_with(pieces.skip(1), p)
    }
}

proof fn lemma_join_prepend(c: Seq<char>, x: Seq<Seq<char>>, p: Seq<char>)
    requires
        x.len() >= 1,
    ensures
        joined_with(prepend_to_first(c, x), p) == c + joined_with(x, p),
{
    let y = prepend_to_first(c, x);
    assert(y.skip(1) =~= x.skip(1));
    if x.len() == 1 {
        assert(y.len() == 1);
    } else {
        assert((c + x[0]) + p + joined_with(x.skip(1), p) =~= c + (x[0] + p + joined_with(
            x.skip(1),
            p,
        )));
    }
}

/// Splitting a text at a nonempty pattern and joining the pieces with the
/// pattern gives the text back: no character is lost or added by a split.
pub proof fn law_split_join(s: Seq<char>, p: Seq<char>)
    requires
        p.len() > 0,
    ensures
        joined_with(split_spec(s, p), p) == s,
    decreases s.len(),
{
    if s.len() < p.len() {
    } else if starts_with(s, p) {
        let rest = s.skip(p.len() as int);
        law_split_join(rest, p);
        lemma_split_nonempty_len(rest, p);
        let x = split_nonempty(rest, p);
        let pieces = seq![Seq::<char>::empty()] + x;
        assert(pieces.skip(1) =~= x);
        assert(pieces[0] + p + joined_with(x, p) =~= s);
    } else {
        law_split_join(s.skip(1), p);
        lemma_split_nonempty_len(s.skip(1), p);
        lemma_join_prepend(seq![s[0]], split_nonempty(s.skip(1), p), p);
        assert(seq![s[0]] + s.skip(1) =~= s);
    }
}

} // verus!
