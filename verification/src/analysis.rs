use vstd::prelude::*;
use crate::text::{
    chars_of, owned, parse_unsigned, parse_unsigned_chars, starts_with, starts_with_chars, str_eq,
};

verus! {

/// The bold marker of a chat format: `**` for GitHub, `*` for Slack.
pub open spec fn bold_marker(choice_format: Seq<char>) -> Option<Seq<char>> {
    if choice_format == "GitHub"@ {
        Some("**"@)
    } else if choice_format == "Slack"@ {
        Some("*"@)
    } else {
        None
    }
}

/// The bold marker for `choice_format`, which must be `GitHub` or `Slack`.
pub fn get_bold(choice_format: &str) -> (r: String)
    requires
        bold_marker(choice_format@) is Some,
    ensures
        r@ == bold_marker(choice_format@)->0,
{
    if str_eq(choice_format, "GitHub") {
        return owned("**");
    }
    owned("*")
}

/// Whether `choice_format` names a supported chat format.
pub fn is_supported_format(choice_format: &str) -> (r: bool)
    ensures
        r == bold_marker(choice_format@) is Some,
{
    str_eq(choice_format, "GitHub") || str_eq(choice_format, "Slack")
}

/// The first iteration kept by a data dropping method: `half` keeps the
/// second half of `n_iter` iterations, `skipN` skips the first `N`.
pub open spec fn dropping_start(n_iter: nat, method: Seq<char>) -> Option<nat> {
    if method == "half"@ {
        Some(n_iter / 2)
    } else if starts_with(method, "skip"@) {
        parse_unsigned(method.skip("skip"@.len() as int), usize::MAX as nat)
    } else {
        None
    }
}

/// The first kept iteration, or `None` for a method that is not supported.
pub fn dropping_start_index(n_iter: usize, method: &str) -> (r: Option<usize>)
    ensures
        match dropping_start(n_iter as nat, method@) {
            Some(s) => r == Some(s as usize),
            None => r is None,
        },
{
    if str_eq(method, "half") {
        return Some(n_iter / 2);
    }
    let m = chars_of(method);
    let skip = chars_of("skip");
    if starts_with_chars(&m, &skip) {
        let mut rest: Vec<char> = Vec::new();
        let mut i: usize = skip.len();
        while i < m.len()
            invariant
                skip@.len() <= i <= m@.len(),
                rest@ == m@.subrange(skip@.len() as int, i as int),
            decreases m@.len() - i,
        {
            rest.push(m[i]);
            assert(m@.subrange(skip@.len() as int, i + 1) =~= rest@);
            i += 1;
        }
        assert(rest@ =~= method@.skip("skip"@.len() as int));
        let v = parse_unsigned_chars(&rest, usize::MAX as u64);
        return match v {
            Some(x) => Some(x as usize),
            None => None,
        };
    }
    None
}

/// The index of the first iteration used, for a supported method.
pub fn first_used_index(n_iter: usize, method: &str) -> (r: usize)
    requires
        dropping_start(n_iter as nat, method@) is Some,
    ensures
        r == dropping_start(n_iter as nat, method@)->0,
{
    match dropping_start_index(n_iter, method) {
        Some(s) => s,
        None => 0,
    }
}

/// The values that a data dropping method keeps: those from its first kept
/// index on.
pub fn data_dropping<T>(values: Vec<T>, method: &str) -> (r: Vec<T>)
    requires
        dropping_start(values@.len(), method@) matches Some(s) && s <= values@.len(),
    ensures
        r@ == values@.skip(dropping_start(values@.len(), method@)->0 as int),
{
    let start = first_used_index(values.len(), method);
    let mut v = values;
    let r = v.split_off(start);
    r
}

/// A metric key: its group and its name.
pub open spec fn key_view(k: (String, String)) -> (Seq<char>, Seq<char>) {
    (k.0@, k.1@)
}

/// The keys of a list, as characters.
pub open spec fn keys_view(v: Seq<(String, String)>) -> Seq<(Seq<char>, Seq<char>)> {
    v.map_values(|k: (String, String)| key_view(k))
}

proof fn lemma_push_contains<A>(s: Seq<A>, x: A, k: A)
    ensures
        s.push(x).contains(k) <==> (s.contains(k) || k == x),
{
    if s.contains(k) {
        let w = choose|w: int| 0 <= w < s.len() && s[w] == k;
        assert(s.push(x)[w] == k);
    }
    if k == x {
        assert(s.push(x)[s.len() as int] == k);
    }
    if s.push(x).contains(k) && k != x {
        let w = choose|w: int| 0 <= w < s.push(x).len() && s.push(x)[w] == k;
        assert(s[w] == k);
    }
}

/// Whether `key` occurs in `keys`.
pub fn contains_key(keys: &Vec<(String, String)>, key: &(String, String)) -> (r: bool)
    ensures
        r == keys_view(keys@).contains(key_view(*key)),
{
    let n = keys.len();
    let mut i: usize = 0;
    while i < n
        invariant
            i <= n,
            n == keys@.len(),
            forall|j: int| 0 <= j < i ==> keys_view(keys@)[j] != key_view(*key),
        decreases n - i,
    {
        if keys[i].0 == key.0 && keys[i].1 == key.1 {
            assert(keys_view(keys@)[i as int] == key_view(*key));
            return true;
        }
        i += 1;
    }
    false
}

/// Whether the key `k` of the first run is kept: with `shared`, when every
/// other run has it; otherwise, when no other run has it.
pub open spec fn key_selected(
    runs: Seq<Seq<(Seq<char>, Seq<char>)>>,
    k: (Seq<char>, Seq<char>),
    shared: bool,
) -> bool {
    &&& runs.len() > 0
    &&& runs[0].contains(k)
    &&& forall|r: int| 1 <= r < runs.len() ==> (#[trigger] runs[r].contains(k)) == shared
}

/// The metric keys of every run.
pub open spec fn runs_view(runs: Seq<Vec<(String, String)>>) -> Seq<Seq<(Seq<char>, Seq<char>)>> {
    runs.map_values(|v: Vec<(String, String)>| keys_view(v@))
}

/// The distinct keys of the first run that are kept (see `key_selected`).
pub fn select_metric_keys(runs: &Vec<Vec<(String, String)>>, shared: bool) -> (r: Vec<
    (String, String),
>)
    requires
        runs@.len() > 0,
    ensures
        keys_view(r@).no_duplicates(),
        forall|k: (Seq<char>, Seq<char>)|
            keys_view(r@).contains(k) <==> key_selected(runs_view(runs@), k, shared),
{
    let ghost rv = runs_view(runs@);
    let first = &runs[0];
    let n0 = first.len();
    let n_runs = runs.len();
    let mut r: Vec<(String, String)> = Vec::new();
    let mut i: usize = 0;
    while i < n0
        invariant
            i <= n0,
            n0 == first@.len(),
            first == runs@[0],
            n_runs == runs@.len(),
            n_runs > 0,
            rv == runs_view(runs@),
            keys_view(r@).no_duplicates(),
            forall|k: (Seq<char>, Seq<char>)|
                keys_view(r@).contains(k) <==> (key_selected(rv, k, shared) && keys_view(
                    first@.take(i as int),
                ).contains(k)),
        decreases n0 - i,
    {
        let key = &first[i];
        let ghost kv = key_view(*key);
        let mut keep = true;
        let mut j: usize = 1;
        while j < n_runs
            invariant
                1 <= j <= n_runs,
                n_runs == runs@.len(),
                rv == runs_view(runs@),
                kv == key_view(*key),
                keep == (forall|q: int| 1 <= q < j ==> (#[trigger] rv[q].contains(kv)) == shared),
            decreases n_runs - j,
        {
            let has = contains_key(&runs[j], key);
            assert(rv[j as int] == keys_view(runs@[j as int]@));
            assert(has == rv[j as int].contains(kv));
            if has != shared {
                keep = false;
            }
            j += 1;
        }
        let already = contains_key(&r, key);
        let ghost old_r = keys_view(r@);
        proof {
            assert(keys_view(first@.take(i + 1)) =~= keys_view(first@.take(i as int)).push(kv));
            assert(rv[0] == keys_view(first@));
            assert(rv[0][i as int] == kv);
            assert(rv[0].contains(kv));
            assert(keep == key_selected(rv, kv, shared));
            assert(already == old_r.contains(kv));
        }
        if keep && !already {
            r.push((key.0.clone(), key.1.clone()));
            proof {
                assert(keys_view(r@) =~= old_r.push(kv));
            }
        } else {
            assert(keys_view(r@) == old_r);
        }
        let ghost pushed = keep && !already;
        let ghost tk = keys_view(first@.take(i as int));
        i += 1;
        proof {
            assert forall|k: (Seq<char>, Seq<char>)|
                keys_view(r@).contains(k) <==> (key_selected(rv, k, shared) && keys_view(
                    first@.take(i as int),
                ).contains(k)) by {
                lemma_push_contains(tk, kv, k);
                lemma_push_contains(old_r, kv, k);
                assert(old_r.contains(k) <==> (key_selected(rv, k, shared) && tk.contains(k)));
                assert(keys_view(first@.take(i as int)) == tk.push(kv));
                if pushed {
                    assert(keys_view(r@) == old_r.push(kv));
                } else {
                    assert(keys_view(r@) == old_r);
                }
            }
        }
    }
    proof {
        assert(first@.take(n0 as int) =~= first@);
        assert forall|k: (Seq<char>, Seq<char>)| key_selected(rv, k, shared) implies keys_view(
            first@,
        ).contains(k) by {
            assert(rv[0] == keys_view(first@));
        }
    }
    r
}

} // verus!
