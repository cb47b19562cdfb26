use vstd::prelude::*;
use crate::text::{
    chars_eq, chars_of, decimal, decimal_chars, ends_with, ends_with_chars, first_index_from,
    first_index_of, lemma_split_len, owned, split_spec, split_str, starts_with, starts_with_chars,
    string_from_chars, sub_chars, views,
};
use crate::prometheus::{find_job, job_position};

verus! {

/// The environment assignments configured for one command.
pub struct EnvironmentList {
    pub command: String,
    pub environments: Vec<String>,
}

/// Why an environment entry was refused, with the entry.
pub enum EnvError {
    /// The entry does not start with `export `.
    NotAnExport(String),
    /// The entry has no `=` after `export `.
    NoAssignment(String),
}

/// A refused entry, over characters.
pub enum EnvFailure {
    NotAnExport(Seq<char>),
    NoAssignment(Seq<char>),
}

/// The entries of every list configured for `command`, in order.
pub open spec fn selected_entries(lists: Seq<EnvironmentList>, command: Seq<char>) -> Seq<
    Seq<char>,
>
    decreases lists.len(),
{
    if lists.len() == 0 {
        Seq::empty()
    } else if lists.last().command@ == command {
        selected_entries(lists.drop_last(), command) + views(lists.last().environments@)
    } else {
        selected_entries(lists.drop_last(), command)
    }
}

/// The variables set by `export NAME=VALUE` entries, in order (a later
/// assignment of a name wins), or the first refused entry.
pub open spec fn env_result(entries: Seq<Seq<char>>) -> Result<
    Map<Seq<char>, Seq<char>>,
    EnvFailure,
>
    decreases entries.len(),
{
    if entries.len() == 0 {
        Ok(Map::empty())
    } else {
        match env_result(entries.drop_last()) {
            Err(f) => Err(f),
            Ok(m) => {
                let e = entries.last();
                if !starts_with(e, "export "@) {
                    Err(EnvFailure::NotAnExport(e))
                } else {
                    let body = e.skip("export "@.len() as int);
                    match first_index_from(body, '=', 0) {
                        None => Err(EnvFailure::NoAssignment(e)),
                        Some(k) => Ok(m.insert(body.take(k), body.skip(k + 1))),
                    }
                }
            },
        }
    }
}

/// `v` lists the entries of `m`, each name once.
pub open spec fn pairs_represent(v: Seq<(String, String)>, m: Map<Seq<char>, Seq<char>>) -> bool {
    &&& forall|i: int, j: int| 0 <= i < j < v.len() ==> v[i].0@ != v[j].0@
    &&& forall|i: int| 0 <= i < v.len() ==> m.contains_key(#[trigger] v[i].0@) && m[v[i].0@] == v[i].1@
    &&& forall|k: Seq<char>| #[trigger] m.contains_key(k) ==> exists|i: int| 0 <= i < v.len() && v[i].0@ == k
}

/// The environment variables configured for `command`.
pub fn get_environments(lists: &Vec<EnvironmentList>, command: &String) -> (r: Result<
    Vec<(String, String)>,
    EnvError,
>)
    ensures
        match (r, env_result(selected_entries(lists@, command@))) {
            (Ok(v), Ok(m)) => pairs_represent(v@, m),
            (Err(EnvError::NotAnExport(e)), Err(EnvFailure::NotAnExport(f))) => e@ == f,
            (Err(EnvError::NoAssignment(e)), Err(EnvFailure::NoAssignment(f))) => e@ == f,
            _ => false,
        },
{
    let mut v: Vec<(String, String)> = Vec::new();
    let ghost mut m: Map<Seq<char>, Seq<char>> = Map::empty();
    let export = chars_of("export ");
    let n = lists.len();
    let mut a: usize = 0;
    while a < n
        invariant
            a <= n,
            n == lists@.len(),
            export@ == "export "@,
            env_result(selected_entries(lists@.take(a as int), command@)) == Ok::<
                Map<Seq<char>, Seq<char>>,
                EnvFailure,
            >(m),
            pairs_represent(v@, m),
        decreases n - a,
    {
        let list = &lists[a];
        let ghost before = selected_entries(lists@.take(a as int), command@);
        proof {
            assert(lists@.take(a + 1).drop_last() =~= lists@.take(a as int));
            assert(lists@.take(a + 1).last() == lists@[a as int]);
        }
        let same = list.command == *command;
        if same {
            let k = list.environments.len();
            let mut b: usize = 0;
            assert(before + views(list.environments@).take(0) =~= before);
            while b < k
                invariant
                    b <= k,
                    k == list.environments@.len(),
                    a < n,
                    n == lists@.len(),
                    *list == lists@[a as int],
                    list.command@ == command@,
                    before == selected_entries(lists@.take(a as int), command@),
                    lists@.take(a + 1).drop_last() == lists@.take(a as int),
                    lists@.take(a + 1).last() == lists@[a as int],
                    export@ == "export "@,
                    env_result(before + views(list.environments@).take(b as int)) == Ok::<
                        Map<Seq<char>, Seq<char>>,
                        EnvFailure,
                    >(m),
                    pairs_represent(v@, m),
                decreases k - b,
            {
                let entry = &list.environments[b];
                let ghost seen = before + views(list.environments@).take(b as int);
                let ghost next = before + views(list.environments@).take(b + 1);
                proof {
                    assert(next.drop_last() =~= seen);
                    assert(next.last() == entry@);
                }
                proof {
                    lemma_selected_prefix(lists@, command@, a + 1);
                    let t1 = choose|t: Seq<Seq<char>>| selected_entries(lists@, command@)
                        == #[trigger] (selected_entries(lists@.take(a + 1), command@) + t);
                    assert(selected_entries(lists@.take(a + 1), command@) == before + views(
                        list.environments@,
                    ));
                    let rest = views(list.environments@).skip(b + 1) + t1;
                    assert(selected_entries(lists@, command@) =~= next + rest);
                    if env_result(next) is Err {
                        lemma_env_error_persists(next, rest);
                    }
                }
                let e = chars_of(entry.as_str());
                if !starts_with_chars(&e, &export) {
                    return Err(EnvError::NotAnExport(entry.clone()));
                }
                let body = sub_chars(&e, export.len(), e.len());
                assert(body@ =~= entry@.skip("export "@.len() as int));
                let eq = first_index_of(&body, '=');
                match eq {
                    None => {
                        return Err(EnvError::NoAssignment(entry.clone()));
                    },
                    Some(q) => {
                        proof {
                            assert(first_index_from(body@, '=', 0) matches Some(x) && x == q
                                && 0 <= x < body@.len()) by {
                                lemma_first_index_bounds(body@, '=', 0);
                            }
                        }
                        let key_c = sub_chars(&body, 0, q);
                        let val_c = sub_chars(&body, q + 1, body.len());
                        assert(key_c@ =~= body@.take(q as int));
                        assert(val_c@ =~= body@.skip(q + 1));
                        let key = string_from_chars(&key_c);
                        let val = string_from_chars(&val_c);
                        let ghost new_m = m.insert(key@, val@);
                        let mut j: usize = 0;
                        let vn = v.len();
                        while j < vn && v[j].0 != key
                            invariant
                                j <= vn,
                                vn == v@.len(),
                                forall|i: int| 0 <= i < j ==> v@[i].0@ != key@,
                            decreases vn - j,
                        {
                            j += 1;
                        }
                        let ghost old_v = v@;
                        if j < vn {
                            v.set(j, (key, val));
                            proof {
                                assert forall|i: int| 0 <= i < v@.len() implies new_m.contains_key(
                                    #[trigger] v@[i].0@,
                                ) && new_m[v@[i].0@] == v@[i].1@ by {
                                    if i != j {
                                        assert(v@[i] == old_v[i]);
                                        assert(old_v[i].0@ != old_v[j as int].0@ || i == j);
                                    }
                                }
                                assert forall|kk: Seq<char>| #[trigger]
                                    new_m.contains_key(kk) implies exists|i: int|
                                    0 <= i < v@.len() && v@[i].0@ == kk by {
                                    if kk != key@ {
                                        let i0 = choose|i: int|
                                            0 <= i < old_v.len() && old_v[i].0@ == kk;
                                        assert(v@[i0].0@ == kk);
                                    } else {
                                        assert(v@[j as int].0@ == kk);
                                    }
                                }
                                assert forall|x: int, y: int| 0 <= x < y < v@.len() implies v@[x].0@
                                    != v@[y].0@ by {
                                    if x != j && y != j {
                                        assert(v@[x] == old_v[x] && v@[y] == old_v[y]);
                                    } else if x == j {
                                        assert(old_v[x].0@ != old_v[y].0@);
                                    } else {
                                        assert(old_v[x].0@ != old_v[y].0@);
                                    }
                                }
                            }
                        } else {
                            v.push((key, val));
                            proof {
                                assert forall|i: int| 0 <= i < v@.len() implies new_m.contains_key(
                                    #[trigger] v@[i].0@,
                                ) && new_m[v@[i].0@] == v@[i].1@ by {
                                    if i < old_v.len() {
                                        assert(v@[i] == old_v[i]);
                                    }
                                }
                                assert forall|kk: Seq<char>| #[trigger]
                                    new_m.contains_key(kk) implies exists|i: int|
                                    0 <= i < v@.len() && v@[i].0@ == kk by {
                                    if kk != key@ {
                                        let i0 = choose|i: int|
                                            0 <= i < old_v.len() && old_v[i].0@ == kk;
                                        assert(v@[i0].0@ == kk);
                                    } else {
                                        assert(v@[old_v.len() as int].0@ == kk);
                                    }
                                }
                                assert forall|x: int, y: int| 0 <= x < y < v@.len() implies v@[x].0@
                                    != v@[y].0@ by {
                                    if y == old_v.len() {
                                        assert(v@[x] == old_v[x]);
                                    } else {
                                        assert(v@[x] == old_v[x] && v@[y] == old_v[y]);
                                    }
                                }
                            }
                        }
                        proof {
                            m = new_m;
                        }
                    },
                }
                b += 1;
            }
            proof {
                assert(views(list.environments@).take(k as int) =~= views(list.environments@));
            }
        } else {
            proof {
                assert(selected_entries(lists@.take(a + 1), command@) == before);
            }
        }
        a += 1;
    }
    proof {
        assert(lists@.take(n as int) =~= lists@);
    }
    Ok(v)
}

proof fn lemma_env_error_persists(s: Seq<Seq<char>>, t: Seq<Seq<char>>)
    requires
        env_result(s) is Err,
    ensures
        env_result(s + t) == env_result(s),
    decreases t.len(),
{
    if t.len() == 0 {
        assert(s + t =~= s);
    } else {
        lemma_env_error_persists(s, t.drop_last());
        assert((s + t).drop_last() =~= s + t.drop_last());
    }
}

proof fn lemma_selected_prefix(lists: Seq<EnvironmentList>, command: Seq<char>, a: int)
    requires
        0 <= a <= lists.len(),
    ensures
        exists|t: Seq<Seq<char>>| selected_entries(lists, command) == #[trigger] (selected_entries(
            lists.take(a),
            command,
        ) + t),
    decreases lists.len(),
{
    if a == lists.len() {
        assert(lists.take(a) =~= lists);
        assert(selected_entries(lists, command) =~= selected_entries(lists.take(a), command)
            + Seq::<Seq<char>>::empty());
    } else {
        lemma_selected_prefix(lists.drop_last(), command, a);
        assert(lists.drop_last().take(a) =~= lists.take(a));
        let t = choose|t: Seq<Seq<char>>| selected_entries(lists.drop_last(), command)
            == #[trigger] (selected_entries(lists.drop_last().take(a), command) + t);
        if lists.last().command@ == command {
            let t2 = t + views(lists.last().environments@);
            assert(selected_entries(lists, command) =~= selected_entries(lists.take(a), command)
                + t2);
        } else {
            assert(selected_entries(lists, command) == selected_entries(lists.take(a), command)
                + t);
        }
    }
}

proof fn lemma_first_index_bounds(s: Seq<char>, c: char, from: int)
    ensures
        first_index_from(s, c, from) matches Some(k) ==> from <= k < s.len() && s[k] == c,
    decreases s.len() - from,
{
    if from >= 0 && from < s.len() && s[from] != c {
        lemma_first_index_bounds(s, c, from + 1);
    }
}


/// A command line split at single spaces: the program and its arguments.
pub open spec fn command_parts(command: Seq<char>) -> (Seq<char>, Seq<Seq<char>>) {
    let pieces = split_spec(command, " "@);
    (pieces[0], pieces.skip(1))
}

/// The program and the arguments of a command line split at spaces.
pub fn split_command(command: &str) -> (r: (String, Vec<String>))
    ensures
        r.0@ == command_parts(command@).0,
        views(r.1@) == command_parts(command@).1,
{
    let mut pieces = split_str(command, " ");
    proof {
        lemma_split_len(command@, " "@);
    }
    let ghost all = views(pieces@);
    let args = pieces.split_off(1);
    assert(views(args@) =~= all.skip(1));
    let program = pieces[0].clone();
    assert(all[0] == program@);
    (program, args)
}

/// How a configured command is run.
pub struct Invocation {
    /// The name its environment variables are configured under.
    pub env_key: String,
    pub program: String,
    pub args: Vec<String>,
    /// Started in the background (the line ended in ` &`) rather than
    /// waited for.
    pub background: bool,
}

/// A line ending in ` &` runs in the background, without those two
/// characters, and its environment is looked up under the whole remaining
/// line; another line runs in the foreground, its environment looked up
/// under the program name.
pub open spec fn invocation_matches(inv: Invocation, command: Seq<char>) -> bool {
    if ends_with(command, " &"@) {
        let red = command.take(command.len() - 2);
        &&& inv.background
        &&& inv.env_key@ == red
        &&& inv.program@ == command_parts(red).0
        &&& views(inv.args@) == command_parts(red).1
    } else {
        &&& !inv.background
        &&& inv.env_key@ == command_parts(command).0
        &&& inv.program@ == command_parts(command).0
        &&& views(inv.args@) == command_parts(command).1
    }
}

/// How to run one of the commands that prepare a benchmark.
pub fn plan_invocation(command: &str) -> (r: Invocation)
    ensures
        invocation_matches(r, command@),
{
    let c = chars_of(command);
    let amp = chars_of(" &");
    if ends_with_chars(&c, &amp) {
        proof {
            reveal_strlit(" &");
        }
        let red_c = sub_chars(&c, 0, c.len() - 2);
        let red = string_from_chars(&red_c);
        assert(red@ =~= command@.take(command@.len() - 2));
        let (program, args) = split_command(red.as_str());
        Invocation { env_key: red, program, args, background: true }
    } else {
        let (program, args) = split_command(command);
        Invocation { env_key: program.clone(), program, args, background: false }
    }
}

/// The index of the last name in `names` equal to a process name: the
/// process is killed under that name.
pub fn kill_match(process_name: &str, names: &Vec<String>) -> (r: Option<usize>)
    ensures
        match job_position(views(names@), process_name@) {
            Some(p) => r == Some(p as usize),
            None => r is None,
        },
{
    find_job(names, &owned(process_name))
}

/// The name of a file to try: the name itself first, then `name_V1`,
/// `name_V2`, ...
pub open spec fn file_attempt(file_name: Seq<char>, iter: nat) -> Seq<char> {
    if iter == 0 {
        file_name
    } else {
        file_name + "_V"@ + decimal(iter)
    }
}

/// The `iter`-th name tried when moving an existing file out of the way.
pub fn file_name_attempt(file_name: &str, iter: u64) -> (r: String)
    ensures
        r@ == file_attempt(file_name@, iter as nat),
{
    if iter == 0 {
        return owned(file_name);
    }
    let mut v = chars_of(file_name);
    let mut x = chars_of("_V");
    v.append(&mut x);
    let mut d = decimal_chars(iter);
    v.append(&mut d);
    string_from_chars(&v)
}

/// Column `k` of a matrix: the `k`-th entry of each row.
pub open spec fn column<T>(rows: Seq<Vec<T>>, k: int) -> Seq<T> {
    Seq::new(rows.len(), |r: int| rows[r]@[k])
}

/// Whether some row has a positive count in column `k`.
pub open spec fn column_used(counts: Seq<Vec<usize>>, k: int) -> bool {
    exists|r: int| 0 <= r < counts.len() && #[trigger] counts[r]@[k] > 0
}

/// The columns below `n` with a positive count somewhere, in order.
pub open spec fn used_columns(counts: Seq<Vec<usize>>, n: int) -> Seq<int>
    decreases n,
{
    if n <= 0 {
        Seq::empty()
    } else if column_used(counts, n - 1) {
        used_columns(counts, n - 1).push(n - 1)
    } else {
        used_columns(counts, n - 1)
    }
}

/// Turns a list of runs (each a list of metrics) into a list of metrics
/// (each a list of runs), keeping the metrics of which some run has a value:
/// `counts[r][k]` is the number of values of metric `k` in run `r`. The
/// metrics are those of the first run's length.
pub fn transpose_nonempty<T>(rows: Vec<Vec<T>>, counts: &Vec<Vec<usize>>) -> (r: Vec<Vec<T>>)
    requires
        rows@.len() > 0,
        counts@.len() == rows@.len(),
        forall|q: int| 0 <= q < rows@.len() ==> (#[trigger] rows@[q])@.len() >= rows@[0]@.len(),
        forall|q: int| 0 <= q < counts@.len() ==> (#[trigger] counts@[q])@.len() >= rows@[0]@.len(),
    ensures
        r@.len() == used_columns(counts@, rows@[0]@.len() as int).len(),
        forall|i: int|
            0 <= i < r@.len() ==> (#[trigger] r@[i])@ == column(
                rows@,
                used_columns(counts@, rows@[0]@.len() as int)[i],
            ),
{
    let ghost orig = rows@;
    let n_keys = rows[0].len();
    let n_rows = rows.len();
    let mut cols: Vec<Vec<T>> = Vec::new();
    let mut k: usize = 0;
    while k < n_keys
        invariant
            k <= n_keys,
            cols@.len() == k,
            forall|j: int| 0 <= j < k ==> (#[trigger] cols@[j])@.len() == 0,
        decreases n_keys - k,
    {
        cols.push(Vec::new());
        k += 1;
    }
    let mut rows = rows;
    let mut q: usize = 0;
    while q < n_rows
        invariant
            q <= n_rows,
            n_rows == orig.len(),
            n_keys == orig[0]@.len(),
            rows@.len() == n_rows,
            forall|p: int| q <= p < n_rows ==> #[trigger] rows@[p] == orig[p],
            forall|p: int| 0 <= p < n_rows ==> (#[trigger] orig[p])@.len() >= n_keys,
            cols@.len() == n_keys,
            forall|j: int| 0 <= j < n_keys ==> (#[trigger] cols@[j])@ == column(orig.take(q as int), j),
        decreases n_rows - q,
    {
        let mut row: Vec<T> = Vec::new();
        rows.set_and_swap(q, &mut row);
        assert(row == orig[q as int]);
        row.truncate(n_keys);
        let ghost full_row = row@;
        let mut kk: usize = n_keys;
        while kk > 0
            invariant
                kk <= n_keys,
                row@ == full_row.take(kk as int),
                full_row.len() == n_keys,
                full_row == orig[q as int]@.take(n_keys as int),
                cols@.len() == n_keys,
                forall|j: int| 0 <= j < kk ==> (#[trigger] cols@[j])@ == column(orig.take(q as int), j),
                forall|j: int|
                    kk <= j < n_keys ==> (#[trigger] cols@[j])@ == column(orig.take(q as int), j).push(
                        full_row[j],
                    ),
            decreases kk,
        {
            let x = row.pop();
            assert(row@ =~= full_row.take(kk - 1));
            match x {
                Some(x) => {
                    let mut col: Vec<T> = Vec::new();
                    cols.set_and_swap(kk - 1, &mut col);
                    col.push(x);
                    cols.set_and_swap(kk - 1, &mut col);
                },
                None => {},
            }
            kk -= 1;
        }
        proof {
            assert forall|j: int| 0 <= j < n_keys implies (#[trigger] cols@[j])@ == column(
                orig.take(q + 1),
                j,
            ) by {
                assert(column(orig.take(q + 1), j) =~= column(orig.take(q as int), j).push(
                    orig[q as int]@[j],
                ));
            }
        }
        q += 1;
    }
    assert(orig.take(n_rows as int) =~= orig);
    let mut r: Vec<Vec<T>> = Vec::new();
    let mut k: usize = 0;
    while k < n_keys
        invariant
            k <= n_keys,
            n_keys == orig[0]@.len(),
            n_rows == orig.len(),
            counts@.len() == n_rows,
            forall|p: int| 0 <= p < n_rows ==> (#[trigger] counts@[p])@.len() >= n_keys,
            cols@.len() == n_keys,
            forall|j: int| k <= j < n_keys ==> (#[trigger] cols@[j])@ == column(orig, j),
            r@.len() == used_columns(counts@, k as int).len(),
            forall|i: int|
                0 <= i < r@.len() ==> (#[trigger] r@[i])@ == column(
                    orig,
                    used_columns(counts@, k as int)[i],
                ),
        decreases n_keys - k,
    {
        let mut used = false;
        let mut p: usize = 0;
        while p < n_rows
            invariant
                p <= n_rows,
                k < n_keys,
                n_rows == counts@.len(),
                forall|pp: int| 0 <= pp < n_rows ==> (#[trigger] counts@[pp])@.len() >= n_keys,
                used == exists|pp: int| 0 <= pp < p && #[trigger] counts@[pp]@[k as int] > 0,
            decreases n_rows - p,
        {
            if counts[p][k] > 0 {
                used = true;
            }
            p += 1;
        }
        assert(used == column_used(counts@, k as int));
        let ghost old_r = r@;
        if used {
            let mut col: Vec<T> = Vec::new();
            cols.set_and_swap(k, &mut col);
            r.push(col);
            proof {
                assert(used_columns(counts@, k + 1) == used_columns(counts@, k as int).push(
                    k as int,
                ));
                assert forall|i: int| 0 <= i < r@.len() implies (#[trigger] r@[i])@ == column(
                    orig,
                    used_columns(counts@, k + 1)[i],
                ) by {
                    if i < old_r.len() {
                        assert(r@[i] == old_r[i]);
                    }
                }
            }
        } else {
            assert(used_columns(counts@, k + 1) == used_columns(counts@, k as int));
        }
        k += 1;
    }
    r
}


/// Whether `char::is_whitespace` holds of `c` (the Unicode `White_Space`
/// property).
pub uninterp spec fn char_whitespace(c: char) -> bool;

/// std's `char::is_whitespace`. The contract names its result and claims,
/// from the `White_Space` property, that among ASCII characters exactly the
/// space and `\t`, `\n`, vertical tab, form feed and `\r` are whitespace.
#[verifier::external_body]
fn is_whitespace_char(c: char) -> (r: bool)
    ensures
        r == char_whitespace(c),
        (c as u32) < 128 ==> (r <==> (c == ' ' || ('\t' <= c && c <= '\r'))),
{
    c.is_whitespace()
}

/// `s` without leading whitespace.
pub open spec fn trim_start_ws(s: Seq<char>) -> Seq<char>
    decreases s.len(),
{
    if s.len() > 0 && char_whitespace(s[0]) {
        trim_start_ws(s.skip(1))
    } else {
        s
    }
}

/// `s` without trailing whitespace.
pub open spec fn trim_end_ws(s: Seq<char>) -> Seq<char>
    decreases s.len(),
{
    if s.len() > 0 && char_whitespace(s.last()) {
        trim_end_ws(s.drop_last())
    } else {
        s
    }
}

/// `str::trim`: `s` without whitespace at either end.
pub open spec fn trim_ws(s: Seq<char>) -> Seq<char> {
    trim_end_ws(trim_start_ws(s))
}

/// `str::trim` on characters.
pub fn trim_whitespace(s: &Vec<char>) -> (r: Vec<char>)
    ensures
        r@ == trim_ws(s@),
{
    let n = s.len();
    let mut a: usize = 0;
    assert(s@.skip(0) =~= s@);
    while a < n && is_whitespace_char(s[a])
        invariant
            a <= n,
            n == s@.len(),
            trim_start_ws(s@) == trim_start_ws(s@.skip(a as int)),
        decreases n - a,
    {
        assert(s@.skip(a as int).skip(1) =~= s@.skip(a + 1));
        a += 1;
    }
    let mut b: usize = n;
    assert(s@.subrange(a as int, n as int) =~= s@.skip(a as int));
    while b > a && is_whitespace_char(s[b - 1])
        invariant
            a <= b <= n,
            n == s@.len(),
            trim_ws(s@) == trim_end_ws(s@.subrange(a as int, b as int)),
        decreases b,
    {
        assert(s@.subrange(a as int, b as int).drop_last() =~= s@.subrange(a as int, b - 1));
        b -= 1;
    }
    sub_chars(s, a, b)
}

/// The kinds of step a call sequence holds.
#[derive(PartialEq, Eq, Structural, Clone, Copy, Debug)]
pub enum Nature {
    ExecuteCommand,
    KillProcesses,
}

/// The kind a step's `nature` names, surrounding whitespace ignored.
pub open spec fn nature_spec(nature: Seq<char>) -> Option<Nature> {
    let t = trim_ws(nature);
    if t == "execute_command"@ {
        Some(Nature::ExecuteCommand)
    } else if t == "kill_processes"@ {
        Some(Nature::KillProcesses)
    } else {
        None
    }
}

/// The kind of a step, or `None` for a nature that is not known.
pub fn nature_of(nature: &str) -> (r: Option<Nature>)
    ensures
        r == nature_spec(nature@),
{
    let t = trim_whitespace(&chars_of(nature));
    if chars_eq(&t, &chars_of("execute_command")) {
        return Some(Nature::ExecuteCommand);
    }
    if chars_eq(&t, &chars_of("kill_processes")) {
        return Some(Nature::KillProcesses);
    }
    None
}


/// What to do after one run of a repeated command.
#[derive(PartialEq, Eq, Structural, Clone, Copy, Debug)]
pub enum RunDecision {
    Continue,
    /// The run failed and the configuration stops at the first failure.
    StopAtFailure,
    /// The run succeeded and the configuration stops at the first success.
    StopAtSuccess,
}

/// The failure count and the decision after a run that exited with `code`:
/// a positive code is a failure, any other code a success.
pub fn after_run(n_fail: usize, code: i32, stop_at_one_failure: bool, stop_at_one_success: bool) -> (r: (
    usize,
    RunDecision,
))
    requires
        n_fail < usize::MAX,
    ensures
        code > 0 ==> r.0 == n_fail + 1 && r.1 == (if stop_at_one_failure {
            RunDecision::StopAtFailure
        } else {
            RunDecision::Continue
        }),
        code <= 0 ==> r.0 == n_fail && r.1 == (if stop_at_one_success {
            RunDecision::StopAtSuccess
        } else {
            RunDecision::Continue
        }),
{
    if code > 0 {
        if stop_at_one_failure {
            (n_fail + 1, RunDecision::StopAtFailure)
        } else {
            (n_fail + 1, RunDecision::Continue)
        }
    } else if stop_at_one_success {
        (n_fail, RunDecision::StopAtSuccess)
    } else {
        (n_fail, RunDecision::Continue)
    }
}

} // verus!
