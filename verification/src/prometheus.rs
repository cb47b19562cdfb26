use vstd::prelude::*;
use crate::text::{trim_char, trim_quotes, views};

verus! {

/// One series of a Prometheus range query, as the server answered it: the
/// `job` label in its JSON rendering (quotes included) and the samples as
/// (Unix time, value text) pairs in answer order.
pub struct RawSeries {
    pub job: String,
    pub samples: Vec<(usize, String)>,
}

/// The samples of one metric for each job of a scrape configuration.
pub struct ReadData {
    /// The earliest sample time over every series of the answer
    /// (`usize::MAX` when there is none).
    pub min_time: usize,
    /// `entries[i]` holds the samples of job `i`, in increasing time order.
    pub entries: Vec<Vec<(usize, String)>>,
}

/// A sample with its value text as characters.
pub open spec fn sample_view(p: (usize, String)) -> (usize, Seq<char>) {
    (p.0, p.1@)
}

/// A list of samples, values as characters.
pub open spec fn samples_view(v: Seq<(usize, String)>) -> Seq<(usize, Seq<char>)> {
    v.map_values(|p: (usize, String)| sample_view(p))
}

/// The value of the last sample taken at time `t`, if any.
pub open spec fn last_value_at(samples: Seq<(usize, Seq<char>)>, t: usize) -> Option<Seq<char>>
    decreases samples.len(),
{
    if samples.len() == 0 {
        None
    } else if samples.last().0 == t {
        Some(samples.last().1)
    } else {
        last_value_at(samples.drop_last(), t)
    }
}

/// `r` lists the sample times of `samples` once each, in increasing order,
/// each with the value of the last sample taken at that time.
pub open spec fn is_time_ordered_latest(
    r: Seq<(usize, Seq<char>)>,
    samples: Seq<(usize, Seq<char>)>,
) -> bool {
    &&& forall|i: int, j: int| 0 <= i < j < r.len() ==> r[i].0 < r[j].0
    &&& forall|i: int| 0 <= i < r.len() ==> last_value_at(samples, #[trigger] r[i].0) == Some(r[i].1)
    &&& forall|t: usize|
        #![trigger last_value_at(samples, t)]
        last_value_at(samples, t) is Some ==> exists|i: int| 0 <= i < r.len() && r[i].0 == t
}

proof fn lemma_last_value_push(samples: Seq<(usize, Seq<char>)>, s: (usize, Seq<char>), t: usize)
    ensures
        last_value_at(samples.push(s), t) == if s.0 == t {
            Some(s.1)
        } else {
            last_value_at(samples, t)
        },
{
    assert(samples.push(s).drop_last() =~= samples);
}

/// The samples ordered by time, one per time, the last one given winning
/// (what a `BTreeMap` keyed by time holds after inserting them in order).
pub fn time_ordered_latest(samples: &Vec<(usize, String)>) -> (r: Vec<(usize, String)>)
    ensures
        is_time_ordered_latest(samples_view(r@), samples_view(samples@)),
{
    let mut r: Vec<(usize, String)> = Vec::new();
    let n = samples.len();
    let mut k: usize = 0;
    while k < n
        invariant
            k <= n,
            n == samples@.len(),
            is_time_ordered_latest(samples_view(r@), samples_view(samples@.take(k as int))),
        decreases n - k,
    {
        let t = samples[k].0;
        let v = samples[k].1.clone();
        let ghost old_r = samples_view(r@);
        let ghost prev = samples_view(samples@.take(k as int));
        let ghost next = samples_view(samples@.take(k + 1));
        proof {
            assert(next =~= prev.push((t, v@)));
            assert forall|t2: usize| #[trigger] last_value_at(next, t2) == if t2 == t {
                Some(v@)
            } else {
                last_value_at(prev, t2)
            } by {
                lemma_last_value_push(prev, (t, v@), t2);
            }
        }
        let m = r.len();
        let mut j: usize = 0;
        while j < m && r[j].0 < t
            invariant
                j <= m,
                m == r@.len(),
                forall|i: int| 0 <= i < j ==> r@[i].0 < t,
            decreases m - j,
        {
            j += 1;
        }
        if j < m && r[j].0 == t {
            r.set(j, (t, v));
            proof {
                let nr = samples_view(r@);
                assert(nr =~= old_r.update(j as int, (t, v@)));
                assert forall|t2: usize|
                    #![trigger last_value_at(next, t2)]
                    last_value_at(next, t2) is Some implies exists|i: int|
                        0 <= i < nr.len() && nr[i].0 == t2 by {
                    if t2 != t {
                        let i0 = choose|i: int| 0 <= i < old_r.len() && old_r[i].0 == t2;
                        assert(nr[i0].0 == t2);
                    } else {
                        assert(nr[j as int].0 == t2);
                    }
                }
                assert forall|i: int| 0 <= i < nr.len() implies last_value_at(
                    next,
                    #[trigger] nr[i].0,
                ) == Some(nr[i].1) by {
                    if i != j {
                        assert(nr[i] == old_r[i]);
                        if i < j {
                            assert(old_r[i].0 < old_r[j as int].0);
                        } else {
                            assert(old_r[j as int].0 < old_r[i].0);
                        }
                        assert(last_value_at(next, old_r[i].0) == last_value_at(prev, old_r[i].0));
                        assert(last_value_at(prev, old_r[i].0) == Some(old_r[i].1));
                    } else {
                        assert(last_value_at(next, t) == Some(v@));
                    }
                }
            }
        } else {
            r.insert(j, (t, v));
            proof {
                let nr = samples_view(r@);
                assert(nr =~= old_r.insert(j as int, (t, v@)));
                assert forall|i: int| 0 <= i < j implies old_r[i].0 < t by {}
                assert forall|i: int| j <= i < old_r.len() implies old_r[i].0 > t by {
                    if i > j {
                        assert(old_r[j as int].0 < old_r[i].0);
                    }
                }
                assert forall|t2: usize|
                    #![trigger last_value_at(next, t2)]
                    last_value_at(next, t2) is Some implies exists|i: int|
                        0 <= i < nr.len() && nr[i].0 == t2 by {
                    if t2 != t {
                        let i0 = choose|i: int| 0 <= i < old_r.len() && old_r[i].0 == t2;
                        if i0 < j {
                            assert(nr[i0].0 == t2);
                        } else {
                            assert(nr[i0 + 1].0 == t2);
                        }
                    } else {
                        assert(nr[j as int].0 == t2);
                    }
                }
                assert forall|i: int| 0 <= i < nr.len() implies last_value_at(
                    next,
                    #[trigger] nr[i].0,
                ) == Some(nr[i].1) by {
                    if i < j {
                        assert(nr[i] == old_r[i]);
                        assert(last_value_at(prev, old_r[i].0) == Some(old_r[i].1));
                    } else if i > j {
                        assert(nr[i] == old_r[i - 1]);
                        assert(last_value_at(prev, old_r[i - 1].0) == Some(old_r[i - 1].1));
                    }
                }
                assert forall|a: int, b: int| 0 <= a < b < nr.len() implies nr[a].0 < nr[b].0 by {
                    if a < j && b > j {
                        assert(nr[b] == old_r[b - 1]);
                    } else if a > j {
                        assert(nr[a] == old_r[a - 1]);
                        assert(nr[b] == old_r[b - 1]);
                    } else if a == j {
                        assert(nr[b] == old_r[b - 1]);
                    }
                }
            }
        }
        k += 1;
    }
    assert(samples@.take(n as int) =~= samples@);
    r
}


/// The index of the last job called `name`, if any (a job list read into a
/// map from name to index keeps the last index of a repeated name).
pub open spec fn job_position(l: Seq<Seq<char>>, name: Seq<char>) -> Option<int>
    decreases l.len(),
{
    if l.len() == 0 {
        None
    } else if l.last() == name {
        Some(l.len() - 1)
    } else {
        job_position(l.drop_last(), name)
    }
}

/// The job name of a series, without the quotes of its JSON rendering.
pub open spec fn series_job(s: RawSeries) -> Seq<char> {
    trim_char(s.job@, '"')
}

/// The index of the last series that belongs to job `i`, if any.
pub open spec fn series_for_job(series: Seq<RawSeries>, l: Seq<Seq<char>>, i: int) -> Option<int>
    decreases series.len(),
{
    if series.len() == 0 {
        None
    } else if job_position(l, series_job(series.last())) == Some(i) {
        Some(series.len() - 1)
    } else {
        series_for_job(series.drop_last(), l, i)
    }
}

/// The entries of `d` are those of the jobs `l` in the answer `series`, and
/// its `min_time` is the earliest sample time of the answer.
pub open spec fn read_data_matches(d: ReadData, l: Seq<Seq<char>>, series: Seq<RawSeries>) -> bool {
    &&& d.entries@.len() == l.len()
    &&& forall|i: int|
        0 <= i < l.len() ==> match #[trigger] series_for_job(series, l, i) {
            Some(k) => is_time_ordered_latest(
                samples_view(d.entries@[i]@),
                samples_view(series[k].samples@),
            ),
            None => d.entries@[i]@.len() == 0,
        }
    &&& forall|k: int, m: int|
        0 <= k < series.len() && 0 <= m < series[k].samples@.len() ==> d.min_time
            <= #[trigger] series[k].samples@[m].0
    &&& d.min_time == usize::MAX || exists|k: int, m: int|
        0 <= k < series.len() && 0 <= m < series[k].samples@.len() && d.min_time
            == #[trigger] series[k].samples@[m].0
}

proof fn lemma_job_position_bounds(l: Seq<Seq<char>>, name: Seq<char>)
    ensures
        job_position(l, name) matches Some(p) ==> 0 <= p < l.len() && l[p] == name,
    decreases l.len(),
{
    if l.len() > 0 && l.last() != name {
        lemma_job_position_bounds(l.drop_last(), name);
    }
}

/// The index of the last job named `name`.
pub fn find_job(l_job_name: &Vec<String>, name: &String) -> (r: Option<usize>)
    ensures
        match job_position(views(l_job_name@), name@) {
            Some(p) => r == Some(p as usize),
            None => r is None,
        },
{
    let mut i: usize = l_job_name.len();
    assert(views(l_job_name@).take(i as int) =~= views(l_job_name@));
    while i > 0
        invariant
            i <= l_job_name@.len(),
            job_position(views(l_job_name@), name@) == job_position(
                views(l_job_name@).take(i as int),
                name@,
            ),
        decreases i,
    {
        let ghost pre = views(l_job_name@).take(i as int);
        assert(pre.last() == l_job_name@[i - 1]@);
        assert(pre.drop_last() =~= views(l_job_name@).take(i - 1));
        if l_job_name[i - 1] == *name {
            return Some(i - 1);
        }
        i -= 1;
    }
    None
}

/// Sorts the answer of a range query into one sample list per job: series
/// of jobs outside `l_job_name` are dropped (their times still count for
/// `min_time`), a later series of a job replaces an earlier one, and each
/// list is ordered by time with the last sample of a repeated time kept.
pub fn assemble_read_data(l_job_name: &Vec<String>, series: &Vec<RawSeries>) -> (d: ReadData)
    ensures
        read_data_matches(d, views(l_job_name@), series@),
{
    let ghost l = views(l_job_name@);
    let n_job = l_job_name.len();
    let mut entries: Vec<Vec<(usize, String)>> = Vec::new();
    let mut i: usize = 0;
    while i < n_job
        invariant
            i <= n_job,
            entries@.len() == i,
            forall|j: int| 0 <= j < i ==> (#[trigger] entries@[j])@.len() == 0,
        decreases n_job - i,
    {
        entries.push(Vec::new());
        i += 1;
    }
    let mut min_time: usize = usize::MAX;
    let n_series = series.len();
    let mut k: usize = 0;
    while k < n_series
        invariant
            k <= n_series,
            n_series == series@.len(),
            n_job == l.len(),
            l == views(l_job_name@),
            entries@.len() == n_job,
            forall|j: int|
                0 <= j < n_job ==> match #[trigger] series_for_job(series@.take(k as int), l, j) {
                    Some(q) => is_time_ordered_latest(
                        samples_view(entries@[j]@),
                        samples_view(series@[q].samples@),
                    ),
                    None => entries@[j]@.len() == 0,
                },
            forall|a: int, m: int|
                0 <= a < k && 0 <= m < series@[a].samples@.len() ==> min_time
                    <= #[trigger] series@[a].samples@[m].0,
            min_time == usize::MAX || exists|a: int, m: int|
                0 <= a < k && 0 <= m < series@[a].samples@.len() && min_time
                    == #[trigger] series@[a].samples@[m].0,
        decreases n_series - k,
    {
        let s = &series[k];
        let n_samples = s.samples.len();
        let mut m: usize = 0;
        while m < n_samples
            invariant
                m <= n_samples,
                n_samples == s.samples@.len(),
                s == series@[k as int],
                k < n_series,
                n_series == series@.len(),
                forall|a: int, b: int|
                    0 <= a < k && 0 <= b < series@[a].samples@.len() ==> min_time
                        <= #[trigger] series@[a].samples@[b].0,
                forall|b: int| 0 <= b < m ==> min_time <= #[trigger] s.samples@[b].0,
                min_time == usize::MAX || (exists|a: int, b: int|
                    0 <= a < k && 0 <= b < series@[a].samples@.len() && min_time
                        == #[trigger] series@[a].samples@[b].0) || (exists|b: int|
                    0 <= b < m && min_time == #[trigger] s.samples@[b].0),
            decreases n_samples - m,
        {
            if s.samples[m].0 < min_time {
                min_time = s.samples[m].0;
            }
            m += 1;
        }
        proof {
            assert forall|a: int, b: int|
                0 <= a < k + 1 && 0 <= b < series@[a].samples@.len() implies min_time
                <= #[trigger] series@[a].samples@[b].0 by {
                if a == k {
                    assert(s.samples@[b] == series@[a].samples@[b]);
                }
            }
            if min_time != usize::MAX {
                if exists|b: int| 0 <= b < n_samples && min_time == #[trigger] s.samples@[b].0 {
                    let b = choose|b: int| 0 <= b < n_samples && min_time == #[trigger] s.samples@[b].0;
                    assert(series@[k as int].samples@[b].0 == min_time);
                }
            }
        }
        let job = trim_quotes(s.job.as_str());
        let pos = find_job(l_job_name, &job);
        proof {
            lemma_job_position_bounds(l, job@);
        }
        let canon = time_ordered_latest(&s.samples);
        let ghost pre = series@.take(k as int);
        let ghost post = series@.take(k + 1);
        proof {
            assert(post.drop_last() =~= pre);
            assert(post.last() == series@[k as int]);
        }
        match pos {
            Some(p) => {
                let ghost old_entries = entries@;
                entries.set(p, canon);
                proof {
                    assert forall|j: int| 0 <= j < n_job implies match #[trigger] series_for_job(
                        post,
                        l,
                        j,
                    ) {
                        Some(q) => is_time_ordered_latest(
                            samples_view(entries@[j]@),
                            samples_view(series@[q].samples@),
                        ),
                        None => entries@[j]@.len() == 0,
                    } by {
                        if j != p {
                            assert(series_for_job(post, l, j) == series_for_job(pre, l, j));
                            assert(entries@[j] == old_entries[j]);
                        }
                    }
                }
            },
            None => {
                proof {
                    assert forall|j: int| 0 <= j < n_job implies #[trigger] series_for_job(post, l, j)
                        == series_for_job(pre, l, j) by {}
                }
            },
        }
        k += 1;
    }
    assert(series@.take(n_series as int) =~= series@);
    ReadData { min_time, entries }
}


/// The positions `idx >= 1` at which a sample's value text differs from the
/// one before it, in increasing order.
pub open spec fn changed_indices(s: Seq<(usize, Seq<char>)>) -> Seq<usize>
    decreases s.len(),
{
    if s.len() <= 1 {
        Seq::empty()
    } else if s.last().1 != s[s.len() - 2].1 {
        changed_indices(s.drop_last()).push((s.len() - 1) as usize)
    } else {
        changed_indices(s.drop_last())
    }
}

/// The positions at which the value of a sample list changes.
pub fn changed_steps(samples: &Vec<(usize, String)>) -> (r: Vec<usize>)
    ensures
        r@ == changed_indices(samples_view(samples@)),
{
    let ghost sv = samples_view(samples@);
    let n = samples.len();
    let mut r: Vec<usize> = Vec::new();
    if n == 0 {
        return r;
    }
    let mut idx: usize = 1;
    while idx < n
        invariant
            1 <= idx <= n,
            n == samples@.len(),
            sv == samples_view(samples@),
            r@ == changed_indices(sv.take(idx as int)),
        decreases n - idx,
    {
        let ghost next = sv.take(idx + 1);
        assert(next.drop_last() =~= sv.take(idx as int));
        assert(next.last() == sv[idx as int]);
        assert(next[next.len() - 2] == sv[idx - 1]);
        if samples[idx].1 != samples[idx - 1].1 {
            r.push(idx);
        }
        idx += 1;
    }
    assert(sv.take(n as int) =~= sv);
    r
}

/// The last and the first value texts of job `i_job`, when it has samples.
pub fn key_delta_endpoints(data: &ReadData, i_job: usize) -> (r: Option<(String, String)>)
    requires
        i_job < data.entries@.len(),
    ensures
        match r {
            Some((upper, lower)) => {
                let e = data.entries@[i_job as int]@;
                &&& e.len() > 0
                &&& upper@ == e.last().1@
                &&& lower@ == e[0].1@
            },
            None => data.entries@[i_job as int]@.len() == 0,
        },
{
    let e = &data.entries[i_job];
    let len = e.len();
    if len > 0 {
        Some((e[len - 1].1.clone(), e[0].1.clone()))
    } else {
        None
    }
}

} // verus!
