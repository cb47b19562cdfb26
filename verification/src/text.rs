use vstd::prelude::*;
use vstd::string::*;

verus! {

broadcast use vstd::string::group_string_axioms;

/// Appends one character to a `String` (std's `String::push`).
#[verifier::external_body]
fn push_char(s: &mut String, c: char)
    ensures
        final(s)@ == old(s)@.push(c),
{
    s.push(c);
}

/// The characters of a string slice, in order.
pub fn chars_of(s: &str) -> (r: Vec<char>)
    ensures
        r@ == s@,
{
    let mut r: Vec<char> = Vec::new();
    for c in it: s.chars()
        invariant
            it.seq() == s@,
            r@ == it.seq().take(it.index() as int),
    {
        r.push(c);
    }
    r
}

/// A `String` holding exactly the given characters.
pub fn string_from_chars(v: &Vec<char>) -> (s: String)
    ensures
        s@ == v@,
{
    let mut s = String::new();
    let n = v.len();
    let mut i: usize = 0;
    while i < n
        invariant
            i <= n,
            n == v@.len(),
            s@ == v@.take(i as int),
        decreases n - i,
    {
        push_char(&mut s, v[i]);
        assert(v@.take(i + 1) =~= v@.take(i as int).push(v@[i as int]));
        i += 1;
    }
    assert(v@.take(n as int) =~= v@);
    s
}


/// `s` begins with `p`.
pub open spec fn starts_with(s: Seq<char>, p: Seq<char>) -> bool {
    p.len() <= s.len() && s.take(p.len() as int) == p
}

/// `s` ends with `p`.
pub open spec fn ends_with(s: Seq<char>, p: Seq<char>) -> bool {
    p.len() <= s.len() && s.skip(s.len() - p.len()) == p
}

/// Prepends `c` to the first piece of a split.
pub open spec fn prepend_to_first(c: Seq<char>, pieces: Seq<Seq<char>>) -> Seq<Seq<char>> {
    seq![c + pieces[0]] + pieces.skip(1)
}

/// The pieces of `s` between the non-overlapping occurrences of the nonempty
/// pattern `p`, matched from the left (the meaning of `str::split`).
pub open spec fn split_nonempty(s: Seq<char>, p: Seq<char>) -> Seq<Seq<char>>
    recommends
        p.len() > 0,
    decreases s.len(),
{
    if p.len() == 0 || s.len() < p.len() {
        seq![s]
    } else if starts_with(s, p) {
        seq![Seq::<char>::empty()] + split_nonempty(s.skip(p.len() as int), p)
    } else {
        prepend_to_first(seq![s[0]], split_nonempty(s.skip(1), p))
    }
}

/// The pieces `str::split` yields for the pattern `p`: with an empty pattern,
/// an empty piece, each character on its own, and an empty piece.
pub open spec fn split_spec(s: Seq<char>, p: Seq<char>) -> Seq<Seq<char>> {
    if p.len() == 0 {
        seq![Seq::<char>::empty()] + Seq::new(s.len(), |i: int| seq![s[i]]) + seq![
            Seq::<char>::empty(),
        ]
    } else {
        split_nonempty(s, p)
    }
}

/// A split always has at least one piece.
pub proof fn lemma_split_nonempty_len(s: Seq<char>, p: Seq<char>)
    ensures
        split_nonempty(s, p).len() >= 1,
    decreases s.len(),
{
    if p.len() == 0 || s.len() < p.len() {
    } else if starts_with(s, p) {
        lemma_split_nonempty_len(s.skip(p.len() as int), p);
    } else {
        lemma_split_nonempty_len(s.skip(1), p);
    }
}

proof fn lemma_prepend_twice(a: Seq<char>, b: Seq<char>, x: Seq<Seq<char>>)
    requires
        x.len() >= 1,
    ensures
        prepend_to_first(a, prepend_to_first(b, x)) == prepend_to_first(a + b, x),
{
    let inner = prepend_to_first(b, x);
    assert(inner[0] == b + x[0]);
    assert(inner.skip(1) =~= x.skip(1));
    assert(a + (b + x[0]) =~= (a + b) + x[0]);
    assert(prepend_to_first(a, inner) =~= prepend_to_first(a + b, x));
}

proof fn lemma_split_step(s: Seq<char>, p: Seq<char>)
    requires
        p.len() > 0,
        s.len() > 0,
        !starts_with(s, p),
    ensures
        split_nonempty(s, p) == prepend_to_first(seq![s[0]], split_nonempty(s.skip(1), p)),
{
    if s.len() < p.len() {
        assert(s.skip(1).len() < p.len());
        assert(seq![s[0]] + s.skip(1) =~= s);
        assert(prepend_to_first(seq![s[0]], split_nonempty(s.skip(1), p)) =~= seq![s]);
    }
}

proof fn lemma_prepend_empty(x: Seq<Seq<char>>)
    requires
        x.len() >= 1,
    ensures
        prepend_to_first(Seq::<char>::empty(), x) == x,
{
    assert(Seq::<char>::empty() + x[0] =~= x[0]);
    assert(prepend_to_first(Seq::<char>::empty(), x) =~= x);
}

/// Whether `p` occurs in `s` at position `i`.
fn occurs_at(s: &Vec<char>, p: &Vec<char>, i: usize) -> (r: bool)
    requires
        i <= s@.len(),
    ensures
        r == starts_with(s@.skip(i as int), p@),
{
    let n = s.len();
    let m = p.len();
    if m > n - i {
        return false;
    }
    let mut j: usize = 0;
    while j < m
        invariant
            j <= m,
            m == p@.len(),
            n == s@.len(),
            i + m <= n,
            forall|k: int| 0 <= k < j ==> s@[i + k] == p@[k],
        decreases m - j,
    {
        if s[i + j] != p[j] {
            assert(s@.skip(i as int).take(m as int)[j as int] != p@[j as int]);
            return false;
        }
        j += 1;
    }
    assert(s@.skip(i as int).take(m as int) =~= p@);
    true
}

/// `str::split` on character vectors.
pub fn split_chars(s: &Vec<char>, p: &Vec<char>) -> (r: Vec<Vec<char>>)
    ensures
        r@.len() == split_spec(s@, p@).len(),
        forall|k: int| 0 <= k < r@.len() ==> #[trigger] r@[k]@ == split_spec(s@, p@)[k],
{
    let n = s.len();
    let m = p.len();
    let mut r: Vec<Vec<char>> = Vec::new();
    if m == 0 {
        r.push(Vec::new());
        let mut i: usize = 0;
        while i < n
            invariant
                i <= n,
                n == s@.len(),
                r@.len() == i + 1,
                r@[0]@ == Seq::<char>::empty(),
                forall|k: int| 1 <= k <= i ==> #[trigger] r@[k]@ == seq![s@[k - 1]],
            decreases n - i,
        {
            let mut piece: Vec<char> = Vec::new();
            piece.push(s[i]);
            r.push(piece);
            i += 1;
        }
        r.push(Vec::new());
        return r;
    }
    let mut cur: Vec<char> = Vec::new();
    let mut i: usize = 0;
    proof {
        assert(s@.skip(0) =~= s@);
        assert(cur@ + split_nonempty(s@, p@)[0] =~= split_nonempty(s@, p@)[0]);
        lemma_split_nonempty_len(s@, p@);
        assert(split_nonempty(s@, p@) =~= prepend_to_first(cur@, split_nonempty(s@.skip(0), p@)));
    }
    while i < n
        invariant
            i <= n,
            n == s@.len(),
            m == p@.len(),
            m > 0,
            split_nonempty(s@, p@) =~= Seq::new(r@.len(), |k: int| r@[k]@) + prepend_to_first(
                cur@,
                split_nonempty(s@.skip(i as int), p@),
            ),
        decreases n - i,
    {
        let ghost rest = s@.skip(i as int);
        let ghost old_pieces = Seq::new(r@.len(), |k: int| r@[k]@);
        if occurs_at(s, p, i) {
            proof {
                assert(rest.skip(m as int) =~= s@.skip(i + m));
                lemma_split_nonempty_len(s@.skip(i + m), p@);
                let x = split_nonempty(s@.skip(i + m), p@);
                assert(split_nonempty(rest, p@) == seq![Seq::<char>::empty()] + x);
                assert((seq![Seq::<char>::empty()] + x).skip(1) =~= x);
                assert(cur@ + (seq![Seq::<char>::empty()] + x)[0] =~= cur@);
            }
            r.push(cur);
            cur = Vec::new();
            i = i + m;
            proof {
                let x = split_nonempty(s@.skip(i as int), p@);
                lemma_prepend_empty(x);
                assert(old_pieces.push(r@[r@.len() - 1]@) + x =~= old_pieces + prepend_to_first(
                    r@[r@.len() - 1]@,
                    seq![Seq::<char>::empty()] + x,
                ));
                assert(Seq::new(r@.len(), |k: int| r@[k]@) =~= old_pieces.push(r@[r@.len() - 1]@));
            }
        } else {
            proof {
                assert(rest.skip(1) =~= s@.skip(i + 1));
                lemma_split_nonempty_len(s@.skip(i + 1), p@);
                assert(rest[0] == s@[i as int]);
                lemma_split_step(rest, p@);
            }
            let ghost old_cur = cur@;
            cur.push(s[i]);
            i = i + 1;
            proof {
                let x = split_nonempty(s@.skip(i as int), p@);
                lemma_prepend_twice(old_cur, seq![s@[i - 1]], x);
                assert(old_cur + seq![s@[i - 1]] =~= cur@);
            }
        }
    }
    proof {
        assert(s@.skip(n as int) =~= Seq::<char>::empty());
    }
    let ghost old_pieces = Seq::new(r@.len(), |k: int| r@[k]@);
    r.push(cur);
    assert(Seq::new(r@.len(), |k: int| r@[k]@) =~= old_pieces.push(r@[r@.len() - 1]@));
    r
}


/// Whether `s` begins with `p`.
pub fn starts_with_chars(s: &Vec<char>, p: &Vec<char>) -> (r: bool)
    ensures
        r == starts_with(s@, p@),
{
    assert(s@.skip(0) =~= s@);
    occurs_at(s, p, 0)
}

/// Whether `s` ends with `p`.
pub fn ends_with_chars(s: &Vec<char>, p: &Vec<char>) -> (r: bool)
    ensures
        r == ends_with(s@, p@),
{
    if p.len() > s.len() {
        return false;
    }
    let i = s.len() - p.len();
    let r = occurs_at(s, p, i);
    assert(s@.skip(i as int).take(p@.len() as int) =~= s@.skip(i as int));
    r
}

/// `s` without its leading characters equal to `c`.
pub open spec fn trim_start_char(s: Seq<char>, c: char) -> Seq<char>
    decreases s.len(),
{
    if s.len() > 0 && s[0] == c {
        trim_start_char(s.skip(1), c)
    } else {
        s
    }
}

/// `s` without its trailing characters equal to `c`.
pub open spec fn trim_end_char(s: Seq<char>, c: char) -> Seq<char>
    decreases s.len(),
{
    if s.len() > 0 && s.last() == c {
        trim_end_char(s.drop_last(), c)
    } else {
        s
    }
}

/// `s` without the characters equal to `c` at either end (`str::trim_matches`).
pub open spec fn trim_char(s: Seq<char>, c: char) -> Seq<char> {
    trim_end_char(trim_start_char(s, c), c)
}

/// `str::trim_matches` with a single character.
pub fn trim_char_vec(s: &Vec<char>, c: char) -> (r: Vec<char>)
    ensures
        r@ == trim_char(s@, c),
{
    let n = s.len();
    let mut a: usize = 0;
    assert(s@.skip(0) =~= s@);
    while a < n && s[a] == c
        invariant
            a <= n,
            n == s@.len(),
            trim_start_char(s@, c) == trim_start_char(s@.skip(a as int), c),
        decreases n - a,
    {
        assert(s@.skip(a as int).skip(1) =~= s@.skip(a + 1));
        a += 1;
    }
    let mut b: usize = n;
    assert(s@.subrange(a as int, n as int) =~= s@.skip(a as int));
    while b > a && s[b - 1] == c
        invariant
            a <= b <= n,
            n == s@.len(),
            trim_char(s@, c) == trim_end_char(s@.subrange(a as int, b as int), c),
        decreases b,
    {
        assert(s@.subrange(a as int, b as int).drop_last() =~= s@.subrange(a as int, b - 1));
        b -= 1;
    }
    let mut r: Vec<char> = Vec::new();
    let mut k: usize = a;
    while k < b
        invariant
            a <= k <= b <= n,
            n == s@.len(),
            r@ == s@.subrange(a as int, k as int),
        decreases b - k,
    {
        r.push(s[k]);
        assert(s@.subrange(a as int, k + 1) =~= s@.subrange(a as int, k as int).push(s@[k as int]));
        k += 1;
    }
    r
}

/// The ASCII digit for a value below ten.
pub open spec fn digit_char(d: nat) -> char {
    if d == 0 { '0' } else if d == 1 { '1' } else if d == 2 { '2' } else if d == 3 { '3' }
    else if d == 4 { '4' } else if d == 5 { '5' } else if d == 6 { '6' } else if d == 7 { '7' }
    else if d == 8 { '8' } else { '9' }
}

/// The decimal notation of `n`, without leading zeros (`format!("{}", n)`).
pub open spec fn decimal(n: nat) -> Seq<char>
    decreases n,
{
    if n < 10 {
        seq![digit_char(n)]
    } else {
        decimal(n / 10).push(digit_char(n % 10))
    }
}

/// The decimal notation of a signed integer (`format!("{}", i)`).
pub open spec fn signed_decimal(i: int) -> Seq<char> {
    if i < 0 {
        seq!['-'] + decimal((-i) as nat)
    } else {
        decimal(i as nat)
    }
}

/// At least two digits, zero-padded (`format!("{:02}", n)`).
pub open spec fn pad2(n: nat) -> Seq<char> {
    if n < 10 {
        seq!['0'] + decimal(n)
    } else {
        decimal(n)
    }
}

fn digit_char_exec(d: u64) -> (c: char)
    requires
        d < 10,
    ensures
        c == digit_char(d as nat),
{
    if d == 0 { '0' } else if d == 1 { '1' } else if d == 2 { '2' } else if d == 3 { '3' }
    else if d == 4 { '4' } else if d == 5 { '5' } else if d == 6 { '6' } else if d == 7 { '7' }
    else if d == 8 { '8' } else { '9' }
}

/// The decimal notation of `n`.
pub fn decimal_chars(n: u64) -> (r: Vec<char>)
    ensures
        r@ == decimal(n as nat),
    decreases n,
{
    if n < 10 {
        let mut r: Vec<char> = Vec::new();
        r.push(digit_char_exec(n));
        r
    } else {
        let mut r = decimal_chars(n / 10);
        r.push(digit_char_exec(n % 10));
        r
    }
}

/// The decimal notation of a signed integer.
pub fn signed_decimal_chars(i: i64) -> (r: Vec<char>)
    ensures
        r@ == signed_decimal(i as int),
{
    if i < 0 {
        let mag: u64 = if i == i64::MIN {
            9223372036854775808u64
        } else {
            (-i) as u64
        };
        let mut r: Vec<char> = Vec::new();
        r.push('-');
        let mut d = decimal_chars(mag);
        r.append(&mut d);
        r
    } else {
        decimal_chars(i as u64)
    }
}

/// At least two digits, zero-padded.
pub fn pad2_chars(n: u64) -> (r: Vec<char>)
    ensures
        r@ == pad2(n as nat),
{
    if n < 10 {
        let mut r: Vec<char> = Vec::new();
        r.push('0');
        let mut d = decimal_chars(n);
        r.append(&mut d);
        r
    } else {
        decimal_chars(n)
    }
}

/// An ASCII decimal digit.
pub open spec fn is_ascii_digit(c: char) -> bool {
    '0' <= c && c <= '9'
}

/// The value of a run of ASCII digits.
pub open spec fn digits_value(s: Seq<char>) -> nat
    decreases s.len(),
{
    if s.len() == 0 {
        0
    } else {
        digits_value(s.drop_last()) * 10 + ((s.last() as int) - ('0' as int)) as nat
    }
}

/// The digits of an unsigned number's text, after an optional `+`.
pub open spec fn unsigned_body(s: Seq<char>) -> Seq<char> {
    if s.len() > 0 && s[0] == '+' {
        s.skip(1)
    } else {
        s
    }
}

/// What `str::parse` gives for an unsigned integer type whose largest value is
/// `max`: an optional `+`, then at least one ASCII digit and nothing else,
/// with a value that fits.
pub open spec fn parse_unsigned(s: Seq<char>, max: nat) -> Option<nat> {
    let d = unsigned_body(s);
    if d.len() > 0 && (forall|k: int| 0 <= k < d.len() ==> is_ascii_digit(#[trigger] d[k]))
        && digits_value(d) <= max {
        Some(digits_value(d))
    } else {
        None
    }
}

proof fn lemma_digits_value_monotone(d: Seq<char>, k: int)
    requires
        0 <= k <= d.len(),
        forall|j: int| 0 <= j < d.len() ==> is_ascii_digit(#[trigger] d[j]),
    ensures
        digits_value(d.take(k)) <= digits_value(d),
    decreases d.len() - k,
{
    if k < d.len() {
        lemma_digits_value_monotone(d, k + 1);
        assert(d.take(k + 1).drop_last() =~= d.take(k));
        assert(d.take(k + 1).last() == d[k]);
    } else {
        assert(d.take(k) =~= d);
    }
}

/// `str::parse` for an unsigned integer whose largest value is `max`.
pub fn parse_unsigned_chars(s: &Vec<char>, max: u64) -> (r: Option<u64>)
    ensures
        r matches Some(v) ==> parse_unsigned(s@, max as nat) == Some(v as nat),
        r is None ==> parse_unsigned(s@, max as nat) is None,
{
    let n = s.len();
    let start: usize = if n > 0 && s[0] == '+' { 1 } else { 0 };
    let ghost d = unsigned_body(s@);
    assert(d =~= s@.skip(start as int));
    if start >= n {
        return None;
    }
    let mut v: u64 = 0;
    let mut i: usize = start;
    while i < n
        invariant
            start <= i <= n,
            n == s@.len(),
            d == s@.skip(start as int),
            d == unsigned_body(s@),
            0 < d.len(),
            forall|k: int| 0 <= k < i - start ==> is_ascii_digit(#[trigger] d[k]),
            v as nat == digits_value(d.take(i - start)),
            v <= max,
        decreases n - i,
    {
        let c = s[i];
        assert(d[i - start] == s@[i as int]);
        if !('0' <= c && c <= '9') {
            assert(!is_ascii_digit(d[i - start]));
            assert(!(forall|k: int| 0 <= k < d.len() ==> is_ascii_digit(#[trigger] d[k])));
            return None;
        }
        let dv: u64 = (c as u64) - ('0' as u64);
        assert(d.take(i - start + 1).drop_last() =~= d.take(i - start));
        assert(d.take(i - start + 1).last() == c);
        if dv > max || v > (max - dv) / 10 {
            proof {
                assert(v * 10 + dv > max) by (nonlinear_arith)
                    requires
                        dv > max || v > (max - dv) / 10,
                        v >= 0,
                ;
                assert(forall|k: int| 0 <= k < i - start + 1 ==> is_ascii_digit(#[trigger] d[k]));
                assert(digits_value(d.take(i - start + 1)) == v * 10 + dv);
                if forall|k: int| 0 <= k < d.len() ==> is_ascii_digit(#[trigger] d[k]) {
                    lemma_digits_value_monotone(d, i - start + 1);
                    assert(digits_value(d) > max);
                }
            }
            return None;
        }
        assert(v * 10 + dv <= max) by (nonlinear_arith)
            requires
                v <= (max - dv) / 10,
                dv <= max,
        ;
        v = v * 10 + dv;
        i += 1;
    }
    assert(d.take(n - start) =~= d);
    Some(v)
}


/// An owned copy of a string slice.
pub fn owned(s: &str) -> (r: String)
    ensures
        r@ == s@,
{
    s.to_string()
}

/// Whether two character vectors are equal.
pub fn chars_eq(a: &Vec<char>, b: &Vec<char>) -> (r: bool)
    ensures
        r == (a@ == b@),
{
    if a.len() != b.len() {
        return false;
    }
    let n = a.len();
    let mut i: usize = 0;
    while i < n
        invariant
            i <= n,
            n == a@.len(),
            n == b@.len(),
            forall|k: int| 0 <= k < i ==> a@[k] == b@[k],
        decreases n - i,
    {
        if a[i] != b[i] {
            return false;
        }
        i += 1;
    }
    assert(a@ =~= b@);
    true
}

/// Whether two string slices hold the same characters.
pub fn str_eq(a: &str, b: &str) -> (r: bool)
    ensures
        r == (a@ == b@),
{
    chars_eq(&chars_of(a), &chars_of(b))
}

/// The character sequences of a list of strings.
pub open spec fn views(v: Seq<String>) -> Seq<Seq<char>> {
    v.map_values(|x: String| x@)
}

/// `str::trim_matches(|c| c == '"')`: the text without the double quotes
/// at either end.
pub fn trim_quotes(input: &str) -> (r: String)
    ensures
        r@ == trim_char(input@, '"'),
{
    let v = chars_of(input);
    let t = trim_char_vec(&v, '"');
    string_from_chars(&t)
}


/// `str::split` on string slices, the pieces as owned strings.
pub fn split_str(s: &str, p: &str) -> (r: Vec<String>)
    ensures
        views(r@) == split_spec(s@, p@),
{
    let pieces = split_chars(&chars_of(s), &chars_of(p));
    let ghost sp = split_spec(s@, p@);
    let mut out: Vec<String> = Vec::new();
    let m = pieces.len();
    let mut k: usize = 0;
    while k < m
        invariant
            k <= m,
            m == pieces@.len(),
            m == sp.len(),
            forall|j: int| 0 <= j < m ==> #[trigger] pieces@[j]@ == sp[j],
            views(out@) == sp.take(k as int),
        decreases m - k,
    {
        let x = string_from_chars(&pieces[k]);
        let ghost prev = views(out@);
        out.push(x);
        assert(views(out@) =~= prev.push(pieces@[k as int]@));
        assert(sp.take(k + 1) =~= sp.take(k as int).push(sp[k as int]));
        k += 1;
    }
    assert(sp.take(m as int) =~= sp);
    out
}

/// A split has at least one piece.
pub proof fn lemma_split_len(s: Seq<char>, p: Seq<char>)
    ensures
        split_spec(s, p).len() >= 1,
{
    if p.len() > 0 {
        lemma_split_nonempty_len(s, p);
    }
}


/// The characters of `v` from `from` up to `to`.
pub fn sub_chars(v: &Vec<char>, from: usize, to: usize) -> (r: Vec<char>)
    requires
        from <= to <= v@.len(),
    ensures
        r@ == v@.subrange(from as int, to as int),
{
    let mut r: Vec<char> = Vec::new();
    let mut i: usize = from;
    while i < to
        invariant
            from <= i <= to,
            to <= v@.len(),
            r@ == v@.subrange(from as int, i as int),
        decreases to - i,
    {
        r.push(v[i]);
        assert(v@.subrange(from as int, i + 1) =~= v@.subrange(from as int, i as int).push(
            v@[i as int],
        ));
        i += 1;
    }
    r
}

/// The position of the first `c` in `s` at or after `from`, if any.
pub open spec fn first_index_from(s: Seq<char>, c: char, from: int) -> Option<int>
    decreases s.len() - from,
{
    if from < 0 || from >= s.len() {
        None
    } else if s[from] == c {
        Some(from)
    } else {
        first_index_from(s, c, from + 1)
    }
}

/// The position of the first `c` in `s`.
pub fn first_index_of(s: &Vec<char>, c: char) -> (r: Option<usize>)
    ensures
        match first_index_from(s@, c, 0) {
            Some(k) => r == Some(k as usize),
            None => r is None,
        },
{
    let n = s.len();
    let mut i: usize = 0;
    while i < n
        invariant
            i <= n,
            n == s@.len(),
            first_index_from(s@, c, 0) == first_index_from(s@, c, i as int),
        decreases n - i,
    {
        if s[i] == c {
            return Some(i);
        }
        i += 1;
    }
    None
}

} // verus!
