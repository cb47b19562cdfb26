use linera_parsing_tools::text::{
    chars_eq, chars_of, decimal_chars, first_index_of, pad2_chars, parse_unsigned_chars,
    signed_decimal_chars, split_str, str_eq, string_from_chars, trim_quotes,
};

fn s(v: Vec<char>) -> String {
    v.into_iter().collect()
}

#[test]
fn split_on_a_character() {
    assert_eq!(split_str("a,b,,c", ","), vec!["a", "b", "", "c"]);
}

#[test]
fn split_on_a_longer_pattern_is_left_to_right() {
    assert_eq!(split_str("aaa", "aa"), vec!["", "a"]);
    assert_eq!(split_str("x--y--", "--"), vec!["x", "y", ""]);
}

#[test]
fn split_without_occurrence_gives_the_text() {
    assert_eq!(split_str("abc", "z"), vec!["abc"]);
    assert_eq!(split_str("", "z"), vec![""]);
}

#[test]
fn split_on_empty_pattern_gives_each_character() {
    assert_eq!(split_str("ab", ""), vec!["", "a", "b", ""]);
    assert_eq!(split_str("", ""), vec!["", ""]);
}

#[test]
fn split_agrees_with_std() {
    for (text, pat) in [("a b  c", " "), ("µs µs", "µs"), ("==x==", "="), ("abcabc", "bc")] {
        let ours = split_str(text, pat);
        let theirs: Vec<String> = text.split(pat).map(|x| x.to_string()).collect();
        assert_eq!(ours, theirs);
    }
}

#[test]
fn split_then_join_gives_the_text_back() {
    let text = "one, two,, three,";
    assert_eq!(split_str(text, ", ").join(", "), text);
}

#[test]
fn trim_quotes_removes_quotes_at_both_ends() {
    assert_eq!(trim_quotes("\"1.5\""), "1.5");
    assert_eq!(trim_quotes("\"\"x\"y\"\""), "x\"y");
    assert_eq!(trim_quotes("\"\"\""), "");
    assert_eq!(trim_quotes("plain"), "plain");
}

#[test]
fn trim_quotes_is_idempotent() {
    let once = trim_quotes("\"\"abc\"");
    assert_eq!(trim_quotes(&once), once);
}

#[test]
fn decimal_text_of_numbers() {
    assert_eq!(s(decimal_chars(0)), "0");
    assert_eq!(s(decimal_chars(1234)), "1234");
    assert_eq!(s(decimal_chars(u64::MAX)), "18446744073709551615");
    assert_eq!(s(signed_decimal_chars(-5)), "-5");
    assert_eq!(s(signed_decimal_chars(i64::MIN)), "-9223372036854775808");
    assert_eq!(s(pad2_chars(7)), "07");
    assert_eq!(s(pad2_chars(42)), "42");
    assert_eq!(s(pad2_chars(123)), "123");
}

#[test]
fn parse_unsigned_accepts_what_std_accepts() {
    for text in ["12", "+12", "-1", "", "+", "12a", "007", "18446744073709551615", "18446744073709551616"] {
        let ours = parse_unsigned_chars(&chars_of(text), u64::MAX);
        assert_eq!(ours, text.parse::<u64>().ok(), "text {text:?}");
    }
    assert_eq!(parse_unsigned_chars(&chars_of("256"), 255), None);
    assert_eq!(parse_unsigned_chars(&chars_of("255"), 255), Some(255));
}

#[test]
fn parse_of_decimal_round_trips() {
    for n in [0u64, 9, 10, 99, 65536, u64::MAX] {
        assert_eq!(parse_unsigned_chars(&decimal_chars(n), u64::MAX), Some(n));
    }
}

#[test]
fn equality_and_search() {
    assert!(str_eq("abc", "abc"));
    assert!(!str_eq("abc", "abd"));
    assert!(!chars_eq(&chars_of("ab"), &chars_of("abc")));
    assert_eq!(first_index_of(&chars_of("a=b=c"), '='), Some(1));
    assert_eq!(first_index_of(&chars_of("abc"), '='), None);
    assert_eq!(string_from_chars(&chars_of("µs")), "µs");
}
