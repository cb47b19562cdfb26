use linera_parsing_tools::analysis::{
    contains_key, data_dropping, dropping_start_index, first_used_index, get_bold,
    is_supported_format, select_metric_keys,
};

fn key(g: &str, n: &str) -> (String, String) {
    (g.to_string(), n.to_string())
}

#[test]
fn bold_markers() {
    assert_eq!(get_bold("GitHub"), "**");
    assert_eq!(get_bold("Slack"), "*");
    assert!(is_supported_format("Slack"));
    assert!(!is_supported_format("slack"));
}

#[test]
fn dropping_methods() {
    assert_eq!(dropping_start_index(10, "half"), Some(5));
    assert_eq!(dropping_start_index(7, "half"), Some(3));
    assert_eq!(dropping_start_index(10, "skip3"), Some(3));
    assert_eq!(dropping_start_index(10, "skip+4"), Some(4));
    assert_eq!(dropping_start_index(10, "skip"), None);
    assert_eq!(dropping_start_index(10, "skipx"), None);
    assert_eq!(dropping_start_index(10, "all"), None);
    assert_eq!(first_used_index(10, "skip2"), 2);
}

#[test]
fn dropping_keeps_the_tail() {
    assert_eq!(data_dropping(vec![1, 2, 3, 4, 5], "half"), vec![3, 4, 5]);
    assert_eq!(data_dropping(vec![1, 2, 3], "skip1"), vec![2, 3]);
    assert_eq!(data_dropping(vec![1, 2, 3], "skip0"), vec![1, 2, 3]);
    assert_eq!(data_dropping(vec![1.5f64, 2.5], "skip2"), Vec::<f64>::new());
}

#[test]
fn shared_keys_are_in_every_run() {
    let runs = vec![
        vec![key("g", "a"), key("g", "b"), key("g", "a"), key("h", "c")],
        vec![key("g", "a"), key("h", "c")],
        vec![key("h", "c"), key("g", "a"), key("g", "b2")],
    ];
    let mut shared = select_metric_keys(&runs, true);
    shared.sort();
    assert_eq!(shared, vec![key("g", "a"), key("h", "c")]);
}

#[test]
fn exclusive_keys_are_in_no_other_run() {
    let runs = vec![vec![key("g", "a"), key("g", "b"), key("g", "b")], vec![key("g", "a")]];
    assert_eq!(select_metric_keys(&runs, false), vec![key("g", "b")]);
}

#[test]
fn a_single_run_keeps_all_its_keys_either_way() {
    let runs = vec![vec![key("g", "a"), key("g", "b"), key("g", "a")]];
    assert_eq!(select_metric_keys(&runs, true), select_metric_keys(&runs, false));
    assert_eq!(select_metric_keys(&runs, true).len(), 2);
}

#[test]
fn key_membership() {
    let keys = vec![key("g", "a"), key("h", "b")];
    assert!(contains_key(&keys, &key("h", "b")));
    assert!(!contains_key(&keys, &key("h", "a")));
}
