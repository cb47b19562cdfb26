use linera_parsing_tools::keys::{create_single_line, get_unit_of_key, split_linera_keys};

#[test]
fn unit_of_latency_and_runtime_keys() {
    assert_eq!(get_unit_of_key("block_latency"), " ms");
    assert_eq!(get_unit_of_key("server_runtime"), " ms");
    assert_eq!(get_unit_of_key("latency_count"), "");
    assert_eq!(get_unit_of_key(""), "");
}

#[test]
fn single_line_joins_with_spaces() {
    let lines = vec!["a".to_string(), "b c".to_string(), "".to_string()];
    assert_eq!(create_single_line(lines), "a b c ");
    assert_eq!(create_single_line(vec!["only".to_string()]), "only");
    assert_eq!(create_single_line(Vec::new()), "");
}

#[test]
fn linera_keys_are_sorted_into_counters_and_histograms() {
    let entries: Vec<String> = [
        "\"linera_a_sum\"",
        "\"linera_a_count\"",
        "\"linera_a_bucket\"",
        "\"linera_b\"",
        "\"other_c\"",
        "linera_d",
    ]
    .iter()
    .map(|x| x.to_string())
    .collect();
    let (counters, hists) = split_linera_keys(&entries);
    assert_eq!(counters, vec!["b", "d"]);
    assert_eq!(hists, vec!["a"]);
}
