use linera_parsing_tools::prometheus::{
    assemble_read_data, changed_steps, find_job, key_delta_endpoints, time_ordered_latest,
    RawSeries, ReadData,
};

fn samples(v: &[(usize, &str)]) -> Vec<(usize, String)> {
    v.iter().map(|(t, x)| (*t, x.to_string())).collect()
}

#[test]
fn samples_are_ordered_by_time_with_the_last_value_kept() {
    let input = samples(&[(5, "a"), (3, "b"), (5, "c"), (4, "d"), (3, "e")]);
    let out = time_ordered_latest(&input);
    assert_eq!(out, samples(&[(3, "e"), (4, "d"), (5, "c")]));
}

#[test]
fn ordering_twice_changes_nothing() {
    let input = samples(&[(9, "x"), (1, "y"), (9, "z")]);
    let once = time_ordered_latest(&input);
    assert_eq!(time_ordered_latest(&once), once);
}

#[test]
fn a_repeated_job_name_keeps_its_last_index() {
    let jobs: Vec<String> = ["j1", "j2", "j1"].iter().map(|x| x.to_string()).collect();
    assert_eq!(find_job(&jobs, &"j1".to_string()), Some(2));
    assert_eq!(find_job(&jobs, &"j2".to_string()), Some(1));
    assert_eq!(find_job(&jobs, &"j3".to_string()), None);
}

#[test]
fn series_are_assembled_per_job() {
    let jobs: Vec<String> = ["validator", "proxy"].iter().map(|x| x.to_string()).collect();
    let series = vec![
        RawSeries { job: "\"proxy\"".to_string(), samples: samples(&[(20, "1"), (10, "0")]) },
        RawSeries { job: "\"unknown\"".to_string(), samples: samples(&[(5, "7")]) },
        RawSeries { job: "\"validator\"".to_string(), samples: samples(&[(11, "2")]) },
        RawSeries { job: "\"proxy\"".to_string(), samples: samples(&[(30, "3")]) },
    ];
    let data: ReadData = assemble_read_data(&jobs, &series);
    assert_eq!(data.min_time, 5);
    assert_eq!(data.entries.len(), 2);
    assert_eq!(data.entries[0], samples(&[(11, "2")]));
    assert_eq!(data.entries[1], samples(&[(30, "3")]));
}

#[test]
fn an_empty_answer_has_no_minimum() {
    let jobs = vec!["a".to_string()];
    let data = assemble_read_data(&jobs, &Vec::new());
    assert_eq!(data.min_time, usize::MAX);
    assert!(data.entries[0].is_empty());
}

#[test]
fn changes_of_value_are_found() {
    let s = samples(&[(1, "0"), (2, "0"), (3, "1"), (4, "1"), (5, "2")]);
    assert_eq!(changed_steps(&s), vec![2, 4]);
    assert_eq!(changed_steps(&Vec::new()), Vec::<usize>::new());
}

#[test]
fn delta_endpoints_are_the_last_and_first_values() {
    let data = ReadData { min_time: 0, entries: vec![samples(&[(1, "\"1\""), (2, "\"4\"")]), Vec::new()] };
    assert_eq!(key_delta_endpoints(&data, 0), Some(("\"4\"".to_string(), "\"1\"".to_string())));
    assert_eq!(key_delta_endpoints(&data, 1), None);
}
