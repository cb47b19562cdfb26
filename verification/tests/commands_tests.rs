use linera_parsing_tools::commands::{
    after_run, file_name_attempt, get_environments, kill_match, nature_of, plan_invocation,
    split_command, transpose_nonempty, EnvError, EnvironmentList, Nature, RunDecision,
};

fn strings(v: &[&str]) -> Vec<String> {
    v.iter().map(|x| x.to_string()).collect()
}

fn lists() -> Vec<EnvironmentList> {
    vec![
        EnvironmentList { command: "a".to_string(), environments: strings(&["export X=1", "export Y=p=q"]) },
        EnvironmentList { command: "b".to_string(), environments: strings(&["export Z=9"]) },
        EnvironmentList { command: "a".to_string(), environments: strings(&["export X=2", "export E="]) },
    ]
}

#[test]
fn environments_of_a_command() {
    let mut env = get_environments(&lists(), &"a".to_string()).ok().unwrap();
    env.sort();
    assert_eq!(
        env,
        vec![
            ("E".to_string(), "".to_string()),
            ("X".to_string(), "2".to_string()),
            ("Y".to_string(), "p=q".to_string()),
        ]
    );
    assert!(get_environments(&lists(), &"c".to_string()).ok().unwrap().is_empty());
}

#[test]
fn environment_errors() {
    let bad = vec![EnvironmentList { command: "a".to_string(), environments: strings(&["set X=1"]) }];
    match get_environments(&bad, &"a".to_string()) {
        Err(EnvError::NotAnExport(e)) => assert_eq!(e, "set X=1"),
        _ => panic!("expected a refused entry"),
    }
    let bad = vec![EnvironmentList { command: "a".to_string(), environments: strings(&["export X1", "set"]) }];
    match get_environments(&bad, &"a".to_string()) {
        Err(EnvError::NoAssignment(e)) => assert_eq!(e, "export X1"),
        _ => panic!("expected a missing assignment"),
    }
}

#[test]
fn command_lines() {
    assert_eq!(split_command("prog -a  b"), ("prog".to_string(), strings(&["-a", "", "b"])));
    assert_eq!(split_command(""), ("".to_string(), Vec::<String>::new()));
    let inv = plan_invocation("server --port 8 &");
    assert!(inv.background);
    assert_eq!(inv.env_key, "server --port 8");
    assert_eq!(inv.program, "server");
    assert_eq!(inv.args, strings(&["--port", "8"]));
    let inv = plan_invocation("client run");
    assert!(!inv.background);
    assert_eq!(inv.env_key, "client");
    assert_eq!(inv.args, strings(&["run"]));
}

#[test]
fn process_names_to_kill() {
    let names = strings(&["linera", "proxy", "linera"]);
    assert_eq!(kill_match("linera", &names), Some(2));
    assert_eq!(kill_match("bash", &names), None);
}

#[test]
fn file_name_attempts() {
    assert_eq!(file_name_attempt("OUT.out", 0), "OUT.out");
    assert_eq!(file_name_attempt("OUT.out", 12), "OUT.out_V12");
}

#[test]
fn runs_become_metric_columns() {
    let rows = vec![vec!["a0", "b0", "c0"], vec!["a1", "b1", "c1", "d1"]];
    let counts = vec![vec![1, 0, 2], vec![0, 0, 1, 5]];
    let cols = transpose_nonempty(rows, &counts);
    assert_eq!(cols, vec![vec!["a0", "a1"], vec!["c0", "c1"]]);
}

#[test]
fn natures() {
    assert_eq!(nature_of("  execute_command\n"), Some(Nature::ExecuteCommand));
    assert_eq!(nature_of("kill_processes"), Some(Nature::KillProcesses));
    assert_eq!(nature_of("kill"), None);
}

#[test]
fn decisions_after_a_run() {
    assert_eq!(after_run(0, 1, true, false), (1, RunDecision::StopAtFailure));
    assert_eq!(after_run(2, 3, false, true), (3, RunDecision::Continue));
    assert_eq!(after_run(2, 0, false, true), (2, RunDecision::StopAtSuccess));
    assert_eq!(after_run(2, -1, true, false), (2, RunDecision::Continue));
}
