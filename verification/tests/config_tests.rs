use linera_parsing_tools::config::prometheus_job_names;

#[test]
fn job_names_of_a_prometheus_configuration() {
    let text = "global:\n  scrape_interval: 1s\nscrape_configs:\n  - job_name: validator\n    static_configs: []\n  - job_name: \"proxy\"\n";
    assert_eq!(prometheus_job_names(text), Some(vec!["validator".to_string(), "proxy".to_string()]));
}

#[test]
fn missing_sections_and_bad_names() {
    assert_eq!(prometheus_job_names("global: {}\n"), Some(Vec::new()));
    assert_eq!(prometheus_job_names("scrape_configs:\n  - job_name: 12\n"), None);
    assert_eq!(prometheus_job_names(""), None);
    assert_eq!(prometheus_job_names("a: [\n"), None);
}
