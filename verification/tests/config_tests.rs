use minigrep::config::{Config, ConfigError};
use minigrep::run;

fn strings(parts: &[&str]) -> Vec<String> {
    parts.iter().map(|p| p.to_string()).collect()
}

#[test]
fn full_argument_list_resolves() {
    let args = strings(&["prog", "needle", "notes.txt"]);
    let config = Config::new(&args, false).unwrap();
    assert_eq!(config.query, "needle");
    assert_eq!(config.filename, "notes.txt");
    assert!(config.case_sensitive);
}

#[test]
fn toggle_disables_case_sensitivity() {
    let args = strings(&["prog", "needle", "notes.txt"]);
    let config = Config::new(&args, true).unwrap();
    assert!(!config.case_sensitive);
}

#[test]
fn extra_trailing_arguments_are_ignored() {
    let args = strings(&["prog", "needle", "notes.txt", "ignored", "also ignored"]);
    let config = Config::new(&args, false).unwrap();
    assert_eq!(config.query, "needle");
    assert_eq!(config.filename, "notes.txt");
}

#[test]
fn missing_query_is_reported() {
    let args = strings(&["prog"]);
    match Config::new(&args, false) {
        Err(ConfigError::MissingArgument(which)) => assert_eq!(which, "query string"),
        Ok(_) => panic!("resolution should have failed"),
    }
}

#[test]
fn empty_argument_list_misses_the_query() {
    let args = strings(&[]);
    match Config::new(&args, false) {
        Err(ConfigError::MissingArgument(which)) => assert_eq!(which, "query string"),
        Ok(_) => panic!("resolution should have failed"),
    }
}

#[test]
fn missing_filename_is_reported() {
    let args = strings(&["prog", "needle"]);
    match Config::new(&args, false) {
        Err(ConfigError::MissingArgument(which)) => assert_eq!(which, "file name"),
        Ok(_) => panic!("resolution should have failed"),
    }
}

#[test]
fn run_obeys_the_configured_case_policy() {
    let contents = "Duct tape\nproduct\nnothing";
    let args = strings(&["prog", "duct", "unused.txt"]);

    let strict = Config::new(&args, false).unwrap();
    assert_eq!(vec!["product"], run(&strict, contents));

    let folded = Config::new(&args, true).unwrap();
    assert_eq!(vec!["Duct tape", "product"], run(&folded, contents));
}
