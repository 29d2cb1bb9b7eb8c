use minigrep::{find_matches, Argument, Config, ConfigError};

fn args(items: &[&str]) -> Vec<String> {
    items.iter().map(|s| s.to_string()).collect()
}

#[test]
fn resolve_takes_query_and_filename() {
    let config = Config::new(&args(&["query", "filename"]), None).unwrap();
    assert_eq!(config.query, "query");
    assert_eq!(config.filename, "filename");
    assert!(config.case_sensitive);
    let config = Config::new(&args(&[" q ", "", "1"]), None).unwrap();
    assert_eq!(config.query, " q ");
    assert_eq!(config.filename, "");
}

#[test]
fn resolve_without_arguments_misses_query() {
    let err = Config::new(&args(&[]), None).unwrap_err();
    assert_eq!(err, ConfigError::MissingArgument(Argument::Query));
    assert_eq!(err.message(), "Didn't get a query string");
}

#[test]
fn resolve_with_one_argument_misses_filename() {
    let err = Config::new(&args(&["query"]), Some("")).unwrap_err();
    assert_eq!(err, ConfigError::MissingArgument(Argument::Filename));
    assert_eq!(err.message(), "Didn't get a file name");
}

#[test]
fn case_flag_zero_turns_case_off() {
    let config = Config::new(&args(&["q", "f", "0"]), None).unwrap();
    assert!(!config.case_sensitive);
    let config = Config::new(&args(&["q", "f", "0"]), Some("1")).unwrap();
    assert!(!config.case_sensitive);
}

#[test]
fn case_flag_other_than_zero_turns_case_on() {
    for flag in ["1", "yes", "00", " 0", ""] {
        let config = Config::new(&args(&["q", "f", flag]), Some("")).unwrap();
        assert!(config.case_sensitive, "flag {:?}", flag);
        let config = Config::new(&args(&["q", "f", flag]), None).unwrap();
        assert!(config.case_sensitive, "flag {:?}", flag);
    }
}

#[test]
fn environment_decides_without_flag() {
    let config = Config::new(&args(&["q", "f"]), Some("")).unwrap();
    assert!(!config.case_sensitive);
    let config = Config::new(&args(&["q", "f"]), Some("0")).unwrap();
    assert!(!config.case_sensitive);
    let config = Config::new(&args(&["q", "f"]), None).unwrap();
    assert!(config.case_sensitive);
}

#[test]
fn extra_arguments_are_ignored() {
    let config = Config::new(&args(&["q", "f", "0", "1"]), None).unwrap();
    assert_eq!(config.query, "q");
    assert!(!config.case_sensitive);
}

#[test]
fn find_matches_follows_case_flag() {
    let contents = "Rust:\nsafe, fast, productive.\nDuct tape\nTrust me\nPick three.";
    let sensitive = Config::new(&args(&["rUsT", "poem.txt"]), None).unwrap();
    assert!(find_matches(&sensitive, contents).is_empty());
    let insensitive = Config::new(&args(&["rUsT", "poem.txt", "0"]), None).unwrap();
    assert_eq!(vec!["Rust:", "Trust me"], find_matches(&insensitive, contents));
}
