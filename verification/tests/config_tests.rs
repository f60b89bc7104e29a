use pattern_quest::Config;

#[test]
fn test_build_rejects_too_few_arguments() {
    let args = vec![String::from("prog"), String::from("query")];
    let result = Config::build(&args, false, false);
    assert_eq!(result.unwrap_err(), "Invalid Number Of Arguments.");
}

#[test]
fn test_build_takes_query_and_path() {
    let args = vec![
        String::from("prog"),
        String::from("needle"),
        String::from("haystack.txt"),
    ];
    let config = Config::build(&args, true, false).unwrap();
    assert_eq!(config.query, "needle");
    assert_eq!(config.file_path, "haystack.txt");
    assert!(config.case_insensitive);
    assert!(!config.invert_search);
}

#[test]
fn test_build_carries_both_flags() {
    let args = vec![
        String::from("prog"),
        String::from("q"),
        String::from("f"),
    ];
    let config = Config::build(&args, false, true).unwrap();
    assert!(!config.case_insensitive);
    assert!(config.invert_search);
}
