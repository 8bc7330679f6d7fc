use minigrep_4_study_rust::{Config, ParseError};

fn tokens(t: &[&str]) -> Vec<String> {
    t.iter().map(|s| s.to_string()).collect()
}

#[test]
fn parse_without_query_fails() {
    assert_eq!(Err(ParseError::MissingQuery), Config::new(tokens(&["prog"])));
    assert_eq!(Err(ParseError::MissingQuery), Config::new(tokens(&[])));
}

#[test]
fn parse_without_filename_fails() {
    assert_eq!(Err(ParseError::MissingFilename), Config::new(tokens(&["prog", "hello"])));
}

#[test]
fn parse_query_and_filename() {
    let config = Config::new(tokens(&["prog", "hello", "file.txt"])).unwrap();
    assert_eq!("hello", config.query);
    assert_eq!("file.txt", config.filename);
    assert!(!config.ignore_case);
}

#[test]
fn parse_short_flag() {
    let config = Config::new(tokens(&["prog", "hello", "file.txt", "-I"])).unwrap();
    assert_eq!("hello", config.query);
    assert_eq!("file.txt", config.filename);
    assert!(config.ignore_case);
}

#[test]
fn parse_long_flag_after_other_tokens() {
    let config = Config::new(tokens(&["prog", "q", "f", "x", "--ignore-case", "y"])).unwrap();
    assert!(config.ignore_case);
}

#[test]
fn parse_ignores_unknown_tokens() {
    let config = Config::new(tokens(&["prog", "q", "f", "-i", "--ignore", "I"])).unwrap();
    assert!(!config.ignore_case);
}

#[test]
fn parse_accepts_empty_query_and_filename() {
    let config = Config::new(tokens(&["prog", "", ""])).unwrap();
    assert_eq!("", config.query);
    assert_eq!("", config.filename);
}

#[test]
fn parse_flag_in_query_position_is_a_query() {
    let config = Config::new(tokens(&["prog", "-I", "f"])).unwrap();
    assert_eq!("-I", config.query);
    assert!(!config.ignore_case);
}

#[test]
fn parse_error_messages() {
    assert_eq!("No query string", ParseError::MissingQuery.message());
    assert_eq!("No filename string", ParseError::MissingFilename.message());
}
