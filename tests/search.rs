use minigrep_4_study_rust::{matching_lines, search, search_folded, search_ignore_case, Config};

#[test]
fn should_be_match() {
    let contents = "\
other lines
hello world
HELLO WORLD
other lines
";
    let expected = vec!["hello world"];
    assert_eq!(expected, search("hello", contents));
}

#[test]
fn should_be_ignore_case_match() {
    let contents = "\
other lines
hello world
HELLO WORLD
other lines
";
    let expected = vec!["hello world", "HELLO WORLD"];
    assert_eq!(expected, search_ignore_case("hello", contents));
}

#[test]
fn search_finds_substring_inside_line() {
    let matches = search("hello", "other string hello other string");
    assert_eq!(vec!["other string hello other string"], matches);
}

#[test]
fn search_keeps_order_of_lines() {
    let contents = "b1\na\nb2\nc\nb3";
    assert_eq!(vec!["b1", "b2", "b3"], search("b", contents));
}

#[test]
fn search_is_case_sensitive() {
    assert_eq!(Vec::<&str>::new(), search("Hello", "hello\nHELLO\n"));
}

#[test]
fn search_with_empty_query_returns_every_line() {
    let contents = "one\n\ntwo\nthree";
    assert_eq!(vec!["one", "", "two", "three"], search("", contents));
}

#[test]
fn search_in_empty_content_finds_nothing() {
    assert_eq!(Vec::<&str>::new(), search("x", ""));
    assert_eq!(Vec::<&str>::new(), search_ignore_case("x", ""));
}

#[test]
fn search_without_match_is_empty() {
    assert_eq!(Vec::<&str>::new(), search("zzz", "abc\ndef\n"));
}

#[test]
fn search_drops_line_endings() {
    let contents = "ab\r\ncab\nxy\n";
    assert_eq!(vec!["ab", "cab"], search("ab", contents));
}

#[test]
fn search_does_not_match_across_lines() {
    assert_eq!(Vec::<&str>::new(), search("ab", "a\nb\n"));
}

#[test]
fn search_ignore_case_folds_query_too() {
    let contents = "Rust\nrusty\nTRUST\nother";
    assert_eq!(vec!["Rust", "rusty", "TRUST"], search_ignore_case("RuSt", contents));
}

#[test]
fn search_folded_selects_by_key() {
    let lines = vec!["Alpha", "beta", "GAMMA"];
    let keys = vec!["alpha".to_string(), "beta".to_string(), "gamma".to_string()];
    assert_eq!(vec!["GAMMA"], search_folded("gam", &lines, &keys));
    assert_eq!(vec!["Alpha", "beta", "GAMMA"], search_folded("a", &lines, &keys));
    assert_eq!(Vec::<&str>::new(), search_folded("A", &lines, &keys));
}

#[test]
fn matching_lines_follows_config() {
    let contents = "hello world\nHELLO WORLD\n";
    let exact = Config { query: "hello".to_string(), filename: "f".to_string(), ignore_case: false };
    let folded = Config { query: "hello".to_string(), filename: "f".to_string(), ignore_case: true };
    assert_eq!(vec!["hello world"], matching_lines(&exact, contents));
    assert_eq!(vec!["hello world", "HELLO WORLD"], matching_lines(&folded, contents));
}

#[test]
fn search_splits_multibyte_text() {
    let contents = "café crème\nnaïve\r\nÉcole\nplain";
    assert_eq!(vec!["café crème", "naïve"], search("é", contents).into_iter().chain(search("ï", contents)).collect::<Vec<_>>());
    assert_eq!(vec!["café crème", "École"], search_ignore_case("é", contents));
}

#[test]
fn search_keeps_lone_carriage_return_at_end() {
    assert_eq!(vec!["a\r"], search("a", "a\r"));
    assert_eq!(vec!["a\rb"], search("a", "a\rb\n"));
}

#[test]
fn search_keeps_empty_lines_between_newlines() {
    assert_eq!(vec!["", "", ""], search("", "\n\n\r\n"));
    assert_eq!(vec!["x", ""], search("", "x\n\n"));
}
