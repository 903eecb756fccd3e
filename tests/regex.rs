use arg_lex::{compile, Re};

#[test]
fn compiles_and_keeps_the_pattern() {
    let re = Re::new("a+").ok().unwrap();
    assert_eq!(re.pattern(), "a+");
}

#[test]
fn invalid_pattern_echoes_the_input() {
    let err = Re::new("(unclosed").err().unwrap();
    assert_eq!(err.pattern, "(unclosed");
    assert!(!err.message.is_empty());
}

#[test]
fn pattern_over_the_size_limit_is_refused() {
    let err = compile("\\w{50}").err().unwrap();
    assert_eq!(err.pattern, "\\w{50}");
}

#[test]
fn find_returns_the_first_match() {
    let re = Re::new("[0-9]+").ok().unwrap();
    assert_eq!(re.find("ab123cd45"), Some("123".to_string()));
    assert_eq!(re.find("abc"), None);
}

#[test]
fn is_match_in_multi_line_mode() {
    let re = Re::new("^b$").ok().unwrap();
    assert!(re.is_match("a\nb\nc"));
    assert!(!re.is_match("abc"));
}

#[test]
fn replace_first_match_only() {
    let re = Re::new("a+").ok().unwrap();
    assert_eq!(re.replace("baaacaa", "X"), "bXcaa");
    assert_eq!(re.replace("xyz", "X"), "xyz");
}

#[test]
fn replace_expands_named_groups() {
    let re = Re::new("(?P<d>[0-9]+)").ok().unwrap();
    assert_eq!(re.replace("x12y", "<$d>"), "x<12>y");
}
