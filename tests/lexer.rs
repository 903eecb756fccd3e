use arg_lex::rules::{match_all, RULE_COUNT};
use arg_lex::{tokenize, tokenize_skipping_whitespace, Token, TokenKind};

fn shape(tokens: &[Token]) -> Vec<(TokenKind, String, usize, usize)> {
    tokens
        .iter()
        .map(|t| (t.kind, t.value.clone(), t.start, t.end))
        .collect()
}

fn kinds(tokens: &[Token]) -> Vec<TokenKind> {
    tokens.iter().map(|t| t.kind).collect()
}

fn assert_tiles(input: &str) {
    let tokens = tokenize(input);
    let mut at = 0usize;
    let mut text = String::new();
    for t in &tokens {
        assert_eq!(t.start, at, "gap or overlap at {} in {:?}", at, input);
        assert!(t.end > t.start);
        assert_eq!(&input[t.start..t.end], t.value);
        text.push_str(&t.value);
        at = t.end;
    }
    assert_eq!(at, input.len());
    assert_eq!(text, input);
}

#[test]
fn empty_input_gives_no_tokens() {
    assert!(tokenize("").is_empty());
    assert!(tokenize_skipping_whitespace("").is_empty());
}

#[test]
fn greater_eq_is_one_token() {
    let tokens = tokenize(">=");
    assert_eq!(shape(&tokens), vec![(TokenKind::GreaterEq, ">=".to_string(), 0, 2)]);
}

#[test]
fn escaped_eq_is_one_literal() {
    let tokens = tokenize("\\==");
    assert_eq!(shape(&tokens), vec![(TokenKind::Literal, "\\==".to_string(), 0, 3)]);
}

#[test]
fn unmatched_char_is_one_error() {
    let tokens = tokenize("#");
    assert_eq!(shape(&tokens), vec![(TokenKind::Error, "#".to_string(), 0, 1)]);
}

#[test]
fn composite_expression_skipping_whitespace() {
    let input = "$x >= 5 && %1 != 'a'";
    let tokens = tokenize_skipping_whitespace(input);
    assert_eq!(
        shape(&tokens),
        vec![
            (TokenKind::Var, "$x".to_string(), 0, 2),
            (TokenKind::GreaterEq, ">=".to_string(), 3, 5),
            (TokenKind::Literal, "5".to_string(), 6, 7),
            (TokenKind::And, "&&".to_string(), 8, 10),
            (TokenKind::Counter, "%1".to_string(), 11, 13),
            (TokenKind::NotEq, "!=".to_string(), 14, 16),
            (TokenKind::Literal, "'a'".to_string(), 17, 20),
        ]
    );
    for t in &tokens {
        assert_eq!(&input[t.start..t.end], t.value);
    }
}

#[test]
fn composite_expression_with_whitespace() {
    let input = "$x >= 5 && %1 != 'a'";
    let tokens = tokenize(input);
    assert_eq!(
        kinds(&tokens),
        vec![
            TokenKind::Var,
            TokenKind::Whitespace,
            TokenKind::GreaterEq,
            TokenKind::Whitespace,
            TokenKind::Literal,
            TokenKind::Whitespace,
            TokenKind::And,
            TokenKind::Whitespace,
            TokenKind::Counter,
            TokenKind::Whitespace,
            TokenKind::NotEq,
            TokenKind::Whitespace,
            TokenKind::Literal,
        ]
    );
    assert_tiles(input);
}

#[test]
fn regex_literal_with_escaped_slash() {
    let tokens = tokenize("/a\\/b/");
    assert_eq!(shape(&tokens), vec![(TokenKind::Regex, "/a\\/b/".to_string(), 0, 6)]);
}

#[test]
fn tokens_tile_the_input() {
    for input in [
        "",
        " ",
        "$x >= 5 && %1 != 'a'",
        "(%1, $name) || !",
        "'unterminated",
        "#@ ~",
        "'é' /ü/ ß",
        "\\= \\|| \\( true",
        "\t\n\x0C x",
    ] {
        assert_tiles(input);
    }
}

#[test]
fn skipping_whitespace_removes_only_whitespace() {
    let input = " $a\t<=\n'b c' ";
    let all = tokenize(input);
    let skipped = tokenize_skipping_whitespace(input);
    let expected: Vec<_> = shape(&all)
        .into_iter()
        .filter(|t| t.0 != TokenKind::Whitespace)
        .collect();
    assert_eq!(shape(&skipped), expected);
    let dropped: String = all
        .iter()
        .filter(|t| t.kind == TokenKind::Whitespace)
        .map(|t| t.value.clone())
        .collect();
    assert!(dropped.chars().all(|c| c == ' ' || c == '\t' || c == '\n'));
    let kept: String = skipped.iter().map(|t| t.value.clone()).collect();
    assert_eq!(kept, "$a<='b c'");
}

#[test]
fn tokenizing_twice_gives_the_same_stream() {
    let input = "(%1 == 'x\\'y') && /r\\/e/ || $v < 3";
    assert_eq!(shape(&tokenize(input)), shape(&tokenize(input)));
    assert_eq!(
        shape(&tokenize_skipping_whitespace(input)),
        shape(&tokenize_skipping_whitespace(input))
    );
}

#[test]
fn every_kind_is_recognised() {
    let input = "%c1 $v ( ) , == != >= <= < > || && 42 'q' \\&& /r/ True false";
    let got: Vec<_> = tokenize_skipping_whitespace(input)
        .iter()
        .map(|t| (t.kind, t.value.clone()))
        .collect();
    let want = vec![
        (TokenKind::Counter, "%c1"),
        (TokenKind::Var, "$v"),
        (TokenKind::GroupOpen, "("),
        (TokenKind::GroupClose, ")"),
        (TokenKind::ArgSeparator, ","),
        (TokenKind::Eq, "=="),
        (TokenKind::NotEq, "!="),
        (TokenKind::GreaterEq, ">="),
        (TokenKind::LessEq, "<="),
        (TokenKind::Less, "<"),
        (TokenKind::Greater, ">"),
        (TokenKind::Or, "||"),
        (TokenKind::And, "&&"),
        (TokenKind::Literal, "42"),
        (TokenKind::Literal, "'q'"),
        (TokenKind::Literal, "\\&&"),
        (TokenKind::Regex, "/r/"),
        (TokenKind::Bool, "True"),
        (TokenKind::Bool, "false"),
    ];
    let want: Vec<_> = want.into_iter().map(|(k, v)| (k, v.to_string())).collect();
    assert_eq!(got, want);
}

#[test]
fn every_escape_collapses_to_literal() {
    for esc in ["\\(", "\\)", "\\==", "\\!=", "\\>=", "\\<=", "\\<", "\\>", "\\||", "\\&&"] {
        let tokens = tokenize(esc);
        assert_eq!(
            shape(&tokens),
            vec![(TokenKind::Literal, esc.to_string(), 0, esc.len())]
        );
    }
}

#[test]
fn escape_takes_the_longest_operator() {
    let tokens = tokenize("\\<=5");
    assert_eq!(
        shape(&tokens),
        vec![
            (TokenKind::Literal, "\\<=".to_string(), 0, 3),
            (TokenKind::Literal, "5".to_string(), 3, 4),
        ]
    );
}

#[test]
fn lone_backslash_and_equals_are_errors() {
    let tokens = tokenize("\\=");
    assert_eq!(
        shape(&tokens),
        vec![
            (TokenKind::Error, "\\".to_string(), 0, 1),
            (TokenKind::Error, "=".to_string(), 1, 2),
        ]
    );
}

#[test]
fn less_then_equals_sign() {
    let tokens = tokenize("<=<");
    assert_eq!(
        shape(&tokens),
        vec![
            (TokenKind::LessEq, "<=".to_string(), 0, 2),
            (TokenKind::Less, "<".to_string(), 2, 3),
        ]
    );
}

#[test]
fn quoted_string_with_escaped_quote() {
    let tokens = tokenize("'it\\'s'x");
    assert_eq!(
        shape(&tokens),
        vec![
            (TokenKind::Literal, "'it\\'s'".to_string(), 0, 7),
            (TokenKind::Error, "x".to_string(), 7, 8),
        ]
    );
}

#[test]
fn quoted_string_stops_at_first_plain_quote() {
    let tokens = tokenize("'a'b'");
    assert_eq!(
        shape(&tokens),
        vec![
            (TokenKind::Literal, "'a'".to_string(), 0, 3),
            (TokenKind::Error, "b".to_string(), 3, 4),
            (TokenKind::Error, "'".to_string(), 4, 5),
        ]
    );
}

#[test]
fn empty_quotes_and_trailing_backslash() {
    assert_eq!(shape(&tokenize("''")), vec![(TokenKind::Literal, "''".to_string(), 0, 2)]);
    assert_eq!(
        shape(&tokenize("'\\'")),
        vec![(TokenKind::Literal, "'\\'".to_string(), 0, 3)]
    );
}

#[test]
fn unterminated_quote_falls_back_to_errors() {
    let tokens = tokenize("'ab");
    assert_eq!(
        kinds(&tokens),
        vec![TokenKind::Error, TokenKind::Error, TokenKind::Error]
    );
}

#[test]
fn bare_sigils_are_errors() {
    assert_eq!(
        shape(&tokenize("%$")),
        vec![
            (TokenKind::Error, "%".to_string(), 0, 1),
            (TokenKind::Error, "$".to_string(), 1, 2),
        ]
    );
}

#[test]
fn keyword_prefix_of_a_word() {
    assert_eq!(
        shape(&tokenize("truex")),
        vec![
            (TokenKind::Bool, "true".to_string(), 0, 4),
            (TokenKind::Error, "x".to_string(), 4, 5),
        ]
    );
}

#[test]
fn offsets_are_utf8_bytes() {
    let tokens = tokenize("é'ü'");
    assert_eq!(
        shape(&tokens),
        vec![
            (TokenKind::Error, "é".to_string(), 0, 2),
            (TokenKind::Literal, "'ü'".to_string(), 2, 6),
        ]
    );
}

#[test]
fn whitespace_run_is_one_token() {
    assert_eq!(
        shape(&tokenize(" \t\n\x0C")),
        vec![(TokenKind::Whitespace, " \t\n\x0C".to_string(), 0, 4)]
    );
}

#[test]
fn kind_names_are_stable() {
    assert_eq!(TokenKind::GreaterEq.name(), "GreaterEq");
    assert_eq!(TokenKind::Error.name(), "Error");
    assert_eq!(TokenKind::ArgSeparator.name(), "ArgSeparator");
}

#[test]
fn rule_table_reports_every_match() {
    let s: Vec<char> = "\\<=1".chars().collect();
    let at0 = match_all(&s, 0);
    assert_eq!(at0.len(), RULE_COUNT);
    assert_eq!(at0.iter().filter(|n| **n > 0).count(), 1);
    assert_eq!(*at0.iter().max().unwrap(), 3);
    let at1 = match_all(&s, 1);
    let mut lens: Vec<usize> = at1.into_iter().filter(|n| *n > 0).collect();
    lens.sort();
    assert_eq!(lens, vec![1, 2]);
}
