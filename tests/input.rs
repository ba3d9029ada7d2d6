use with_secret::input::{one_secret, parse_secrets, ParseError};

fn pairs(list: &[(&str, &str)]) -> Vec<(String, String)> {
    list.iter().map(|(k, v)| (k.to_string(), v.to_string())).collect()
}

#[test]
fn basic_kvpair() -> Result<(), ParseError> {
    let (_, kvpair) = one_secret("FOO=bar")?;
    assert_eq!(kvpair, ("FOO".to_owned(), "bar".to_owned()));
    Ok(())
}

#[test]
fn kvpair_with_leading_whitespace() -> Result<(), ParseError> {
    let (_, kvpair) = one_secret(" FOO=bar")?;
    assert_eq!(kvpair, ("FOO".to_owned(), "bar".to_owned()));
    Ok(())
}

#[test]
fn kvpair_with_quoted_value() -> Result<(), ParseError> {
    let (_, kvpair) = one_secret("FOO=\"b\\\"ar\"")?;
    assert_eq!(kvpair, ("FOO".to_owned(), "b\"ar".to_owned()));
    let (_, kvpair) = one_secret("FOO='b\\'ar'")?;
    assert_eq!(kvpair, ("FOO".to_owned(), "b'ar".to_owned()));
    Ok(())
}

#[test]
fn bash_exports() -> Result<(), ParseError> {
    let (tail, kvpair) = one_secret("export FOO = \"bar\"\n")?;
    assert_eq!(kvpair, ("FOO".to_owned(), "bar".to_owned()));
    assert_eq!(tail, "");
    Ok(())
}

#[test]
fn many_unquoted_secrets() -> Result<(), ParseError> {
    let secrets = parse_secrets("FOO = bar\nBAZ = quux")?;
    assert_eq!(
        vec![
            ("FOO".to_owned(), "bar".to_owned()),
            ("BAZ".to_owned(), "quux".to_owned())
        ],
        secrets
    );
    Ok(())
}

#[test]
fn many_quoted_secrets() -> Result<(), ParseError> {
    let secrets = parse_secrets("export FOO = \"bar\"\nexport BAZ = \"quux\"")?;
    assert_eq!(
        vec![
            ("FOO".to_owned(), "bar".to_owned()),
            ("BAZ".to_owned(), "quux".to_owned())
        ],
        secrets
    );
    Ok(())
}

#[test]
fn parse_error() {
    let res = parse_secrets("export FOO = \"bar\"\nexport ");
    assert!(matches!(res, Err(_)));
    let res = parse_secrets("export FOO = \"bar");
    assert!(matches!(res, Err(_)));
    let res = parse_secrets("FOO = bar baz");
    assert!(matches!(res, Err(_)));
}

#[test]
fn single_entry_whole_text() {
    assert_eq!(parse_secrets("FOO=bar"), Ok(pairs(&[("FOO", "bar")])));
    assert_eq!(parse_secrets(" FOO=bar"), Ok(pairs(&[("FOO", "bar")])));
}

#[test]
fn quoted_values_through_whole_parse() {
    assert_eq!(parse_secrets("FOO=\"b\\\"ar\""), Ok(pairs(&[("FOO", "b\"ar")])));
    assert_eq!(parse_secrets("FOO='b\\'ar'"), Ok(pairs(&[("FOO", "b'ar")])));
    assert_eq!(parse_secrets("export FOO = \"bar\"\n"), Ok(pairs(&[("FOO", "bar")])));
}

#[test]
fn trailing_word_is_trailing_input() {
    assert_eq!(
        parse_secrets("FOO = bar baz"),
        Err(ParseError::TrailingInput(" baz".to_string()))
    );
}

#[test]
fn dangling_export_is_trailing_input() {
    assert_eq!(
        parse_secrets("export FOO = \"bar\"\nexport "),
        Err(ParseError::TrailingInput("export ".to_string()))
    );
}

#[test]
fn unterminated_quote_is_grammar_failure() {
    assert_eq!(
        parse_secrets("export FOO = \"bar"),
        Err(ParseError::GrammarFailure("\"bar".to_string()))
    );
}

#[test]
fn missing_equal_sign_is_grammar_failure() {
    assert_eq!(
        parse_secrets("FOO bar"),
        Err(ParseError::GrammarFailure("bar".to_string()))
    );
    assert_eq!(
        one_secret("FOO bar"),
        Err(ParseError::GrammarFailure("bar".to_string()))
    );
}

#[test]
fn empty_text_is_grammar_failure() {
    assert_eq!(parse_secrets(""), Err(ParseError::GrammarFailure(String::new())));
    assert_eq!(parse_secrets(" \n"), Err(ParseError::GrammarFailure(String::new())));
}

#[test]
fn empty_key_is_accepted() {
    assert_eq!(parse_secrets("=value"), Ok(pairs(&[("", "value")])));
}

#[test]
fn empty_quotes_are_refused() {
    assert_eq!(
        parse_secrets("FOO=\"\""),
        Err(ParseError::GrammarFailure("\"\"".to_string()))
    );
    assert_eq!(
        parse_secrets("FOO=''"),
        Err(ParseError::GrammarFailure("''".to_string()))
    );
}

#[test]
fn backslash_before_other_character_in_quotes_is_refused() {
    assert_eq!(
        parse_secrets("FOO=\"a\\nb\""),
        Err(ParseError::GrammarFailure("\"a\\nb\"".to_string()))
    );
}

#[test]
fn bare_value_unescapes_backslashes() {
    assert_eq!(parse_secrets("FOO=a\\\\b"), Ok(pairs(&[("FOO", "a\\b")])));
    assert_eq!(parse_secrets("FOO=a\\\\\\\\b"), Ok(pairs(&[("FOO", "a\\\\b")])));
    assert_eq!(parse_secrets("FOO=a\\b"), Ok(pairs(&[("FOO", "a\\b")])));
}

#[test]
fn escaped_quotes_round_trip() {
    assert_eq!(
        parse_secrets("MSG=\"say \\\"hi\\\" to them\""),
        Ok(pairs(&[("MSG", "say \"hi\" to them")]))
    );
    assert_eq!(
        parse_secrets("MSG='it\\'s'"),
        Ok(pairs(&[("MSG", "it's")]))
    );
}

#[test]
fn bare_value_keeps_tabs_and_equal_signs() {
    assert_eq!(parse_secrets("FOO=a\tb=c"), Ok(pairs(&[("FOO", "a\tb=c")])));
}

#[test]
fn crlf_line_ends() {
    assert_eq!(
        parse_secrets("A=1\r\nB=2\r\n"),
        Ok(pairs(&[("A", "1"), ("B", "2")]))
    );
}

#[test]
fn blank_lines_and_indentation_between_entries() {
    assert_eq!(
        parse_secrets("\n\n  A=1\n\n\t B='two'\n"),
        Ok(pairs(&[("A", "1"), ("B", "two")]))
    );
}

#[test]
fn duplicate_keys_kept_in_order() {
    assert_eq!(
        parse_secrets("A=1\nA=2"),
        Ok(pairs(&[("A", "1"), ("A", "2")]))
    );
}

#[test]
fn export_without_blank_is_part_of_key() {
    assert_eq!(parse_secrets("exportFOO=1"), Ok(pairs(&[("exportFOO", "1")])));
    assert_eq!(parse_secrets("export=1"), Ok(pairs(&[("export", "1")])));
}

#[test]
fn trailing_blank_is_trailing_input() {
    assert_eq!(
        parse_secrets("FOO=bar \n"),
        Err(ParseError::TrailingInput(" \n".to_string()))
    );
}

#[test]
fn one_secret_returns_rest() {
    let (tail, kvpair) = one_secret("A=1\nB=2").unwrap();
    assert_eq!(kvpair, ("A".to_string(), "1".to_string()));
    assert_eq!(tail, "B=2");
}

#[test]
fn non_ascii_values() {
    assert_eq!(
        parse_secrets("K=héllo\nL=\"wörld ü\""),
        Ok(pairs(&[("K", "héllo"), ("L", "wörld ü")]))
    );
}

#[test]
fn non_ascii_key_is_refused() {
    assert_eq!(
        parse_secrets("KÉY=1"),
        Err(ParseError::GrammarFailure("ÉY=1".to_string()))
    );
}

#[test]
fn keys_never_hold_separators() {
    let parsed = parse_secrets("A_1 = x\nexport B2='y z'\nc=\"q\"").unwrap();
    assert_eq!(parsed.len(), 3);
    for (key, _) in &parsed {
        assert!(key.chars().all(|c| c.is_ascii_alphanumeric() || c == '_'));
    }
}

#[test]
fn one_pair_per_entry_line() {
    let parsed = parse_secrets("A=1\nexport B = \"2\"\nC='3'\n").unwrap();
    assert_eq!(parsed, pairs(&[("A", "1"), ("B", "2"), ("C", "3")]));
}
