use yarn_lock::parser::parse;
use yarn_lock::parser::version_match;
use yarn_lock::parser::Error;
use yarn_lock::parser::Value;

#[test]
fn test_version_match() {
    let s = "yarn lockfile v1";
    assert_eq!(Some(1), version_match(s.as_bytes()));
}

#[test]
fn test_version_match_negative() {
    let s = "yarn lockfile v";
    assert_eq!(None, version_match(s.as_bytes()));
}

#[test]
fn version_match_trims_whitespace() {
    assert_eq!(Some(1), version_match(" yarn lockfile v1 ".as_bytes()));
}

#[test]
fn version_match_trims_unicode_whitespace() {
    // no-break space before, ideographic space after: both carry the
    // Unicode White_Space property and are trimmed away
    assert_eq!(Some(1), version_match("\u{a0}yarn lockfile v1\u{3000}".as_bytes()));
    assert_eq!(Some(2), version_match("\u{2028}yarn lockfile v2".as_bytes()));
}

#[test]
fn version_match_rejects_trailing_text() {
    assert_eq!(None, version_match("yarn lockfile v1.2".as_bytes()));
}

#[test]
fn test_parse_err() {
    fn foo() -> Result<(), Error> {
        let pe = Error { line: 1, col: 1, reason: "test" };
        Err(pe)
    }

    fn bar() -> Result<(), Error> {
        foo()?;
        Ok(())
    }

    let pe = Error { line: 1, col: 1, reason: "test" };
    println!("Parsing error[{}:{}]: {}", pe.line, pe.col, pe.reason);

    println!("{:?}", bar());
}

#[test]
fn parse_empty_input_is_empty_object() {
    assert_eq!(Value::Object(vec![]), parse(b"").unwrap());
}

#[test]
fn multi_key_sharing() {
    let v = parse("\"a\", \"b\": 1\n".as_bytes()).unwrap();
    let expected = Value::Object(vec![
        ("a".to_string(), Value::Number(1)),
        ("b".to_string(), Value::Number(1)),
    ]);
    assert_eq!(expected, v);
}

#[test]
fn nesting_by_indentation() {
    let v = parse("foo:\n  bar: 1\n  baz: 2\n".as_bytes()).unwrap();
    let expected = Value::Object(vec![(
        "foo".to_string(),
        Value::Object(vec![
            ("bar".to_string(), Value::Number(1)),
            ("baz".to_string(), Value::Number(2)),
        ]),
    )]);
    assert_eq!(expected, v);
}

#[test]
fn nested_entry_end_to_end() {
    let v = parse("\"@colors/colors@1.5.0\":\n  version \"1.5.0\"\n".as_bytes()).unwrap();
    let expected = Value::Object(vec![(
        "@colors/colors@1.5.0".to_string(),
        Value::Object(vec![("version".to_string(), Value::Str("1.5.0".to_string()))]),
    )]);
    assert_eq!(expected, v);
}

#[test]
fn dedent_closes_nested_objects() {
    let v = parse("a:\n  b: 1\nc: 2\n".as_bytes()).unwrap();
    let expected = Value::Object(vec![
        (
            "a".to_string(),
            Value::Object(vec![("b".to_string(), Value::Number(1))]),
        ),
        ("c".to_string(), Value::Number(2)),
    ]);
    assert_eq!(expected, v);
}

#[test]
fn three_space_indent_fails() {
    let e = parse("   x: 1".as_bytes()).unwrap_err();
    assert_eq!("Invalid number of spaces", e.reason);
}

#[test]
fn scalar_value_needs_no_colon() {
    let v = parse("x 1".as_bytes()).unwrap();
    assert_eq!(Value::Object(vec![("x".to_string(), Value::Number(1))]), v);
}

#[test]
fn unexpected_value_token_without_colon_fails() {
    let e = parse("a !\n".as_bytes()).unwrap_err();
    assert_eq!("Unexpected token Invalid", e.reason);
}

#[test]
fn version_one_header_is_accepted() {
    let v = parse("# yarn lockfile v1\nname ok\n".as_bytes()).unwrap();
    let expected = Value::Object(vec![(
        "name".to_string(),
        Value::Str("ok".to_string()),
    )]);
    assert_eq!(expected, v);
}

#[test]
fn version_two_header_is_rejected() {
    let e = parse("# yarn lockfile v2\nname ok\n".as_bytes()).unwrap_err();
    assert_eq!("Unsupported lockfile version", e.reason);
    assert_eq!(1, e.line);
    assert_eq!(0, e.col);
}

#[test]
fn padded_version_two_header_is_rejected() {
    let e = parse("#\u{a0}yarn lockfile v2\nname ok\n".as_bytes()).unwrap_err();
    assert_eq!("Unsupported lockfile version", e.reason);
}

#[test]
fn version_error_carries_the_comment_position() {
    let e = parse("x: 1\n# yarn lockfile v2\n".as_bytes()).unwrap_err();
    assert_eq!("Unsupported lockfile version", e.reason);
    assert_eq!(2, e.line);
    assert_eq!(0, e.col);
}

#[test]
fn version_header_without_number_is_plain_comment() {
    let v = parse("# yarn lockfile v\nname ok\n".as_bytes()).unwrap();
    let expected = Value::Object(vec![(
        "name".to_string(),
        Value::Str("ok".to_string()),
    )]);
    assert_eq!(expected, v);
}

#[test]
fn root_indent_after_nested_block_stops_the_root_loop() {
    // an indent token surfacing at the root right after a nested block
    // ends the root loop; the over-indented remainder is not parsed
    let v = parse("a:\n  b: 1\n    c: 2\n".as_bytes()).unwrap();
    let expected = Value::Object(vec![(
        "a".to_string(),
        Value::Object(vec![("b".to_string(), Value::Number(1))]),
    )]);
    assert_eq!(expected, v);
}

#[test]
fn reparse_yields_equal_trees() {
    let input = "# yarn lockfile v1\nfoo:\n  bar: 1\n\"a\", \"b\": true\n".as_bytes();
    let v1 = parse(input).unwrap();
    let v2 = parse(input).unwrap();
    assert_eq!(v1, v2);
}

#[test]
fn empty_key_fails() {
    let e = parse("\"\": 1\n".as_bytes()).unwrap_err();
    assert_eq!("Expected a key", e.reason);
}

#[test]
fn comma_without_key_fails() {
    let e = parse("\"a\", : 1\n".as_bytes()).unwrap_err();
    assert_eq!("Expected string", e.reason);
}

#[test]
fn bad_escape_in_key_fails() {
    let e = parse("\"\\x\": 1\n".as_bytes()).unwrap_err();
    assert_eq!("Invalid JSON string", e.reason);
}

#[test]
fn boolean_value() {
    let v = parse("flag: true\n".as_bytes()).unwrap();
    assert_eq!(
        Value::Object(vec![("flag".to_string(), Value::Boolean(true))]),
        v
    );
}

#[test]
fn repeated_key_keeps_last_value() {
    let v = parse("a: 1\na: 2\n".as_bytes()).unwrap();
    assert_eq!(Value::Object(vec![("a".to_string(), Value::Number(2))]), v);
}

#[test]
fn quoted_key_with_unicode_escape() {
    let v = parse("\"\\u0041\" 1\n".as_bytes()).unwrap();
    assert_eq!(Value::Object(vec![("A".to_string(), Value::Number(1))]), v);
}
