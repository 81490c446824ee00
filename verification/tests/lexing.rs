use yarn_lock::lexer::tokenize;
use yarn_lock::tokens::Token;
use yarn_lock::tokens::TokenWrapper;

#[test]
fn hello() {
    assert_eq!(1, 1);
    println!("Hello world! test passed!");
}

#[test]
fn test_tokenize_indents() {
    let actual = tokenize("  \r\n    \n\n  ".as_bytes()).unwrap();
    let expected = vec![
        TokenWrapper { col: 0, line: 1, token: Token::Indent(2) },
        TokenWrapper { col: 2, line: 1, token: Token::NewLine },
        TokenWrapper { col: 0, line: 2, token: Token::Indent(4) },
        TokenWrapper { col: 4, line: 2, token: Token::NewLine },
        TokenWrapper { col: 0, line: 3, token: Token::Indent(2) },
        TokenWrapper { col: 2, line: 3, token: Token::Eof },
    ];
    assert_eq!(expected, actual);
}

#[test]
fn tokenize_simple_entry() {
    let actual = tokenize("a: true\n".as_bytes()).unwrap();
    let expected = vec![
        TokenWrapper { col: 0, line: 1, token: Token::Str(b"a".to_vec()) },
        TokenWrapper { col: 1, line: 1, token: Token::Colon },
        TokenWrapper { col: 3, line: 1, token: Token::Bool(true) },
        TokenWrapper { col: 7, line: 1, token: Token::NewLine },
        TokenWrapper { col: 0, line: 2, token: Token::Eof },
    ];
    assert_eq!(expected, actual);
}

#[test]
fn tokenize_comment_and_quoted() {
    let actual = tokenize("# hi\n\"k\"\n".as_bytes()).unwrap();
    let expected = vec![
        TokenWrapper { col: 0, line: 1, token: Token::Comment(b" hi".to_vec()) },
        TokenWrapper { col: 4, line: 1, token: Token::NewLine },
        TokenWrapper { col: 0, line: 2, token: Token::Str(b"\"k\"".to_vec()) },
        TokenWrapper { col: 3, line: 2, token: Token::NewLine },
        TokenWrapper { col: 0, line: 3, token: Token::Eof },
    ];
    assert_eq!(expected, actual);
}

#[test]
fn tokenize_collapses_double_line_feed() {
    let actual = tokenize("a\n\nb".as_bytes()).unwrap();
    let expected = vec![
        TokenWrapper { col: 0, line: 1, token: Token::Str(b"a".to_vec()) },
        TokenWrapper { col: 1, line: 1, token: Token::NewLine },
        TokenWrapper { col: 0, line: 2, token: Token::Str(b"b".to_vec()) },
        TokenWrapper { col: 1, line: 2, token: Token::Eof },
    ];
    assert_eq!(expected, actual);
}

#[test]
fn tokenize_number() {
    let actual = tokenize("123 ".as_bytes()).unwrap();
    let expected = vec![
        TokenWrapper { col: 0, line: 1, token: Token::Number(123) },
        TokenWrapper { col: 4, line: 1, token: Token::Eof },
    ];
    assert_eq!(expected, actual);
}

#[test]
fn tokenize_number_overflow_fails() {
    let e = tokenize("99999999999999999999".as_bytes()).unwrap_err();
    assert_eq!("Number parse failed", e.reason);
    assert_eq!(1, e.line);
    assert_eq!(0, e.col);
}

#[test]
fn tokenize_empty_input() {
    let actual = tokenize(b"").unwrap();
    let expected = vec![TokenWrapper { col: 0, line: 1, token: Token::Eof }];
    assert_eq!(expected, actual);
}

#[test]
fn tokenize_odd_indent_fails() {
    let e = tokenize("   x: 1".as_bytes()).unwrap_err();
    assert_eq!("Invalid number of spaces", e.reason);
    assert_eq!(1, e.line);
    assert_eq!(0, e.col);
}

#[test]
fn tokenize_odd_indent_mid_document_fails() {
    let e = tokenize("a:\n   b".as_bytes()).unwrap_err();
    assert_eq!("Invalid number of spaces", e.reason);
    assert_eq!(2, e.line);
    assert_eq!(0, e.col);
}

#[test]
fn tokenize_unterminated_quote_fails() {
    let e = tokenize("\"abc".as_bytes()).unwrap_err();
    assert_eq!("Unexpected EOF", e.reason);
}

#[test]
fn tokenize_invalid_byte() {
    let actual = tokenize("!".as_bytes()).unwrap();
    let expected = vec![
        TokenWrapper { col: 0, line: 1, token: Token::Invalid },
        TokenWrapper { col: 1, line: 1, token: Token::Eof },
    ];
    assert_eq!(expected, actual);
}

#[test]
fn tokenize_carriage_return_line_feed() {
    let actual = tokenize("a\r\nb".as_bytes()).unwrap();
    let expected = vec![
        TokenWrapper { col: 0, line: 1, token: Token::Str(b"a".to_vec()) },
        TokenWrapper { col: 1, line: 1, token: Token::NewLine },
        TokenWrapper { col: 0, line: 2, token: Token::Str(b"b".to_vec()) },
        TokenWrapper { col: 1, line: 2, token: Token::Eof },
    ];
    assert_eq!(expected, actual);
}

#[test]
fn tokens_reconstruct_input() {
    // on an input without separator spaces, the source ranges of the
    // tokens, in order, rebuild the byte sequence exactly
    let input = "ab:\n  cd,true\n".as_bytes();
    let tokens = tokenize(input).unwrap();
    let mut rebuilt: Vec<u8> = Vec::new();
    for tw in &tokens {
        match &tw.token {
            Token::Str(s) => rebuilt.extend_from_slice(s),
            Token::Comment(c) => {
                rebuilt.push(b'#');
                rebuilt.extend_from_slice(c);
            }
            Token::Number(n) => rebuilt.extend_from_slice(n.to_string().as_bytes()),
            Token::Bool(b) => rebuilt.extend_from_slice(if *b { b"true" } else { b"false" }),
            Token::Indent(w) => rebuilt.extend_from_slice(&vec![b' '; *w]),
            Token::Colon => rebuilt.push(b':'),
            Token::Comma => rebuilt.push(b','),
            Token::NewLine => rebuilt.push(b'\n'),
            Token::Invalid | Token::Eof => {}
        }
    }
    assert_eq!(input, rebuilt.as_slice());
}

#[test]
fn tokenize_escaped_quote_inside_string() {
    let actual = tokenize("\"a\\\"b\"".as_bytes()).unwrap();
    let expected = vec![
        TokenWrapper { col: 0, line: 1, token: Token::Str(b"\"a\\\"b\"".to_vec()) },
        TokenWrapper { col: 6, line: 1, token: Token::Eof },
    ];
    assert_eq!(expected, actual);
}
