use yarn_lock::unquote::unquote_json_string;
use yarn_lock::unquote::unquote_string;

#[test]
fn unquotes_simple_string() {
    let input = "\"hello\"";
    assert_eq!(Some("hello".to_string()), unquote_json_string(input.as_bytes()));
}

#[test]
fn returns_none_for_non_quoted_string() {
    let input = "hello";
    assert_eq!(None, unquote_json_string(input.as_bytes()));
}

#[test]
fn unquotes_string_with_escaped_characters() {
    let input = "\"he\\\"llo\"";
    assert_eq!(Some("he\"llo".to_string()), unquote_json_string(input.as_bytes()));
}

#[test]
fn unquotes_string_with_unicode_characters() {
    let input = "\"\\u0048ello\"";
    assert_eq!(Some("Hello".to_string()), unquote_json_string(input.as_bytes()));
}

#[test]
fn returns_none_for_incomplete_unicode_escape() {
    let input = "\"\\u004\"";
    assert_eq!(None, unquote_json_string(input.as_bytes()));
}

#[test]
fn unquotes_string_with_all_escape_characters() {
    let input = "\"\\\"\\\\\\/\\b\\f\\n\\r\\t\"";
    assert_eq!(
        Some("\"\\/\u{0008}\u{000c}\n\r\t".to_string()),
        unquote_json_string(input.as_bytes())
    );
}

#[test]
fn returns_none_for_string_without_closing_quote() {
    let input = "\"hello";
    assert_eq!(None, unquote_json_string(input.as_bytes()));
}

#[test]
fn returns_none_for_empty_string() {
    let input = "";
    assert_eq!(None, unquote_json_string(input.as_bytes()));
}

#[test]
fn unquotes_empty_quoted_string() {
    let input = "\"\"";
    assert_eq!(Some(String::new()), unquote_json_string(input.as_bytes()));
}

#[test]
fn returns_none_for_surrogate_escape() {
    let input = "\"\\ud800\"";
    assert_eq!(None, unquote_json_string(input.as_bytes()));
}

#[test]
fn unquote_string_passes_bare_text_through() {
    assert_eq!(Ok("hello".to_string()), unquote_string("hello".as_bytes()));
}

#[test]
fn unquote_string_rejects_invalid_utf8() {
    let r = unquote_string(&[0xff, 0xfe]);
    assert_eq!(Err("Invalid UTF-8 string"), r);
}

#[test]
fn unquote_string_rejects_bad_quoted() {
    let r = unquote_string("\"\\x\"".as_bytes());
    assert_eq!(Err("Invalid JSON string"), r);
}

#[test]
fn unquote_string_decodes_quoted() {
    assert_eq!(Ok("a b".to_string()), unquote_string("\"a b\"".as_bytes()));
}
