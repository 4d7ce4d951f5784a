use biwac::escape::{known_escapes, string_body_end, unescape, unescape_char, EscapeError};

#[test]
fn unescapes_the_known_forms() {
    assert_eq!(unescape(r#"a\"b"#).unwrap(), "a\"b");
    assert_eq!(unescape(r"a\\b").unwrap(), "a\\b");
    assert_eq!(unescape(r"a\nb").unwrap(), "a\nb");
    assert_eq!(unescape(r"a\tb").unwrap(), "a\tb");
    assert_eq!(unescape(r"a\rb").unwrap(), "a\rb");
}

#[test]
fn leaves_plain_text_alone() {
    assert_eq!(unescape("// not a comment").unwrap(), "// not a comment");
    assert_eq!(unescape("it's fine").unwrap(), "it's fine");
}

#[test]
fn rejects_what_is_not_decided_yet() {
    assert!(matches!(
        unescape(r"\u{1F600}"),
        Err(EscapeError::Unknown { found: 'u', .. })
    ));
    assert!(matches!(
        unescape(r"\'"),
        Err(EscapeError::Unknown { found: '\'', .. })
    ));
    assert_eq!(unescape(r"a\"), Err(EscapeError::Trailing { offset: 1 }));
}

#[test]
fn finds_the_closing_quote_past_escapes() {
    assert_eq!(string_body_end(r#"ab""#), Some(2));
    assert_eq!(string_body_end(r#"a\"b""#), Some(4));
    assert_eq!(string_body_end(r#"a\\""#), Some(3));
    assert_eq!(string_body_end("no close"), None);
}

#[test]
fn error_offsets_count_bytes_not_characters() {
    // `é` takes two bytes, so the backslash sits at byte 2.
    assert_eq!(
        unescape("é\\q"),
        Err(EscapeError::Unknown { offset: 2, found: 'q' })
    );
    assert_eq!(unescape("日\\"), Err(EscapeError::Trailing { offset: 3 }));
    assert_eq!(string_body_end("日本\"x"), Some(6));
}

#[test]
fn a_lone_trailing_escape_never_closes() {
    assert_eq!(string_body_end("abc\\"), None);
    assert_eq!(string_body_end(""), None);
    assert_eq!(string_body_end("\""), Some(0));
}

#[test]
fn each_escape_char_has_its_meaning() {
    assert_eq!(unescape_char('"'), Some('"'));
    assert_eq!(unescape_char('\\'), Some('\\'));
    assert_eq!(unescape_char('n'), Some('\n'));
    assert_eq!(unescape_char('t'), Some('\t'));
    assert_eq!(unescape_char('r'), Some('\r'));
    assert_eq!(unescape_char('\''), None);
    assert_eq!(unescape_char('0'), None);
}

#[test]
fn lists_the_escapes_for_diagnostics() {
    assert_eq!(known_escapes(), "`\\\"`, `\\\\`, `\\n`, `\\t`, `\\r`");
}
