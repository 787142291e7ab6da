use rusty_space::bytes::{scan_run, ByteClass};
use rusty_space::error::{ParseError, ParseErrorKind};
use rusty_space::lexer::{scan_identifier, scan_number, scan_quoted_string, skip_whitespace};

#[test]
fn whitespace_is_space_tab_and_line_breaks() {
    assert_eq!(skip_whitespace(b" \t\r\n x "), &b"x "[..]);
    assert_eq!(skip_whitespace(b"x"), &b"x"[..]);
    assert_eq!(skip_whitespace(b""), &b""[..]);
    assert_eq!(skip_whitespace(b"\x0cx"), &b"\x0cx"[..]);
}

#[test]
fn identifier_starts_with_letter_or_underscore() {
    assert_eq!(scan_identifier(b"abc_1 rest"), Some((&b" rest"[..], &b"abc_1"[..])));
    assert_eq!(scan_identifier(b"_x9-"), Some((&b"-"[..], &b"_x9"[..])));
    assert_eq!(scan_identifier(b"Z"), Some((&b""[..], &b"Z"[..])));
    assert_eq!(scan_identifier(b"9a"), None);
    assert_eq!(scan_identifier(b" a"), None);
    assert_eq!(scan_identifier(b""), None);
    assert_eq!(scan_identifier("é".as_bytes()), None);
}

#[test]
fn number_shape_is_sign_digits_and_points() {
    assert_eq!(scan_number(b"123.45 "), Some((&b" "[..], &b"123.45"[..])));
    assert_eq!(scan_number(b"-1.5e3"), Some((&b"e3"[..], &b"-1.5"[..])));
    assert_eq!(scan_number(b"+-1"), Some((&b"-1"[..], &b"+"[..])));
    assert_eq!(scan_number(b"1.2.3x"), Some((&b"x"[..], &b"1.2.3"[..])));
    assert_eq!(scan_number(b"x1"), None);
    assert_eq!(scan_number(b""), None);
}

#[test]
fn quoted_string_has_no_escapes() {
    assert_eq!(scan_quoted_string(b"\"a\\\" b"), Ok((&b" b"[..], b"a\\".to_vec())));
    assert_eq!(scan_quoted_string(b"\"\"x"), Ok((&b"x"[..], b"".to_vec())));
    assert_eq!(
        scan_quoted_string(b"\"abc"),
        Err(ParseError { kind: ParseErrorKind::UnterminatedString, position: 0 })
    );
    assert_eq!(
        scan_quoted_string(b"abc\""),
        Err(ParseError { kind: ParseErrorKind::NoMatch, position: 0 })
    );
}

#[test]
fn runs_end_at_the_first_byte_outside_the_class() {
    assert_eq!(scan_run(b"aaab", 0, ByteClass::Only(b'a')), 3);
    assert_eq!(scan_run(b"aaab", 1, ByteClass::Not(b'b')), 3);
    assert_eq!(scan_run(b"aaab", 4, ByteClass::Whitespace), 4);
    assert_eq!(scan_run(b"{}x", 0, ByteClass::Brace), 2);
    assert!(ByteClass::IdentStart.contains(b'_'));
    assert!(!ByteClass::IdentStart.contains(b'0'));
    assert!(ByteClass::IdentContinue.contains(b'0'));
    assert!(ByteClass::NumberStart.contains(b'-'));
    assert!(!ByteClass::NumberContinue.contains(b'-'));
    assert!(ByteClass::Newline.contains(b'\r'));
    assert!(!ByteClass::Blank.contains(b'\n'));
    assert!(ByteClass::Visible.contains(b'a'));
    assert!(!ByteClass::Bare.contains(b'('));
    assert!(ByteClass::AsciiWhitespace.contains(0x0c));
}
