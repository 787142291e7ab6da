use rusty_space::mqo::{
    check_float_text, parse_i32, parse_u8, quotok, read_line, read_token, skip_whitespace, MqoError,
};

#[test]
fn test_quotok() {
    let s = br#"  "hello""#;
    assert_eq!(quotok(s).unwrap(), (&b""[..], b"hello".to_vec()));
    let s = br#"  a b"#;
    assert_eq!(quotok(s).unwrap(), (&b"b"[..], b"a".to_vec()));
}

#[test]
fn quotok_parenthesised_field() {
    assert_eq!(quotok(b"V(0 1 2) M(0)").unwrap(), (&b" M(0)"[..], b"V012".to_vec()));
    assert_eq!(quotok(b"7) rest").unwrap(), (&b") rest"[..], b"7".to_vec()));
    assert_eq!(quotok(b"   ").unwrap(), (&b""[..], b"".to_vec()));
    assert_eq!(quotok(b"ab\"c d").unwrap(), (&b""[..], b"abcd".to_vec()));
}

#[test]
fn read_token_needs_a_terminator() {
    assert_eq!(
        read_token(b"  Metasequoia Document"),
        Ok((&b"Document"[..], b"Metasequoia".to_vec()))
    );
    assert_eq!(read_token(b"Document"), Err(MqoError::UnexpectedEof));
    assert_eq!(read_token(b"  \n"), Err(MqoError::UnexpectedEof));
}

#[test]
fn read_line_skips_blank_lines_and_carriage_returns() {
    assert_eq!(
        read_line(b"\r\n\r\nvertex 3 {\r\nrest"),
        Ok((&b"rest"[..], b"vertex 3 {".to_vec()))
    );
    assert_eq!(read_line(b"a\rb\n"), Ok((&b""[..], b"ab".to_vec())));
    assert_eq!(read_line(b"no end"), Err(MqoError::UnexpectedEof));
}

#[test]
fn skip_whitespace_stops_at_the_first_visible_byte() {
    assert_eq!(skip_whitespace(b" \t\r\n\x0cV(1)"), &b"V(1)"[..]);
    assert_eq!(skip_whitespace(b"x "), &b"x "[..]);
    assert_eq!(skip_whitespace(b"  "), &b""[..]);
}

#[test]
fn parse_u8_reads_counts() {
    assert_eq!(parse_u8(b"0"), Ok(0));
    assert_eq!(parse_u8(b"+42"), Ok(42));
    assert_eq!(parse_u8(b"007"), Ok(7));
    assert_eq!(parse_u8(b"18446744073709551615"), Ok(u64::MAX));
    assert_eq!(parse_u8(b"18446744073709551616"), Err(MqoError::Overflow));
    assert_eq!(parse_u8(b"99999999999999999999999"), Err(MqoError::Overflow));
    assert_eq!(parse_u8(b""), Err(MqoError::Empty));
    assert_eq!(parse_u8(b"+"), Err(MqoError::InvalidDigit));
    assert_eq!(parse_u8(b"-1"), Err(MqoError::InvalidDigit));
    assert_eq!(parse_u8(b"12a"), Err(MqoError::InvalidDigit));
    assert_eq!(parse_u8(b" 1"), Err(MqoError::InvalidDigit));
}

#[test]
fn float_texts_are_what_the_float_parser_reads() {
    for text in [
        "", "0", "1.5", "-1.5", "+.5", "5.", ".", "-", "+", "1e5", "1E5", "1e+5", "1e-5", "1e",
        "e5", "1e5.0", "1.5e3", ".5e3", "5.e3", ".e3", "inf", "-inf", "+Infinity", "INF", "nan",
        "NaN", "-nan", "infinit", "in", "1.2.3", "1 ", " 1", "0x10", "1_000", "1f", "--1",
        "1e--5", "1e5e5", "12345678901234567890123456789", "1e99999999999999999999", "1,5", "é",
        "-.", "+e1", "infinityx",
    ] {
        assert_eq!(check_float_text(text.as_bytes()), text.parse::<f32>().is_ok(), "{:?}", text);
        assert_eq!(check_float_text(text.as_bytes()), text.parse::<f64>().is_ok(), "{:?}", text);
    }
}

#[test]
fn signed_numbers() {
    for text in [
        "", "0", "-0", "+0", "1", "-1", "+7", "2147483647", "2147483648", "-2147483648",
        "-2147483649", "00012", "-", "+", "1-", "--1", "12a", " 1", "99999999999999999999999",
        "-99999999999999999999999",
    ] {
        assert_eq!(parse_i32(text.as_bytes()).ok(), text.parse::<i32>().ok(), "{:?}", text);
    }
    assert_eq!(parse_i32(b""), Err(MqoError::Empty));
    assert_eq!(parse_i32(b"-"), Err(MqoError::InvalidDigit));
    assert_eq!(parse_i32(b"2147483648"), Err(MqoError::Overflow));
}

#[test]
fn counts_are_what_the_integer_parser_reads() {
    for text in ["", "0", "+5", "-5", "18446744073709551615", "18446744073709551616", "1x", "+"] {
        assert_eq!(parse_u8(text.as_bytes()).ok(), text.parse::<u64>().ok(), "{:?}", text);
    }
}
