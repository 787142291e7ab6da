use rusty_space::error::{ParseError, ParseErrorKind};
use rusty_space::number::Number;
use rusty_space::parser::{
    block, block_str, command, commands, expr, number, parse_document, Arg, Command, Expression,
    Property,
};

fn num(text: &str) -> Expression {
    Expression::NumLiteral(Number::from_text(text.as_bytes()).unwrap())
}

fn ident(name: &str) -> Expression {
    Expression::Ident(name.as_bytes().to_vec())
}

fn word(name: &str) -> Arg {
    Arg::Str(name.as_bytes().to_vec())
}

fn value_of(e: &Expression) -> f64 {
    match e {
        Expression::NumLiteral(n) => std::str::from_utf8(n.text()).unwrap().parse().unwrap(),
        _ => panic!("not a literal"),
    }
}

#[test]
fn test_number() {
    let (rest, e) = number(b"123.45 ").unwrap();
    assert_eq!(rest, &b" "[..]);
    assert_eq!(e, num("123.45"));
    assert_eq!(value_of(&e), 123.45);
}

#[test]
fn test_block() {
    assert_eq!(
        block(b"{p}"),
        Ok((&b""[..], Arg::Block(vec![Command::Com(vec![word("p")])])))
    );
}

#[test]
fn test_multiline() {
    assert_eq!(
        block(
            b"{
            p
}"
        ),
        Ok((&b""[..], Arg::Block(vec![Command::Com(vec![word("p")])])))
    );
}

#[test]
fn test_command() {
    assert_eq!(
        command(
            b"a  {
            p
        }"
        ),
        Ok((
            &b""[..],
            Command::Com(vec![
                word("a"),
                Arg::Block(vec![Command::Com(vec![word("p")])])
            ])
        ))
    );
}

#[test]
fn test_prop() {
    assert_eq!(
        command(b"hello: world"),
        Ok((
            &b""[..],
            Command::Prop(b"hello".to_vec(), Property::Expr(ident("world")))
        ))
    );
}

#[test]
fn test_string_prop() {
    assert_eq!(
        command(b"hello: \"world\""),
        Ok((
            &b""[..],
            Command::Prop(b"hello".to_vec(), Property::Str(b"world".to_vec()))
        ))
    );
}

#[test]
fn test_command_prop() {
    let parsed = command(
        b"
astro Moon {
    radius: 0.5
}",
    );
    assert_eq!(
        parsed,
        Ok((
            &b""[..],
            Command::Com(vec![
                word("astro"),
                word("Moon"),
                Arg::Block(vec![Command::Prop(
                    b"radius".to_vec(),
                    Property::Expr(num("0.5"))
                )])
            ])
        ))
    );
}

#[test]
fn unclosed_block_is_unterminated() {
    assert_eq!(
        block(b"{ a"),
        Err(ParseError { kind: ParseErrorKind::UnterminatedBlock, position: 0 })
    );
    assert_eq!(
        parse_document(b"astro Moon {\n radius: 0.5\n"),
        Err(ParseError { kind: ParseErrorKind::UnterminatedBlock, position: 11 })
    );
}

#[test]
fn block_text_drops_nested_braces() {
    assert_eq!(block_str(b"{a{b}c} d"), Ok((&b" d"[..], b"abc".to_vec())));
    assert_eq!(
        block_str(b"{a{b}"),
        Err(ParseError { kind: ParseErrorKind::UnterminatedBlock, position: 0 })
    );
}

#[test]
fn commands_stop_at_what_is_no_command() {
    let (rest, found) = commands(b"a: 1\nb c\n) tail").unwrap();
    assert_eq!(rest, &b") tail"[..]);
    assert_eq!(found.len(), 2);
    let (rest, e) = expr(b"1 + 2 )").unwrap();
    assert_eq!(rest, &b")"[..]);
    assert_eq!(e, Expression::Add(Box::new(num("1")), Box::new(num("2"))));
}

fn err<T>(kind: ParseErrorKind, position: usize) -> Result<T, ParseError> {
    Err(ParseError { kind, position })
}

#[test]
fn malformed_literal_is_an_error_not_a_mismatch() {
    assert_eq!(number(b"1.2.3"), err(ParseErrorKind::MalformedLiteral, 0));
    assert_eq!(number(b"+"), err(ParseErrorKind::MalformedLiteral, 0));
    assert_eq!(number(b"."), err(ParseErrorKind::MalformedLiteral, 0));
    assert_eq!(number(b"x"), err(ParseErrorKind::NoMatch, 0));
    assert_eq!(number(b""), err(ParseErrorKind::NoMatch, 0));
    assert_eq!(expr(b"1 + -"), err(ParseErrorKind::MalformedLiteral, 4));
    assert_eq!(command(b"x: 2..5"), err(ParseErrorKind::MalformedLiteral, 3));
    assert_eq!(parse_document(b"a b\nx: 1.2.3\n"), err(ParseErrorKind::MalformedLiteral, 7));
}

#[test]
fn unterminated_string_is_an_error() {
    assert_eq!(command(b"t: \"abc"), err(ParseErrorKind::UnterminatedString, 3));
    assert_eq!(
        command(b"t: \"a b\" \n"),
        Ok((&b""[..], Command::Prop(b"t".to_vec(), Property::Str(b"a b".to_vec()))))
    );
    assert_eq!(
        command(b"t: \"\""),
        Ok((&b""[..], Command::Prop(b"t".to_vec(), Property::Str(b"".to_vec()))))
    );
}

#[test]
fn nesting_is_limited() {
    let deep = |n: usize| {
        let mut text = vec![b'('; n];
        text.push(b'1');
        text.extend(vec![b')'; n]);
        text
    };
    let text = deep(64);
    let (rest, e) = expr(&text).unwrap();
    assert_eq!(rest, &b""[..]);
    assert_eq!(e, num("1"));
    assert_eq!(expr(&deep(65)), err(ParseErrorKind::DepthLimitExceeded, 64));
    let mut blocks = Vec::new();
    for _ in 0..65 {
        blocks.extend_from_slice(b"a {");
    }
    assert_eq!(parse_document(&blocks), err(ParseErrorKind::DepthLimitExceeded, 64 * 3 + 2));
    let mut calls = Vec::new();
    for _ in 0..65 {
        calls.extend_from_slice(b"sin(");
    }
    assert_eq!(expr(&calls), err(ParseErrorKind::DepthLimitExceeded, 64 * 4 + 3));
}

#[test]
fn document_must_be_read_whole() {
    assert_eq!(parse_document(b""), Ok(vec![]));
    assert_eq!(parse_document(b" \n\t\r\n "), Ok(vec![]));
    assert_eq!(parse_document(b"a: 1\n)"), err(ParseErrorKind::UnexpectedInput, 5));
    assert_eq!(parse_document(b"a: (1 + 2\n"), err(ParseErrorKind::UnexpectedInput, 1));
    assert_eq!(parse_document(b"f { a ) }"), err(ParseErrorKind::UnexpectedInput, 6));
    let parsed = parse_document(b"a: 1\nb := a + 1\n\n\nc d\n").unwrap();
    assert_eq!(
        parsed,
        vec![
            Command::Prop(b"a".to_vec(), Property::Expr(num("1"))),
            Command::Def(
                b"b".to_vec(),
                Expression::Add(Box::new(ident("a")), Box::new(num("1")))
            ),
            Command::Com(vec![word("c"), word("d")]),
        ]
    );
}

#[test]
fn expressions_lean_left_and_products_bind_tighter() {
    assert_eq!(
        expr(b"1 - 2 - 3").unwrap().1,
        Expression::Sub(
            Box::new(Expression::Sub(Box::new(num("1")), Box::new(num("2")))),
            Box::new(num("3"))
        )
    );
    assert_eq!(
        expr(b"2 * 3 + 4").unwrap().1,
        Expression::Add(
            Box::new(Expression::Mul(Box::new(num("2")), Box::new(num("3")))),
            Box::new(num("4"))
        )
    );
    assert_eq!(
        expr(b"2 * (3 + 4)").unwrap().1,
        Expression::Mul(
            Box::new(num("2")),
            Box::new(Expression::Add(Box::new(num("3")), Box::new(num("4"))))
        )
    );
    assert_eq!(
        expr(b"8 / 4 * a").unwrap().1,
        Expression::Mul(
            Box::new(Expression::Div(Box::new(num("8")), Box::new(num("4")))),
            Box::new(ident("a"))
        )
    );
}

#[test]
fn a_name_before_a_parenthesis_is_a_call() {
    assert_eq!(
        expr(b"pow(2, 10)").unwrap().1,
        Expression::FnInvoke(b"pow".to_vec(), vec![num("2"), num("10")])
    );
    assert_eq!(
        expr(b" f ( ) + g").unwrap().1,
        Expression::Add(
            Box::new(Expression::FnInvoke(b"f".to_vec(), vec![])),
            Box::new(ident("g"))
        )
    );
    assert_eq!(expr(b"f(1 2,)").unwrap().1, Expression::FnInvoke(b"f".to_vec(), vec![num("1"), num("2")]));
    // no closing parenthesis: the name is read as a reference, the rest stays
    assert_eq!(expr(b"f(1"), Ok((&b"(1"[..], ident("f"))));
    assert_eq!(expr(b""), err(ParseErrorKind::NoMatch, 0));
    assert_eq!(expr(b"  )"), err(ParseErrorKind::NoMatch, 2));
    assert_eq!(expr(b"(1 + 2"), err(ParseErrorKind::NoMatch, 6));
}

#[test]
fn definition_is_tried_before_invocation() {
    assert_eq!(
        command(b"x := 2 * y\n"),
        Ok((
            &b""[..],
            Command::Def(
                b"x".to_vec(),
                Expression::Mul(Box::new(num("2")), Box::new(ident("y")))
            )
        ))
    );
    assert_eq!(
        command(b"x  :=  1"),
        Ok((&b""[..], Command::Def(b"x".to_vec(), num("1"))))
    );
    // neither a definition nor a property: the name alone is an invocation
    assert_eq!(
        command(b"x := )"),
        Ok((&b":= )"[..], Command::Com(vec![word("x")])))
    );
    assert_eq!(command(b": 1"), err(ParseErrorKind::NoMatch, 0));
}
