use rusty_space::parser::{expr, Expression};
use rusty_space::render::write_expression;

fn written(e: &Expression) -> Vec<u8> {
    let mut out = Vec::new();
    write_expression(e, &mut out);
    out
}

fn read(text: &[u8]) -> Expression {
    let (rest, e) = expr(text).unwrap();
    assert_eq!(rest, &b""[..]);
    e
}

#[test]
fn text_of_an_expression() {
    assert_eq!(written(&read(b"2 * 3 + 4")), b"((2)*(3))+(4)".to_vec());
    assert_eq!(written(&read(b" pow( a , -1.5 ) ")), b"pow(a,-1.5,)".to_vec());
    assert_eq!(written(&read(b"f()")), b"f()".to_vec());
    assert_eq!(written(&read(b"x")), b"x".to_vec());
    assert_eq!(written(&read(b"1 - 2 - 3 / sin(y)")), b"((1)-(2))-((3)/(sin(y,)))".to_vec());
}

#[test]
fn what_is_written_is_read_back() {
    for text in [
        "1",
        "a_b",
        "2 * 3 + 4",
        "2 * (3 + 4)",
        "1 - 2 - 3",
        "8 / 4 / 2 * x",
        "pow(2, 10) + log(8, 2) * sqrt(x)",
        "f(g(h(1), 2), -3.25, +.5) - pi",
        "((((a))))",
    ] {
        let e = read(text.as_bytes());
        let once = written(&e);
        let back = read(&once);
        assert_eq!(back, e, "{}", text);
        assert_eq!(written(&back), once);
    }
}
