use rusty_space::astro_body::{parse_astro_command, plan_bodies, scan_textures, BodyPlan};
use rusty_space::builtins::{
    lookup_constant, lookup_function, BinaryFn, Builtin, Constant, UnaryFn,
};
use rusty_space::eval::{resolve, Environment, EvalError, Term};
use rusty_space::number::Number;
use rusty_space::parser::{expr, number, parse_document, Expression};

fn literal(n: &Number) -> f64 {
    std::str::from_utf8(n.text()).unwrap().parse().unwrap()
}

fn compute(t: &Term, slots: &[f64]) -> f64 {
    match t {
        Term::Literal(n) => literal(n),
        Term::Constant(Constant::Pi) => std::f64::consts::PI,
        Term::Variable(slot) => slots[*slot],
        Term::Unary(f, a) => {
            let a = compute(a, slots);
            match f {
                UnaryFn::Sqrt => a.sqrt(),
                UnaryFn::Sin => a.sin(),
                UnaryFn::Cos => a.cos(),
                UnaryFn::Tan => a.tan(),
                UnaryFn::Asin => a.asin(),
                UnaryFn::Acos => a.acos(),
                UnaryFn::Atan => a.atan(),
                UnaryFn::Exp => a.exp(),
                UnaryFn::Log10 => a.log10(),
            }
        }
        Term::Binary(f, a, b) => {
            let a = compute(a, slots);
            let b = compute(b, slots);
            match f {
                BinaryFn::Atan2 => a.atan2(b),
                BinaryFn::Pow => a.powf(b),
                BinaryFn::Log => a.log(b),
            }
        }
        Term::Add(a, b) => compute(a, slots) + compute(b, slots),
        Term::Sub(a, b) => compute(a, slots) - compute(b, slots),
        Term::Mul(a, b) => compute(a, slots) * compute(b, slots),
        Term::Div(a, b) => compute(a, slots) / compute(b, slots),
    }
}

fn slots_of(env: &Environment) -> Vec<f64> {
    let mut slots: Vec<f64> = Vec::new();
    for k in 0..env.len() {
        let v = compute(env.value(k), &slots);
        slots.push(v);
    }
    slots
}

fn parse(text: &str) -> Expression {
    let (rest, e) = expr(text.as_bytes()).unwrap();
    assert_eq!(rest, &b""[..]);
    e
}

fn evaluate(text: &str) -> Result<f64, EvalError> {
    let env = Environment::new();
    resolve(&parse(text), &env).map(|t| compute(&t, &[]))
}

#[test]
fn precedence_and_parentheses() {
    assert_eq!(evaluate("2 * 3 + 4"), Ok(10.0));
    assert_eq!(evaluate("2 * (3 + 4)"), Ok(14.0));
    assert_eq!(evaluate("10 - 4 - 3"), Ok(3.0));
    assert_eq!(evaluate("16 / 4 / 2"), Ok(2.0));
    assert_eq!(evaluate(" ( 1 + 2 ) * ( 3 + 4 ) "), Ok(21.0));
}

#[test]
fn power_of_two() {
    assert_eq!(evaluate("pow(2, 10)"), Ok(1024.0));
    assert_eq!(evaluate("sqrt(16)"), Ok(4.0));
    assert_eq!(evaluate("log(8, 2)"), Ok(3.0));
    assert_eq!(evaluate("log10(1000)"), Ok(1000f64.log10()));
    assert_eq!(evaluate("atan2(1, 1) * 4"), Ok(std::f64::consts::PI));
    assert_eq!(evaluate("2 * pi"), Ok(2.0 * std::f64::consts::PI));
    assert_eq!(evaluate("pow(2 3)"), Ok(8.0));
    assert_eq!(evaluate("pow( 2 , 3 , )"), Ok(8.0));
}

#[test]
fn division_by_zero_is_infinite() {
    assert_eq!(evaluate("1 / 0"), Ok(f64::INFINITY));
    assert!(evaluate("0 / 0").unwrap().is_nan());
}

#[test]
fn faults_name_what_they_are_about() {
    assert_eq!(evaluate("x + 1"), Err(EvalError::UnknownName(b"x".to_vec())));
    assert_eq!(evaluate("sinh(1)"), Err(EvalError::UnknownFunction(b"sinh".to_vec())));
    assert_eq!(
        evaluate("sin(1, 2)"),
        Err(EvalError::ArityMismatch { name: b"sin".to_vec(), expected: 1, found: 2 })
    );
    assert_eq!(
        evaluate("pow(2)"),
        Err(EvalError::ArityMismatch { name: b"pow".to_vec(), expected: 2, found: 1 })
    );
    assert_eq!(
        evaluate("sin()"),
        Err(EvalError::ArityMismatch { name: b"sin".to_vec(), expected: 1, found: 0 })
    );
    // the first fault in evaluation order
    assert_eq!(evaluate("a + b"), Err(EvalError::UnknownName(b"a".to_vec())));
    assert_eq!(evaluate("nope(a)"), Err(EvalError::UnknownFunction(b"nope".to_vec())));
    assert_eq!(evaluate("pow(a, nope(1))"), Err(EvalError::UnknownName(b"a".to_vec())));
}

#[test]
fn builtin_table() {
    assert_eq!(lookup_constant(b"pi"), Some(Constant::Pi));
    assert_eq!(lookup_constant(b"Pi"), None);
    assert_eq!(lookup_function(b"atan"), Some(Builtin::Unary(UnaryFn::Atan)));
    assert_eq!(lookup_function(b"atan2"), Some(Builtin::Binary(BinaryFn::Atan2)));
    assert_eq!(lookup_function(b"log"), Some(Builtin::Binary(BinaryFn::Log)));
    assert_eq!(lookup_function(b"log10"), Some(Builtin::Unary(UnaryFn::Log10)));
    assert_eq!(lookup_function(b"exp"), Some(Builtin::Unary(UnaryFn::Exp)));
    assert_eq!(lookup_function(b"pi"), None);
    assert_eq!(Builtin::Binary(BinaryFn::Pow).arity(), 2);
    assert_eq!(Builtin::Unary(UnaryFn::Cos).arity(), 1);
}

#[test]
fn environment_binds_in_order() {
    let mut env = Environment::new();
    assert_eq!(env.lookup(b"a"), None);
    assert_eq!(env.define(b"a", &parse("2")), Ok(0));
    assert_eq!(env.define(b"b", &parse("a * 3")), Ok(1));
    assert_eq!(env.define(b"a", &parse("a + b")), Ok(2));
    assert_eq!(env.len(), 3);
    assert_eq!(env.lookup(b"a"), Some(2));
    assert_eq!(env.lookup(b"b"), Some(1));
    assert_eq!(env.name(1), &b"b"[..]);
    assert_eq!(slots_of(&env), vec![2.0, 6.0, 8.0]);
    // a fault binds nothing
    assert_eq!(env.define(b"c", &parse("d")), Err(EvalError::UnknownName(b"d".to_vec())));
    assert_eq!(env.len(), 3);
    // pi is the constant, whatever is defined
    assert_eq!(env.define(b"pi", &parse("3")), Ok(3));
    assert_eq!(resolve(&parse("pi"), &env), Ok(Term::Constant(Constant::Pi)));
}

fn plan(text: &str) -> Result<(Vec<BodyPlan>, Vec<f64>), EvalError> {
    let commands = parse_document(text.as_bytes()).unwrap();
    let mut env = Environment::new();
    let bodies = plan_bodies(&commands, &mut env)?;
    Ok((bodies, slots_of(&env)))
}

#[test]
fn definition_counts_from_where_it_stands() {
    let (bodies, slots) = plan("au := 150\nastro Earth {\n semimajor_axis: au * 2\n}\n").unwrap();
    assert_eq!(bodies.len(), 1);
    assert_eq!(compute(bodies[0].semimajor_axis.as_ref().unwrap(), &slots), 300.0);
    assert_eq!(
        plan("astro Earth {\n semimajor_axis: au * 2\n}\nau := 150\n"),
        Err(EvalError::UnknownName(b"au".to_vec()))
    );
    // a later definition of the same name does not reach back
    let (bodies, slots) =
        plan("k := 1\nastro A {\n radius: k\n}\nk := 5\nastro B {\n radius: k\n}\n").unwrap();
    assert_eq!(compute(bodies[0].radius.as_ref().unwrap(), &slots), 1.0);
    assert_eq!(compute(bodies[1].radius.as_ref().unwrap(), &slots), 5.0);
}

#[test]
fn definitions_in_a_block_stay_bound_after_it() {
    let (bodies, slots) = plan(
        "astro Sun {\n scale := 3\n radius: scale\n astro Earth {\n  radius: scale / 2\n }\n}\nastro Far {\n radius: scale + 1\n}\n",
    )
    .unwrap();
    assert_eq!(bodies.len(), 2);
    assert_eq!(bodies[0].name, b"Sun".to_vec());
    assert_eq!(compute(bodies[0].radius.as_ref().unwrap(), &slots), 3.0);
    assert_eq!(bodies[0].children.len(), 1);
    assert_eq!(bodies[0].children[0].name, b"Earth".to_vec());
    assert_eq!(compute(bodies[0].children[0].radius.as_ref().unwrap(), &slots), 1.5);
    assert_eq!(compute(bodies[1].radius.as_ref().unwrap(), &slots), 4.0);
}

#[test]
fn body_plan_reads_the_known_properties() {
    let (bodies, slots) = plan(
        "astro Moon {\n texture: \"moon.jpg\"\n radius: 0.5\n orbit_period: 27 + 0.3\n rotation_period: 27\n star: 0\n colour: red\n radius: 0.25\n note {\n x := nothing\n }\n}\n",
    )
    .unwrap();
    let moon = &bodies[0];
    assert_eq!(moon.texture, Some(b"moon.jpg".to_vec()));
    assert_eq!(compute(moon.radius.as_ref().unwrap(), &slots), 0.25);
    assert_eq!(compute(moon.orbit_period.as_ref().unwrap(), &slots), 27.3);
    assert_eq!(compute(moon.rotation_period.as_ref().unwrap(), &slots), 27.0);
    assert_eq!(compute(moon.star.as_ref().unwrap(), &slots), 0.0);
    assert_eq!(moon.semimajor_axis, None);
    assert!(moon.children.is_empty());
    assert!(slots.is_empty());
}

#[test]
fn astro_command_needs_word_name_and_block() {
    let commands =
        parse_document(b"astro Moon m {}\nastro Moon {\n texture: \"a.png\"\n astro Sub {\n  texture: \"b.png\"\n }\n other {\n texture: \"c.png\"\n }\n}\nplanet Moon {}\nx: 1\n").unwrap();
    assert_eq!(commands.len(), 4);
    assert!(parse_astro_command(&commands[0]).is_none());
    let (name, block) = parse_astro_command(&commands[1]).unwrap();
    assert_eq!(name, &b"Moon".to_vec());
    assert_eq!(block.len(), 3);
    assert!(parse_astro_command(&commands[2]).is_none());
    assert!(parse_astro_command(&commands[3]).is_none());
    let mut textures = vec![b"sky.jpg".to_vec()];
    for c in &commands {
        assert_eq!(scan_textures(c, &mut textures), None);
    }
    assert_eq!(textures, vec![b"sky.jpg".to_vec(), b"a.png".to_vec(), b"b.png".to_vec()]);
}

#[test]
fn number_text_reads_back_as_the_same_value() {
    for text in ["0", "123.45", "-7.5", "+3", ".5", "5.", "-.25", "000.100", "1000000"] {
        let (rest, e) = number(text.as_bytes()).unwrap();
        assert_eq!(rest, &b""[..]);
        let n = match e {
            Expression::NumLiteral(n) => n,
            _ => unreachable!(),
        };
        let value = literal(&n);
        assert_eq!(value, text.parse::<f64>().unwrap());
        let written = format!("{}", value);
        let (rest, again) = number(written.as_bytes()).unwrap();
        assert_eq!(rest, &b""[..]);
        match again {
            Expression::NumLiteral(m) => assert_eq!(literal(&m), value),
            _ => unreachable!(),
        }
    }
}

#[test]
fn literals_are_what_the_float_parser_reads() {
    for text in [
        "", "+", "-", ".", "+.", "-.", "1", "1.", ".1", "1.2", "1.2.3", "..", "1..", "+1", "-1",
        "+-1", "1-", "1+1", "12.", "0.0.", "-0", "+.5", "5.5.5", "1e5", "inf", "nan", " 1", "1 ",
    ] {
        assert_eq!(
            Number::from_text(text.as_bytes()).is_some(),
            text.parse::<f64>().is_ok()
                && text.bytes().all(|b| b.is_ascii_digit() || b == b'.' || b == b'+' || b == b'-'),
            "{:?}",
            text
        );
    }
}
