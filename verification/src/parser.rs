//! The document tree and the parsers that build it.

use vstd::prelude::*;
use vstd::slice::slice_subrange;
use crate::error::{furthest, ParseError, ParseErrorKind};
use crate::bytes::{without, ByteClass};
use crate::grammar::{
    closes_block, is_byte_at, lemma_block_str, spec_arg, spec_block, spec_block_str, spec_block_text, spec_call_args, spec_command, spec_commands,
    spec_definition, spec_document, spec_expr, spec_expr_tail, spec_factor, spec_func_call,
    spec_ident, spec_identifier_arg, spec_invocation, spec_more_args, spec_number,
    spec_number_token, spec_parens, spec_property, spec_property_value, spec_statement,
    spec_term, spec_term_tail, Parsed, MAX_NESTING_DEPTH,
};
use crate::lexer::{
    copy_range, scan_identifier_at, scan_number_at, scan_quoted_string_at, skip_blank_at,
    skip_newlines_at, skip_whitespace_at,
};
use crate::model::{ArgModel, CommandModel, ExpressionModel, PropertyModel};
use crate::number::Number;

verus! {

/// An arithmetic expression. The binary nodes own their operands; chains
/// of one precedence lean to the left.
#[derive(Debug, PartialEq)]
pub enum Expression {
    Ident(Vec<u8>),
    NumLiteral(Number),
    FnInvoke(Vec<u8>, Vec<Expression>),
    Add(Box<Expression>, Box<Expression>),
    Sub(Box<Expression>, Box<Expression>),
    Mul(Box<Expression>, Box<Expression>),
    Div(Box<Expression>, Box<Expression>),
}

/// An argument of an invocation: a bare identifier, or a block of
/// commands.
#[derive(Debug, PartialEq)]
pub enum Arg {
    Str(Vec<u8>),
    Block(Vec<Command>),
}

/// The value of a property: the content of a quoted string, or an
/// expression.
#[derive(Debug, PartialEq)]
pub enum Property {
    Str(Vec<u8>),
    Expr(Expression),
}

/// One statement of a document: an invocation of one argument or more, a
/// property `name: value`, or a definition `name := expression`.
#[derive(Debug, PartialEq)]
pub enum Command {
    Com(Vec<Arg>),
    Prop(Vec<u8>, Property),
    Def(Vec<u8>, Expression),
}

/// What the expression `e` denotes.
pub open spec fn expression_model(e: Expression) -> ExpressionModel
    decreases e,
{
    match e {
        Expression::Ident(name) => ExpressionModel::Ident(name@),
        Expression::NumLiteral(n) => ExpressionModel::NumLiteral(n@),
        Expression::FnInvoke(name, args) => ExpressionModel::FnInvoke(
            name@,
            Seq::new(
                args@.len(),
                |i: int|
                    if 0 <= i < args@.len() {
                        expression_model(args@[i])
                    } else {
                        ExpressionModel::Ident(Seq::empty())
                    },
            ),
        ),
        Expression::Add(l, r) => ExpressionModel::Add(
            Box::new(expression_model(*l)),
            Box::new(expression_model(*r)),
        ),
        Expression::Sub(l, r) => ExpressionModel::Sub(
            Box::new(expression_model(*l)),
            Box::new(expression_model(*r)),
        ),
        Expression::Mul(l, r) => ExpressionModel::Mul(
            Box::new(expression_model(*l)),
            Box::new(expression_model(*r)),
        ),
        Expression::Div(l, r) => ExpressionModel::Div(
            Box::new(expression_model(*l)),
            Box::new(expression_model(*r)),
        ),
    }
}

/// What the argument `a` denotes.
pub open spec fn arg_model(a: Arg) -> ArgModel
    decreases a,
{
    match a {
        Arg::Str(name) => ArgModel::Str(name@),
        Arg::Block(commands) => ArgModel::Block(
            Seq::new(
                commands@.len(),
                |i: int|
                    if 0 <= i < commands@.len() {
                        command_model(commands@[i])
                    } else {
                        CommandModel::Com(Seq::empty())
                    },
            ),
        ),
    }
}

/// What the command `c` denotes.
pub open spec fn command_model(c: Command) -> CommandModel
    decreases c,
{
    match c {
        Command::Com(args) => CommandModel::Com(
            Seq::new(
                args@.len(),
                |i: int|
                    if 0 <= i < args@.len() {
                        arg_model(args@[i])
                    } else {
                        ArgModel::Str(Seq::empty())
                    },
            ),
        ),
        Command::Prop(name, Property::Str(text)) => CommandModel::Prop(
            name@,
            PropertyModel::Str(text@),
        ),
        Command::Prop(name, Property::Expr(e)) => CommandModel::Prop(
            name@,
            PropertyModel::Expr(expression_model(e)),
        ),
        Command::Def(name, e) => CommandModel::Def(name@, expression_model(e)),
    }
}

impl View for Expression {
    type V = ExpressionModel;

    open spec fn view(&self) -> ExpressionModel {
        expression_model(*self)
    }
}

impl View for Arg {
    type V = ArgModel;

    open spec fn view(&self) -> ArgModel {
        arg_model(*self)
    }
}

impl View for Property {
    type V = PropertyModel;

    open spec fn view(&self) -> PropertyModel {
        match *self {
            Property::Str(text) => PropertyModel::Str(text@),
            Property::Expr(e) => PropertyModel::Expr(expression_model(e)),
        }
    }
}

impl View for Command {
    type V = CommandModel;

    open spec fn view(&self) -> CommandModel {
        command_model(*self)
    }
}

/// The expressions of `v`, as what they denote.
pub open spec fn expression_models(v: Seq<Expression>) -> Seq<ExpressionModel> {
    v.map_values(|e: Expression| e@)
}

/// The arguments of `v`, as what they denote.
pub open spec fn arg_models(v: Seq<Arg>) -> Seq<ArgModel> {
    v.map_values(|a: Arg| a@)
}

/// The commands of `v`, as what they denote.
pub open spec fn command_models(v: Seq<Command>) -> Seq<CommandModel> {
    v.map_values(|c: Command| c@)
}

/// The model of a call is the name with the models of the arguments.
pub proof fn lemma_fn_invoke_model(name: Vec<u8>, args: Vec<Expression>)
    ensures
        Expression::FnInvoke(name, args)@ == ExpressionModel::FnInvoke(
            name@,
            expression_models(args@),
        ),
{
    assert(expression_model(Expression::FnInvoke(name, args))->FnInvoke_1 =~= expression_models(
        args@,
    ));
}

/// Whether the parser's result `r` is what the grammar reads, `m`.
pub open spec fn expression_parsed(
    r: Result<(usize, Expression), ParseError>,
    m: Parsed<ExpressionModel>,
) -> bool {
    match r {
        Ok((end, e)) => m == Ok::<(int, ExpressionModel), ParseError>((end as int, e@)),
        Err(err) => m == Err::<(int, ExpressionModel), ParseError>(err),
    }
}

/// Of two failures, the one that got further; the first on a tie.
pub fn furthest_of(a: ParseError, b: ParseError) -> (r: ParseError)
    ensures
        r == furthest(a, b),
{
    if b.position > a.position {
        b
    } else {
        a
    }
}

fn failure<T>(kind: ParseErrorKind, position: usize) -> (r: Result<T, ParseError>)
    ensures
        r == Err::<T, ParseError>(ParseError { kind, position }),
{
    Err(ParseError { kind, position })
}

/// Reads a number literal at `pos`, with no whitespace around it.
pub fn number_at(s: &[u8], pos: usize) -> (r: Result<(usize, Expression), ParseError>)
    requires
        pos <= s@.len(),
    ensures
        expression_parsed(r, spec_number(s@, pos as int)),
        r matches Ok((end, _)) ==> pos < end <= s@.len(),
{
    match scan_number_at(s, pos) {
        None => failure(ParseErrorKind::NoMatch, pos),
        Some(end) => match Number::from_range(s, pos, end) {
            Some(n) => Ok((end, Expression::NumLiteral(n))),
            None => failure(ParseErrorKind::MalformedLiteral, pos),
        },
    }
}

fn number_token_at(s: &[u8], pos: usize) -> (r: Result<(usize, Expression), ParseError>)
    requires
        pos <= s@.len(),
    ensures
        expression_parsed(r, spec_number_token(s@, pos as int)),
        r matches Ok((end, _)) ==> pos < end <= s@.len(),
{
    let here: usize = skip_whitespace_at(s, pos);
    match number_at(s, here) {
        Ok((end, n)) => Ok((skip_whitespace_at(s, end), n)),
        Err(e) => Err(e),
    }
}

fn ident_at(s: &[u8], pos: usize) -> (r: Result<(usize, Expression), ParseError>)
    requires
        pos <= s@.len(),
    ensures
        expression_parsed(r, spec_ident(s@, pos as int)),
        r matches Ok((end, _)) ==> pos < end <= s@.len(),
{
    let here: usize = skip_whitespace_at(s, pos);
    match scan_identifier_at(s, here) {
        Some(end) => Ok((skip_whitespace_at(s, end), Expression::Ident(copy_range(s, here, end)))),
        None => failure(ParseErrorKind::NoMatch, here),
    }
}

fn func_call_at(s: &[u8], pos: usize, depth: usize) -> (r: Result<
    (usize, Expression),
    ParseError,
>)
    requires
        pos <= s@.len(),
    ensures
        expression_parsed(r, spec_func_call(s@, pos as int, depth as nat)),
        r matches Ok((end, _)) ==> pos < end <= s@.len(),
    decreases s@.len() - pos, 0int,
{
    let here: usize = skip_whitespace_at(s, pos);
    let name_end: usize = match scan_identifier_at(s, here) {
        Some(end) => end,
        None => {
            return failure(ParseErrorKind::NoMatch, here);
        },
    };
    let next: usize = skip_whitespace_at(s, name_end);
    if !(next < s.len() && s[next] == 0x28) {
        return failure(ParseErrorKind::NoMatch, next);
    }
    if depth >= MAX_NESTING_DEPTH {
        return failure(ParseErrorKind::DepthLimitExceeded, next);
    }
    let after: usize = skip_whitespace_at(s, next + 1);
    let (end, args) = match call_args_at(s, after, depth + 1) {
        Ok(found) => found,
        Err(e) => {
            return Err(e);
        },
    };
    if end < s.len() && s[end] == 0x29 {
        let name = copy_range(s, here, name_end);
        proof {
            lemma_fn_invoke_model(name, args);
        }
        Ok((skip_whitespace_at(s, end + 1), Expression::FnInvoke(name, args)))
    } else {
        failure(ParseErrorKind::NoMatch, end)
    }
}

fn call_args_at(s: &[u8], pos: usize, depth: usize) -> (r: Result<
    (usize, Vec<Expression>),
    ParseError,
>)
    requires
        pos <= s@.len(),
    ensures
        match r {
            Ok((end, args)) => spec_call_args(s@, pos as int, depth as nat, Seq::empty()) == Ok::<
                (int, Seq<ExpressionModel>),
                ParseError,
            >((end as int, expression_models(args@))) && pos <= end <= s@.len(),
            Err(e) => spec_call_args(s@, pos as int, depth as nat, Seq::empty()) == Err::<
                (int, Seq<ExpressionModel>),
                ParseError,
            >(e),
        },
    decreases s@.len() - pos, 6int,
{
    let mut args: Vec<Expression> = Vec::new();
    let mut at: usize = pos;
    assert(expression_models(args@) =~= Seq::empty());
    loop
        invariant
            pos <= at <= s@.len(),
            spec_call_args(s@, pos as int, depth as nat, Seq::empty()) == spec_call_args(
                s@,
                at as int,
                depth as nat,
                expression_models(args@),
            ),
        decreases s@.len() - at,
    {
        match expr_at(s, at, depth) {
            Err(e) => {
                if e.is_recoverable() {
                    return Ok((at, args));
                } else {
                    return Err(e);
                }
            },
            Ok((end, arg)) => {
                let next: usize = skip_whitespace_at(s, end);
                let after: usize = if next < s.len() && s[next] == 0x2c {
                    next + 1
                } else {
                    next
                };
                let onward: usize = skip_whitespace_at(s, after);
                assert(expression_models(args@.push(arg)) =~= expression_models(args@).push(
                    arg@,
                ));
                args.push(arg);
                at = onward;
            },
        }
    }
}

fn parens_at(s: &[u8], pos: usize, depth: usize) -> (r: Result<(usize, Expression), ParseError>)
    requires
        pos <= s@.len(),
    ensures
        expression_parsed(r, spec_parens(s@, pos as int, depth as nat)),
        r matches Ok((end, _)) ==> pos < end <= s@.len(),
    decreases s@.len() - pos, 0int,
{
    let here: usize = skip_whitespace_at(s, pos);
    if !(here < s.len() && s[here] == 0x28) {
        return failure(ParseErrorKind::NoMatch, here);
    }
    if depth >= MAX_NESTING_DEPTH {
        return failure(ParseErrorKind::DepthLimitExceeded, here);
    }
    match expr_at(s, here + 1, depth + 1) {
        Err(e) => Err(e),
        Ok((end, inner)) => {
            if end < s.len() && s[end] == 0x29 {
                Ok((skip_whitespace_at(s, end + 1), inner))
            } else {
                failure(ParseErrorKind::NoMatch, end)
            }
        },
    }
}

fn factor_at(s: &[u8], pos: usize, depth: usize) -> (r: Result<(usize, Expression), ParseError>)
    requires
        pos <= s@.len(),
    ensures
        expression_parsed(r, spec_factor(s@, pos as int, depth as nat)),
        r matches Ok((end, _)) ==> pos < end <= s@.len(),
    decreases s@.len() - pos, 1int,
{
    let e1: ParseError = match number_token_at(s, pos) {
        Ok(found) => {
            return Ok(found);
        },
        Err(e) => e,
    };
    if !e1.is_recoverable() {
        return Err(e1);
    }
    let e2: ParseError = match func_call_at(s, pos, depth) {
        Ok(found) => {
            return Ok(found);
        },
        Err(e) => e,
    };
    if !e2.is_recoverable() {
        return Err(e2);
    }
    let e3: ParseError = match ident_at(s, pos) {
        Ok(found) => {
            return Ok(found);
        },
        Err(e) => e,
    };
    if !e3.is_recoverable() {
        return Err(e3);
    }
    let e4: ParseError = match parens_at(s, pos, depth) {
        Ok(found) => {
            return Ok(found);
        },
        Err(e) => e,
    };
    if !e4.is_recoverable() {
        return Err(e4);
    }
    Err(furthest_of(furthest_of(furthest_of(e1, e2), e3), e4))
}

fn term_at(s: &[u8], pos: usize, depth: usize) -> (r: Result<(usize, Expression), ParseError>)
    requires
        pos <= s@.len(),
    ensures
        expression_parsed(r, spec_term(s@, pos as int, depth as nat)),
        r matches Ok((end, _)) ==> pos < end <= s@.len(),
    decreases s@.len() - pos, 3int,
{
    let (first_end, first) = match factor_at(s, pos, depth) {
        Ok(found) => found,
        Err(e) => {
            return Err(e);
        },
    };
    let mut at: usize = first_end;
    let mut acc: Expression = first;
    loop
        invariant
            pos < at <= s@.len(),
            spec_term(s@, pos as int, depth as nat) == spec_term_tail(
                s@,
                at as int,
                depth as nat,
                acc@,
            ),
        decreases s@.len() - at,
    {
        let here: usize = skip_whitespace_at(s, at);
        if !(here < s.len() && (s[here] == 0x2a || s[here] == 0x2f)) {
            return Ok((at, acc));
        }
        let next: usize = skip_whitespace_at(s, here + 1);
        match factor_at(s, next, depth) {
            Err(e) => {
                if e.is_recoverable() {
                    return Ok((at, acc));
                } else {
                    return Err(e);
                }
            },
            Ok((end, rhs)) => {
                acc = if s[here] == 0x2a {
                    Expression::Mul(Box::new(acc), Box::new(rhs))
                } else {
                    Expression::Div(Box::new(acc), Box::new(rhs))
                };
                at = end;
            },
        }
    }
}

/// Reads an expression at `pos`, at nesting depth `depth`.
pub fn expr_at(s: &[u8], pos: usize, depth: usize) -> (r: Result<(usize, Expression), ParseError>)
    requires
        pos <= s@.len(),
    ensures
        expression_parsed(r, spec_expr(s@, pos as int, depth as nat)),
        r matches Ok((end, _)) ==> pos < end <= s@.len(),
    decreases s@.len() - pos, 5int,
{
    let (first_end, first) = match term_at(s, pos, depth) {
        Ok(found) => found,
        Err(e) => {
            return Err(e);
        },
    };
    let mut at: usize = first_end;
    let mut acc: Expression = first;
    loop
        invariant
            pos < at <= s@.len(),
            spec_expr(s@, pos as int, depth as nat) == spec_expr_tail(
                s@,
                at as int,
                depth as nat,
                acc@,
            ),
        decreases s@.len() - at,
    {
        let here: usize = skip_whitespace_at(s, at);
        if !(here < s.len() && (s[here] == 0x2b || s[here] == 0x2d)) {
            return Ok((at, acc));
        }
        let next: usize = skip_whitespace_at(s, here + 1);
        match term_at(s, next, depth) {
            Err(e) => {
                if e.is_recoverable() {
                    return Ok((at, acc));
                } else {
                    return Err(e);
                }
            },
            Ok((end, rhs)) => {
                acc = if s[here] == 0x2b {
                    Expression::Add(Box::new(acc), Box::new(rhs))
                } else {
                    Expression::Sub(Box::new(acc), Box::new(rhs))
                };
                at = end;
            },
        }
    }
}

/// The model of a block is the models of its commands.
pub proof fn lemma_block_model(commands: Vec<Command>)
    ensures
        Arg::Block(commands)@ == ArgModel::Block(command_models(commands@)),
{
    assert(arg_model(Arg::Block(commands))->Block_0 =~= command_models(commands@));
}

/// The model of an invocation is the models of its arguments.
pub proof fn lemma_com_model(args: Vec<Arg>)
    ensures
        Command::Com(args)@ == CommandModel::Com(arg_models(args@)),
{
    assert(command_model(Command::Com(args))->Com_0 =~= arg_models(args@));
}

/// Whether the parser's result `r` is what the grammar reads, `m`.
pub open spec fn arg_parsed(r: Result<(usize, Arg), ParseError>, m: Parsed<ArgModel>) -> bool {
    match r {
        Ok((end, a)) => m == Ok::<(int, ArgModel), ParseError>((end as int, a@)),
        Err(err) => m == Err::<(int, ArgModel), ParseError>(err),
    }
}

/// Whether the parser's result `r` is what the grammar reads, `m`.
pub open spec fn command_parsed(
    r: Result<(usize, Command), ParseError>,
    m: Parsed<CommandModel>,
) -> bool {
    match r {
        Ok((end, c)) => m == Ok::<(int, CommandModel), ParseError>((end as int, c@)),
        Err(err) => m == Err::<(int, CommandModel), ParseError>(err),
    }
}

/// Whether the parser's result `r` is what the grammar reads, `m`.
pub open spec fn commands_parsed(
    r: Result<(usize, Vec<Command>), ParseError>,
    m: Parsed<Seq<CommandModel>>,
) -> bool {
    match r {
        Ok((end, v)) => m == Ok::<(int, Seq<CommandModel>), ParseError>(
            (end as int, command_models(v@)),
        ),
        Err(err) => m == Err::<(int, Seq<CommandModel>), ParseError>(err),
    }
}

/// Reads a block at `pos`, at nesting depth `depth`.
pub fn block_at(s: &[u8], pos: usize, depth: usize) -> (r: Result<(usize, Arg), ParseError>)
    requires
        pos <= s@.len(),
    ensures
        arg_parsed(r, spec_block(s@, pos as int, depth as nat)),
        r matches Ok((end, _)) ==> pos < end <= s@.len(),
    decreases s@.len() - pos, 0int,
{
    if !(pos < s.len() && s[pos] == 0x7b) {
        return failure(ParseErrorKind::NoMatch, pos);
    }
    if depth >= MAX_NESTING_DEPTH {
        return failure(ParseErrorKind::DepthLimitExceeded, pos);
    }
    let (end, commands) = match commands_at(s, pos + 1, depth + 1) {
        Ok(found) => found,
        Err(e) => {
            return Err(e);
        },
    };
    if end < s.len() && s[end] == 0x7d {
        proof {
            lemma_block_model(commands);
        }
        Ok((end + 1, Arg::Block(commands)))
    } else if skip_whitespace_at(s, end) == s.len() {
        failure(ParseErrorKind::UnterminatedBlock, pos)
    } else {
        failure(ParseErrorKind::NoMatch, end)
    }
}

fn identifier_arg_at(s: &[u8], pos: usize) -> (r: Result<(usize, Arg), ParseError>)
    requires
        pos <= s@.len(),
    ensures
        arg_parsed(r, spec_identifier_arg(s@, pos as int)),
        r matches Ok((end, _)) ==> pos < end <= s@.len(),
{
    match scan_identifier_at(s, pos) {
        Some(end) => Ok((end, Arg::Str(copy_range(s, pos, end)))),
        None => failure(ParseErrorKind::NoMatch, pos),
    }
}

fn arg_at(s: &[u8], pos: usize, depth: usize) -> (r: Result<(usize, Arg), ParseError>)
    requires
        pos <= s@.len(),
    ensures
        arg_parsed(r, spec_arg(s@, pos as int, depth as nat)),
        r matches Ok((end, _)) ==> pos < end <= s@.len(),
    decreases s@.len() - pos, 1int,
{
    let here: usize = skip_blank_at(s, pos);
    let e1: ParseError = match block_at(s, here, depth) {
        Ok((end, block)) => {
            return Ok((skip_blank_at(s, end), block));
        },
        Err(e) => e,
    };
    if !e1.is_recoverable() {
        return Err(e1);
    }
    match identifier_arg_at(s, here) {
        Ok((end, name)) => Ok((skip_blank_at(s, end), name)),
        Err(e2) => Err(furthest_of(e1, e2)),
    }
}

fn invocation_at(s: &[u8], pos: usize, depth: usize) -> (r: Result<(usize, Command), ParseError>)
    requires
        pos <= s@.len(),
    ensures
        command_parsed(r, spec_invocation(s@, pos as int, depth as nat)),
        r matches Ok((end, _)) ==> pos < end <= s@.len(),
    decreases s@.len() - pos, 3int,
{
    let (first_end, first) = match arg_at(s, pos, depth) {
        Ok(found) => found,
        Err(e) => {
            return Err(e);
        },
    };
    let mut args: Vec<Arg> = Vec::new();
    let ghost first_model = first@;
    assert(arg_models(args@.push(first)) =~= seq![first_model]);
    args.push(first);
    let mut at: usize = first_end;
    loop
        invariant
            pos < first_end <= at <= s@.len(),
            spec_arg(s@, pos as int, depth as nat) == Ok::<(int, ArgModel), ParseError>(
                (first_end as int, first_model),
            ),
            spec_more_args(s@, first_end as int, depth as nat, seq![first_model]) == spec_more_args(
                s@,
                at as int,
                depth as nat,
                arg_models(args@),
            ),
        decreases s@.len() - at,
    {
        match arg_at(s, at, depth) {
            Err(e) => {
                if e.is_recoverable() {
                    proof {
                        lemma_com_model(args);
                    }
                    return Ok((at, Command::Com(args)));
                } else {
                    return Err(e);
                }
            },
            Ok((end, arg)) => {
                assert(arg_models(args@.push(arg)) =~= arg_models(args@).push(arg@));
                args.push(arg);
                at = end;
            },
        }
    }
}

fn definition_at(s: &[u8], pos: usize, depth: usize) -> (r: Result<(usize, Command), ParseError>)
    requires
        pos <= s@.len(),
    ensures
        command_parsed(r, spec_definition(s@, pos as int, depth as nat)),
        r matches Ok((end, _)) ==> pos < end <= s@.len(),
{
    let name_end: usize = match scan_identifier_at(s, pos) {
        Some(end) => end,
        None => {
            return failure(ParseErrorKind::NoMatch, pos);
        },
    };
    let next: usize = skip_blank_at(s, name_end);
    if !(next < s.len() && s[next] == 0x3a && next + 1 < s.len() && s[next + 1] == 0x3d) {
        return failure(ParseErrorKind::NoMatch, next);
    }
    let after: usize = skip_blank_at(s, next + 2);
    match expr_at(s, after, depth) {
        Ok((end, value)) => Ok((end, Command::Def(copy_range(s, pos, name_end), value))),
        Err(e) => Err(e),
    }
}

fn property_value_at(s: &[u8], pos: usize, depth: usize) -> (r: Result<
    (usize, Property),
    ParseError,
>)
    requires
        pos <= s@.len(),
    ensures
        match r {
            Ok((end, v)) => spec_property_value(s@, pos as int, depth as nat) == Ok::<
                (int, PropertyModel),
                ParseError,
            >((end as int, v@)) && pos < end <= s@.len(),
            Err(e) => spec_property_value(s@, pos as int, depth as nat) == Err::<
                (int, PropertyModel),
                ParseError,
            >(e),
        },
{
    let e1: ParseError = match scan_quoted_string_at(s, pos) {
        Ok((end, text)) => {
            return Ok((end, Property::Str(text)));
        },
        Err(e) => e,
    };
    if !e1.is_recoverable() {
        return Err(e1);
    }
    match expr_at(s, pos, depth) {
        Ok((end, value)) => Ok((end, Property::Expr(value))),
        Err(e2) => {
            if e2.is_recoverable() {
                Err(furthest_of(e1, e2))
            } else {
                Err(e2)
            }
        },
    }
}

fn property_at(s: &[u8], pos: usize, depth: usize) -> (r: Result<(usize, Command), ParseError>)
    requires
        pos <= s@.len(),
    ensures
        command_parsed(r, spec_property(s@, pos as int, depth as nat)),
        r matches Ok((end, _)) ==> pos < end <= s@.len(),
{
    let name_end: usize = match scan_identifier_at(s, pos) {
        Some(end) => end,
        None => {
            return failure(ParseErrorKind::NoMatch, pos);
        },
    };
    let next: usize = skip_blank_at(s, name_end);
    if !(next < s.len() && s[next] == 0x3a) {
        return failure(ParseErrorKind::NoMatch, next);
    }
    let after: usize = skip_blank_at(s, next + 1);
    match property_value_at(s, after, depth) {
        Ok((end, value)) => Ok((end, Command::Prop(copy_range(s, pos, name_end), value))),
        Err(e) => Err(e),
    }
}

fn statement_at(s: &[u8], pos: usize, depth: usize) -> (r: Result<(usize, Command), ParseError>)
    requires
        pos <= s@.len(),
    ensures
        command_parsed(r, spec_statement(s@, pos as int, depth as nat)),
        r matches Ok((end, _)) ==> pos < end <= s@.len(),
    decreases s@.len() - pos, 4int,
{
    let e1: ParseError = match definition_at(s, pos, depth) {
        Ok(found) => {
            return Ok(found);
        },
        Err(e) => e,
    };
    if !e1.is_recoverable() {
        return Err(e1);
    }
    let e2: ParseError = match property_at(s, pos, depth) {
        Ok(found) => {
            return Ok(found);
        },
        Err(e) => e,
    };
    if !e2.is_recoverable() {
        return Err(e2);
    }
    match invocation_at(s, pos, depth) {
        Ok(found) => Ok(found),
        Err(e3) => {
            if e3.is_recoverable() {
                Err(furthest_of(furthest_of(e1, e2), e3))
            } else {
                Err(e3)
            }
        },
    }
}

/// Reads a command at `pos`, at nesting depth `depth`.
pub fn command_at(s: &[u8], pos: usize, depth: usize) -> (r: Result<(usize, Command), ParseError>)
    requires
        pos <= s@.len(),
    ensures
        command_parsed(r, spec_command(s@, pos as int, depth as nat)),
        r matches Ok((end, _)) ==> pos < end <= s@.len(),
    decreases s@.len() - pos, 5int,
{
    let here: usize = skip_newlines_at(s, pos);
    match statement_at(s, here, depth) {
        Ok((end, command)) => Ok((skip_newlines_at(s, end), command)),
        Err(e) => Err(e),
    }
}

/// Reads commands from `pos`, as many as there are, at nesting depth
/// `depth`.
pub fn commands_at(s: &[u8], pos: usize, depth: usize) -> (r: Result<
    (usize, Vec<Command>),
    ParseError,
>)
    requires
        pos <= s@.len(),
    ensures
        commands_parsed(r, spec_commands(s@, pos as int, depth as nat, Seq::empty())),
        r matches Ok((end, _)) ==> pos <= end <= s@.len(),
    decreases s@.len() - pos, 6int,
{
    let mut commands: Vec<Command> = Vec::new();
    let mut at: usize = pos;
    assert(command_models(commands@) =~= Seq::empty());
    loop
        invariant
            pos <= at <= s@.len(),
            spec_commands(s@, pos as int, depth as nat, Seq::empty()) == spec_commands(
                s@,
                at as int,
                depth as nat,
                command_models(commands@),
            ),
        decreases s@.len() - at,
    {
        match command_at(s, at, depth) {
            Err(e) => {
                if e.is_recoverable() {
                    return Ok((at, commands));
                } else {
                    return Err(e);
                }
            },
            Ok((end, command)) => {
                assert(command_models(commands@.push(command)) =~= command_models(
                    commands@,
                ).push(command@));
                commands.push(command);
                at = end;
            },
        }
    }
}

/// Reads the text of the block that opens at `pos`.
pub fn block_str_at(s: &[u8], pos: usize) -> (r: Result<(usize, Vec<u8>), ParseError>)
    requires
        pos <= s@.len(),
    ensures
        match r {
            Ok((end, text)) => spec_block_str(s@, pos as int) == Ok::<(int, Seq<u8>), ParseError>(
                (end as int, text@),
            ) && pos + 2 <= end <= s@.len(),
            Err(e) => spec_block_str(s@, pos as int) == Err::<(int, Seq<u8>), ParseError>(e),
        },
{
    if !(pos < s.len() && s[pos] == 0x7b) {
        return failure(ParseErrorKind::NoMatch, pos);
    }
    let mut text: Vec<u8> = Vec::new();
    let mut level: usize = 0;
    let mut at: usize = pos + 1;
    while at < s.len()
        invariant
            pos < at <= s@.len(),
            level <= at - pos - 1,
            spec_block_str(s@, pos as int) == spec_block_text(
                s@,
                pos as int,
                at as int,
                level as nat,
                text@,
            ),
        decreases s@.len() - at,
    {
        let b: u8 = s[at];
        if b == 0x7b {
            level = level + 1;
        } else if b == 0x7d {
            if level == 0 {
                return Ok((at + 1, text));
            }
            level = level - 1;
        } else {
            text.push(b);
        }
        at = at + 1;
    }
    failure(ParseErrorKind::UnterminatedBlock, pos)
}

/// What is left of `input` from `end` on, with the value that was read.
fn with_rest<T>(input: &[u8], found: Result<(usize, T), ParseError>) -> (r: Result<
    (&[u8], T),
    ParseError,
>)
    requires
        found matches Ok((end, _)) ==> end <= input@.len(),
    ensures
        match (r, found) {
            (Ok((rest, v)), Ok((end, w))) => rest@ == input@.skip(end as int) && v == w,
            (Err(e), Err(f)) => e == f,
            _ => false,
        },
{
    match found {
        Ok((end, v)) => Ok((slice_subrange(input, end, input.len()), v)),
        Err(e) => Err(e),
    }
}

/// Reads a number literal at the start of `input`, with no whitespace
/// around it: what follows the literal, and the literal.
///
/// Fails with `NoMatch` where `input` starts with no sign, digit or point,
/// and with `MalformedLiteral` where the digits and points that follow make
/// no number.
pub fn number(input: &[u8]) -> (r: Result<(&[u8], Expression), ParseError>)
    ensures
        match r {
            Ok((rest, e)) => spec_number(input@, 0) matches Ok((end, m)) && e@ == m && 0 < end
                <= input@.len() && rest@ == input@.skip(end),
            Err(err) => spec_number(input@, 0) == Err::<(int, ExpressionModel), ParseError>(err),
        },
{
    with_rest(input, number_at(input, 0))
}

/// Reads an expression at the start of `input`: what follows it, and the
/// expression.
pub fn expr(input: &[u8]) -> (r: Result<(&[u8], Expression), ParseError>)
    ensures
        match r {
            Ok((rest, e)) => spec_expr(input@, 0, 0) matches Ok((end, m)) && e@ == m && 0 < end
                <= input@.len() && rest@ == input@.skip(end),
            Err(err) => spec_expr(input@, 0, 0) == Err::<(int, ExpressionModel), ParseError>(err),
        },
{
    with_rest(input, expr_at(input, 0, 0))
}

/// Reads the text inside the block at the start of `input`: what follows
/// the brace that closes the block, and every byte between the two braces
/// that is no brace itself.
///
/// Fails with `NoMatch` where `input` starts with no opening brace, and
/// with `UnterminatedBlock` where no brace closes the block.
pub fn block_str(input: &[u8]) -> (r: Result<(&[u8], Vec<u8>), ParseError>)
    ensures
        match r {
            Ok((rest, text)) => spec_block_str(input@, 0) matches Ok((end, m)) && text@ == m && 2
                <= end <= input@.len() && rest@ == input@.skip(end) && closes_block(
                input@,
                0,
                end - 1,
            ) && text@ == without(input@.subrange(1, end - 1), ByteClass::Brace),
            Err(err) => spec_block_str(input@, 0) == Err::<(int, Seq<u8>), ParseError>(err)
                && err.position == 0 && if is_byte_at(input@, 0, 0x7b) {
                err.kind == ParseErrorKind::UnterminatedBlock && forall|c: int|
                    !closes_block(input@, 0, c)
            } else {
                err.kind == ParseErrorKind::NoMatch
            },
        },
{
    proof {
        lemma_block_str(input@, 0);
    }
    with_rest(input, block_str_at(input, 0))
}

/// Reads a block of commands at the start of `input`: what follows the
/// closing brace, and the block.
pub fn block(input: &[u8]) -> (r: Result<(&[u8], Arg), ParseError>)
    ensures
        match r {
            Ok((rest, a)) => spec_block(input@, 0, 0) matches Ok((end, m)) && a@ == m && 0 < end
                <= input@.len() && rest@ == input@.skip(end),
            Err(err) => spec_block(input@, 0, 0) == Err::<(int, ArgModel), ParseError>(err),
        },
{
    with_rest(input, block_at(input, 0, 0))
}

/// Reads one command at the start of `input`, with the line breaks around
/// it: what follows, and the command.
pub fn command(input: &[u8]) -> (r: Result<(&[u8], Command), ParseError>)
    ensures
        match r {
            Ok((rest, c)) => spec_command(input@, 0, 0) matches Ok((end, m)) && c@ == m && 0 < end
                <= input@.len() && rest@ == input@.skip(end),
            Err(err) => spec_command(input@, 0, 0) == Err::<(int, CommandModel), ParseError>(err),
        },
{
    with_rest(input, command_at(input, 0, 0))
}

/// Reads commands from the start of `input`, as many as there are: what
/// follows the last one, and the commands in order. Input that starts
/// with no command gives no commands and is left whole.
pub fn commands(input: &[u8]) -> (r: Result<(&[u8], Vec<Command>), ParseError>)
    ensures
        match r {
            Ok((rest, v)) => spec_commands(input@, 0, 0, Seq::empty()) matches Ok((end, m))
                && command_models(v@) == m && 0 <= end <= input@.len() && rest@ == input@.skip(end),
            Err(err) => spec_commands(input@, 0, 0, Seq::empty()) == Err::<
                (int, Seq<CommandModel>),
                ParseError,
            >(err),
        },
{
    with_rest(input, commands_at(input, 0, 0))
}

/// Reads a whole document: its commands in order.
///
/// Only whitespace may follow the last command. Where more follows, the
/// error is `UnexpectedInput`, at the furthest position that a rule tried
/// on the rest reached.
pub fn parse_document(input: &[u8]) -> (r: Result<Vec<Command>, ParseError>)
    ensures
        match r {
            Ok(v) => spec_document(input@) == Ok::<Seq<CommandModel>, ParseError>(
                command_models(v@),
            ),
            Err(err) => spec_document(input@) == Err::<Seq<CommandModel>, ParseError>(err),
        },
{
    let (end, found) = match commands_at(input, 0, 0) {
        Ok(found) => found,
        Err(e) => {
            return Err(e);
        },
    };
    if skip_whitespace_at(input, end) == input.len() {
        return Ok(found);
    }
    match command_at(input, end, 0) {
        Err(e) => Err(ParseError { kind: ParseErrorKind::UnexpectedInput, position: e.position }),
        Ok(_) => Err(ParseError { kind: ParseErrorKind::UnexpectedInput, position: end }),
    }
}

} // verus!
