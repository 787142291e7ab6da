//! Every expression can be written, and what is written is read back.
//!
//! `render` writes an expression as text, with both operands of every
//! operator in parentheses and a comma after every argument. The grammar
//! reads that text as the expression it was written from: this ties the
//! grammar to the trees it is meant to build.

use vstd::prelude::*;
use vstd::slice::slice_to_vec;
use crate::bytes::{lemma_run_end, lemma_run_end_unique, run_end, ByteClass};
use crate::error::{no_match, ParseError};
use crate::grammar::{
    is_byte_at, spec_call_args, spec_expr, spec_expr_tail, spec_factor, spec_func_call,
    spec_ident, spec_number, spec_number_token, spec_parens, spec_term, spec_term_tail,
    MAX_NESTING_DEPTH,
};
use crate::lexer::{identifier_end, number_end, skip_ws};
use crate::model::ExpressionModel;
use crate::number::is_decimal_literal;
use crate::parser::{expression_models, lemma_fn_invoke_model, Expression};

verus! {

/// Whether `name` is an identifier, whole.
pub open spec fn is_identifier(name: Seq<u8>) -> bool {
    identifier_end(name, 0) == Some(name.len() as int)
}

/// Whether `text` is a number literal, whole.
pub open spec fn is_number_text(text: Seq<u8>) -> bool {
    number_end(text, 0) == Some(text.len() as int) && is_decimal_literal(text)
}

/// Whether the expression can be written: its names are identifiers and
/// its literals are number literals.
pub open spec fn writable(e: ExpressionModel) -> bool
    decreases e, 1int,
{
    match e {
        ExpressionModel::Ident(name) => is_identifier(name),
        ExpressionModel::NumLiteral(text) => is_number_text(text),
        ExpressionModel::FnInvoke(name, args) => is_identifier(name) && writable_from(args, 0),
        ExpressionModel::Add(l, r) => writable(*l) && writable(*r),
        ExpressionModel::Sub(l, r) => writable(*l) && writable(*r),
        ExpressionModel::Mul(l, r) => writable(*l) && writable(*r),
        ExpressionModel::Div(l, r) => writable(*l) && writable(*r),
    }
}

/// Whether the arguments from `i` on can be written.
pub open spec fn writable_from(args: Seq<ExpressionModel>, i: int) -> bool
    decreases args, args.len() - i,
{
    if 0 <= i < args.len() {
        writable(args[i]) && writable_from(args, i + 1)
    } else {
        true
    }
}

/// The larger of two numbers.
pub open spec fn larger(a: nat, b: nat) -> nat {
    if a >= b {
        a
    } else {
        b
    }
}

/// How deep the text of the expression nests parentheses and argument
/// lists.
pub open spec fn nesting(e: ExpressionModel) -> nat
    decreases e, 1int,
{
    match e {
        ExpressionModel::Ident(_) => 0,
        ExpressionModel::NumLiteral(_) => 0,
        ExpressionModel::FnInvoke(_, args) => 1 + nesting_from(args, 0),
        ExpressionModel::Add(l, r) => 1 + larger(nesting(*l), nesting(*r)),
        ExpressionModel::Sub(l, r) => 1 + larger(nesting(*l), nesting(*r)),
        ExpressionModel::Mul(l, r) => 1 + larger(nesting(*l), nesting(*r)),
        ExpressionModel::Div(l, r) => 1 + larger(nesting(*l), nesting(*r)),
    }
}

/// How deep the texts of the arguments from `i` on nest.
pub open spec fn nesting_from(args: Seq<ExpressionModel>, i: int) -> nat
    decreases args, args.len() - i,
{
    if 0 <= i < args.len() {
        larger(nesting(args[i]), nesting_from(args, i + 1))
    } else {
        0
    }
}

/// `x` in parentheses.
pub open spec fn wrapped(x: Seq<u8>) -> Seq<u8> {
    seq![0x28u8] + x + seq![0x29u8]
}

/// The text of the expression.
pub open spec fn render(e: ExpressionModel) -> Seq<u8>
    decreases e, 1int,
{
    match e {
        ExpressionModel::Ident(name) => name,
        ExpressionModel::NumLiteral(text) => text,
        ExpressionModel::FnInvoke(name, args) => name + wrapped(render_from(args, 0)),
        ExpressionModel::Add(l, r) => wrapped(render(*l)) + seq![0x2bu8] + wrapped(render(*r)),
        ExpressionModel::Sub(l, r) => wrapped(render(*l)) + seq![0x2du8] + wrapped(render(*r)),
        ExpressionModel::Mul(l, r) => wrapped(render(*l)) + seq![0x2au8] + wrapped(render(*r)),
        ExpressionModel::Div(l, r) => wrapped(render(*l)) + seq![0x2fu8] + wrapped(render(*r)),
    }
}

/// The text of the arguments from `i` on, each with a comma after it.
pub open spec fn render_from(args: Seq<ExpressionModel>, i: int) -> Seq<u8>
    decreases args, args.len() - i,
{
    if 0 <= i < args.len() {
        render(args[i]) + seq![0x2cu8] + render_from(args, i + 1)
    } else {
        Seq::empty()
    }
}

/// Whether the text `x` stands in `s` at `pos`.
pub open spec fn stands_at(s: Seq<u8>, pos: int, x: Seq<u8>) -> bool {
    0 <= pos && pos + x.len() <= s.len() && s.subrange(pos, pos + x.len()) == x
}

/// Whether an expression that ends before `end` has nothing after it
/// that could go on with it: the input ends there, or a closing
/// parenthesis or a comma stands there.
pub open spec fn stops_at(s: Seq<u8>, end: int) -> bool {
    end == s.len() || is_byte_at(s, end, 0x29) || is_byte_at(s, end, 0x2c)
}

/// Whether no whitespace stands at `at`.
pub open spec fn tight_at(s: Seq<u8>, at: int) -> bool {
    at == s.len() || (0 <= at < s.len() && !ByteClass::Whitespace.has(s[at]))
}

proof fn lemma_tight(s: Seq<u8>, at: int)
    requires
        0 <= at <= s.len(),
        tight_at(s, at),
    ensures
        skip_ws(s, at) == at,
{
    lemma_run_end_unique(s, at, ByteClass::Whitespace, at);
}

/// The two parts of a text that stands in `s` stand in `s`, one after
/// the other.
proof fn lemma_parts(s: Seq<u8>, pos: int, a: Seq<u8>, b: Seq<u8>)
    requires
        stands_at(s, pos, a + b),
    ensures
        stands_at(s, pos, a),
        stands_at(s, pos + a.len(), b),
{
    let whole = a + b;
    assert(s.subrange(pos, pos + a.len()) =~= a) by {
        assert forall|k: int| 0 <= k < a.len() implies s[pos + k] == a[k] by {
            assert(s.subrange(pos, pos + whole.len())[k] == whole[k]);
        }
    }
    assert(s.subrange(pos + a.len(), pos + a.len() + b.len()) =~= b) by {
        assert forall|k: int| 0 <= k < b.len() implies s[pos + a.len() + k] == b[k] by {
            assert(s.subrange(pos, pos + whole.len())[a.len() + k] == whole[a.len() + k]);
        }
    }
}

/// A run that fills a text fills it wherever the text stands, where the
/// byte after it is outside the class.
proof fn lemma_run_in_place(s: Seq<u8>, pos: int, x: Seq<u8>, class: ByteClass)
    requires
        stands_at(s, pos, x),
        x.len() > 0,
        run_end(x, 1, class) == x.len(),
        pos + x.len() < s.len() ==> !class.has(s[pos + x.len()]),
    ensures
        run_end(s, pos + 1, class) == pos + x.len(),
        s[pos] == x[0],
{
    lemma_run_end(x, 1, class);
    assert(s.subrange(pos, pos + x.len())[0] == x[0]);
    assert forall|k: int| pos + 1 <= k < pos + x.len() implies class.has(#[trigger] s[k]) by {
        assert(s.subrange(pos, pos + x.len())[k - pos] == x[k - pos]);
    }
    lemma_run_end_unique(s, pos + 1, class, pos + x.len());
}

/// Where an expression stops, nothing goes on with it: no whitespace,
/// no operator, no parenthesis.
proof fn lemma_stop(s: Seq<u8>, end: int)
    requires
        0 <= end <= s.len(),
        stops_at(s, end),
    ensures
        skip_ws(s, end) == end,
        tight_at(s, end),
        end < s.len() ==> !ByteClass::IdentContinue.has(s[end]) && !ByteClass::NumberContinue.has(
            s[end],
        ),
{
    lemma_tight(s, end);
}

/// A factor that stops is a term and an expression.
proof fn lemma_factor_is_expr(s: Seq<u8>, pos: int, depth: nat, end: int, e: ExpressionModel)
    requires
        0 <= pos < end <= s.len(),
        spec_factor(s, pos, depth) == Ok::<(int, ExpressionModel), ParseError>((end, e)),
        stops_at(s, end),
    ensures
        spec_term(s, pos, depth) == Ok::<(int, ExpressionModel), ParseError>((end, e)),
        spec_expr(s, pos, depth) == Ok::<(int, ExpressionModel), ParseError>((end, e)),
{
    lemma_stop(s, end);
    assert(spec_term_tail(s, end, depth, e) == Ok::<(int, ExpressionModel), ParseError>((end, e)));
    assert(spec_expr_tail(s, end, depth, e) == Ok::<(int, ExpressionModel), ParseError>((end, e)));
}

/// An identifier that stands in the input and stops is read as a
/// reference.
proof fn lemma_ident_reads(s: Seq<u8>, pos: int, depth: nat, name: Seq<u8>)
    requires
        is_identifier(name),
        stands_at(s, pos, name),
        stops_at(s, pos + name.len()),
    ensures
        name.len() > 0,
        spec_factor(s, pos, depth) == Ok::<(int, ExpressionModel), ParseError>(
            (pos + name.len(), ExpressionModel::Ident(name)),
        ),
{
    let end = pos + name.len();
    lemma_stop(s, end);
    lemma_run_in_place(s, pos, name, ByteClass::IdentContinue);
    assert(ByteClass::IdentStart.has(s[pos]));
    lemma_tight(s, pos);
    assert(identifier_end(s, pos) == Some(end));
    assert(number_end(s, pos) is None);
    assert(spec_number_token(s, pos) == Err::<(int, ExpressionModel), ParseError>(no_match(pos)));
    assert(spec_func_call(s, pos, depth) == Err::<(int, ExpressionModel), ParseError>(
        no_match(end),
    ));
    assert(spec_ident(s, pos) == Ok::<(int, ExpressionModel), ParseError>(
        (end, ExpressionModel::Ident(name)),
    ));
}

/// A number literal that stands in the input and stops is read as
/// itself.
proof fn lemma_number_reads(s: Seq<u8>, pos: int, depth: nat, text: Seq<u8>)
    requires
        is_number_text(text),
        stands_at(s, pos, text),
        stops_at(s, pos + text.len()),
    ensures
        text.len() > 0,
        spec_factor(s, pos, depth) == Ok::<(int, ExpressionModel), ParseError>(
            (pos + text.len(), ExpressionModel::NumLiteral(text)),
        ),
{
    let end = pos + text.len();
    lemma_stop(s, end);
    lemma_run_in_place(s, pos, text, ByteClass::NumberContinue);
    assert(ByteClass::NumberStart.has(s[pos]));
    lemma_tight(s, pos);
    assert(number_end(s, pos) == Some(end));
    assert(spec_number(s, pos) == Ok::<(int, ExpressionModel), ParseError>(
        (end, ExpressionModel::NumLiteral(text)),
    ));
    assert(spec_number_token(s, pos) == Ok::<(int, ExpressionModel), ParseError>(
        (end, ExpressionModel::NumLiteral(text)),
    ));
}

/// Where a text in parentheses stands, the parentheses stand around the
/// text.
proof fn lemma_wrapped_parts(s: Seq<u8>, pos: int, x: Seq<u8>)
    requires
        stands_at(s, pos, wrapped(x)),
    ensures
        is_byte_at(s, pos, 0x28),
        stands_at(s, pos + 1, x),
        is_byte_at(s, pos + 1 + x.len(), 0x29),
        wrapped(x).len() == x.len() + 2,
{
    let open = seq![0x28u8];
    let close = seq![0x29u8];
    lemma_parts(s, pos, open + x, close);
    lemma_parts(s, pos, open, x);
    assert(s.subrange(pos, pos + 1)[0] == open[0]);
    assert(s.subrange(pos + 1 + x.len(), pos + 2 + x.len())[0] == close[0]);
}

/// No expression starts at a closing parenthesis.
proof fn lemma_no_expr_at_close(s: Seq<u8>, pos: int, depth: nat)
    requires
        is_byte_at(s, pos, 0x29),
    ensures
        spec_expr(s, pos, depth) matches Err(e) && e.recoverable(),
{
    lemma_tight(s, pos);
    assert(number_end(s, pos) is None);
    assert(identifier_end(s, pos) is None);
    assert(spec_number_token(s, pos) == Err::<(int, ExpressionModel), ParseError>(no_match(pos)));
    assert(spec_func_call(s, pos, depth) == Err::<(int, ExpressionModel), ParseError>(
        no_match(pos),
    ));
    assert(spec_ident(s, pos) == Err::<(int, ExpressionModel), ParseError>(no_match(pos)));
    assert(spec_parens(s, pos, depth) == Err::<(int, ExpressionModel), ParseError>(no_match(pos)));
    assert(spec_factor(s, pos, depth) matches Err(e) && e.recoverable());
    assert(spec_term(s, pos, depth) matches Err(e) && e.recoverable());
}

/// An expression in parentheses, with no whitespace after it, is read as
/// a factor.
proof fn lemma_wrapped_reads(s: Seq<u8>, pos: int, depth: nat, x: ExpressionModel)
    requires
        writable(x),
        depth + 1 + nesting(x) <= MAX_NESTING_DEPTH,
        stands_at(s, pos, wrapped(render(x))),
        tight_at(s, pos + render(x).len() + 2),
    ensures
        spec_factor(s, pos, depth) == Ok::<(int, ExpressionModel), ParseError>(
            (pos + render(x).len() + 2, x),
        ),
    decreases x, 4int,
{
    let inner = render(x);
    lemma_wrapped_parts(s, pos, inner);
    let close = pos + 1 + inner.len();
    lemma_expr_reads(s, pos + 1, depth + 1, x);
    lemma_tight(s, pos);
    lemma_tight(s, close + 1);
    assert(number_end(s, pos) is None);
    assert(identifier_end(s, pos) is None);
    assert(spec_number_token(s, pos) == Err::<(int, ExpressionModel), ParseError>(no_match(pos)));
    assert(spec_func_call(s, pos, depth) == Err::<(int, ExpressionModel), ParseError>(
        no_match(pos),
    ));
    assert(spec_ident(s, pos) == Err::<(int, ExpressionModel), ParseError>(no_match(pos)));
    assert(spec_parens(s, pos, depth) == Ok::<(int, ExpressionModel), ParseError>((close + 1, x)));
}

/// The arguments of a call, each with its comma, are read up to the
/// closing parenthesis.
proof fn lemma_args_read(
    s: Seq<u8>,
    pos: int,
    depth: nat,
    args: Seq<ExpressionModel>,
    i: int,
    acc: Seq<ExpressionModel>,
)
    requires
        0 <= i <= args.len(),
        writable_from(args, i),
        depth + nesting_from(args, i) <= MAX_NESTING_DEPTH,
        stands_at(s, pos, render_from(args, i)),
        is_byte_at(s, pos + render_from(args, i).len(), 0x29),
    ensures
        tight_at(s, pos),
        spec_call_args(s, pos, depth, acc) == Ok::<(int, Seq<ExpressionModel>), ParseError>(
            (pos + render_from(args, i).len(), acc + args.skip(i)),
        ),
    decreases args, args.len() - i,
{
    if i == args.len() {
        lemma_no_expr_at_close(s, pos, depth);
        assert(acc + args.skip(i) =~= acc);
    } else {
        let a = args[i];
        let text = render(a);
        let rest = render_from(args, i + 1);
        let comma = seq![0x2cu8];
        lemma_parts(s, pos, text + comma, rest);
        lemma_parts(s, pos, text, comma);
        let end = pos + text.len();
        assert(s.subrange(end, end + 1)[0] == comma[0]);
        lemma_expr_reads(s, pos, depth, a);
        lemma_tight(s, end);
        lemma_args_read(s, end + 1, depth, args, i + 1, acc.push(a));
        lemma_tight(s, end + 1);
        assert(acc.push(a) + args.skip(i + 1) =~= acc + args.skip(i));
    }
}

/// What is written is read back. Let `e` be an expression that can be
/// written, let its text stand in `s` at `pos`, and let nothing go on with
/// it after the text. Then the grammar reads `e` at `pos`, at any depth
/// that leaves room for the nesting of `e`, and stops at the end of the
/// text.
pub proof fn lemma_expr_reads(s: Seq<u8>, pos: int, depth: nat, e: ExpressionModel)
    requires
        writable(e),
        depth + nesting(e) <= MAX_NESTING_DEPTH,
        stands_at(s, pos, render(e)),
        stops_at(s, pos + render(e).len()),
    ensures
        render(e).len() > 0,
        tight_at(s, pos),
        spec_expr(s, pos, depth) == Ok::<(int, ExpressionModel), ParseError>(
            (pos + render(e).len(), e),
        ),
    decreases e, 3int,
{
    let end = pos + render(e).len();
    match e {
        ExpressionModel::Ident(name) => {
            lemma_ident_reads(s, pos, depth, name);
            lemma_factor_is_expr(s, pos, depth, end, e);
            assert(s.subrange(pos, pos + name.len())[0] == name[0]);
        },
        ExpressionModel::NumLiteral(text) => {
            lemma_number_reads(s, pos, depth, text);
            lemma_factor_is_expr(s, pos, depth, end, e);
            assert(s.subrange(pos, pos + text.len())[0] == text[0]);
        },
        ExpressionModel::FnInvoke(name, args) => {
            let inside = render_from(args, 0);
            lemma_parts(s, pos, name, wrapped(inside));
            let open = pos + name.len();
            lemma_wrapped_parts(s, open, inside);
            let close = open + 1 + inside.len();
            lemma_run_in_place(s, pos, name, ByteClass::IdentContinue);
            assert(ByteClass::IdentStart.has(s[pos]));
            lemma_tight(s, pos);
            lemma_tight(s, open);
            lemma_args_read(s, open + 1, depth + 1, args, 0, Seq::empty());
            lemma_tight(s, open + 1);
            lemma_stop(s, end);
            assert(Seq::<ExpressionModel>::empty() + args.skip(0) =~= args);
            assert(identifier_end(s, pos) == Some(open));
            assert(number_end(s, pos) is None);
            assert(spec_number_token(s, pos) == Err::<(int, ExpressionModel), ParseError>(
                no_match(pos),
            ));
            assert(spec_func_call(s, pos, depth) == Ok::<(int, ExpressionModel), ParseError>(
                (end, e),
            ));
            lemma_factor_is_expr(s, pos, depth, end, e);
        },
        ExpressionModel::Add(l, r) => {
            lemma_sum_reads(s, pos, depth, *l, *r, 0x2b, e);
        },
        ExpressionModel::Sub(l, r) => {
            lemma_sum_reads(s, pos, depth, *l, *r, 0x2d, e);
        },
        ExpressionModel::Mul(l, r) => {
            lemma_product_reads(s, pos, depth, *l, *r, 0x2a, e);
        },
        ExpressionModel::Div(l, r) => {
            lemma_product_reads(s, pos, depth, *l, *r, 0x2f, e);
        },
    }
}

/// The two operands of a binary node, each in parentheses, with the
/// operator between them.
pub open spec fn binary_text(l: ExpressionModel, op: u8, r: ExpressionModel) -> Seq<u8> {
    wrapped(render(l)) + seq![op] + wrapped(render(r))
}

/// Whether `e` is a binary node of the operands `l` and `r`.
pub open spec fn is_node(e: ExpressionModel, l: ExpressionModel, r: ExpressionModel) -> bool {
    ||| e == ExpressionModel::Add(Box::new(l), Box::new(r))
    ||| e == ExpressionModel::Sub(Box::new(l), Box::new(r))
    ||| e == ExpressionModel::Mul(Box::new(l), Box::new(r))
    ||| e == ExpressionModel::Div(Box::new(l), Box::new(r))
}

/// Where the text of a binary node stands, both operands are read as
/// factors, the first up to the operator and the second up to the end.
proof fn lemma_operands_read(
    s: Seq<u8>,
    pos: int,
    depth: nat,
    l: ExpressionModel,
    r: ExpressionModel,
    op: u8,
    e: ExpressionModel,
)
    requires
        writable(l),
        writable(r),
        depth + 1 + larger(nesting(l), nesting(r)) <= MAX_NESTING_DEPTH,
        stands_at(s, pos, binary_text(l, op, r)),
        stops_at(s, pos + binary_text(l, op, r).len()),
        op == 0x2b || op == 0x2d || op == 0x2a || op == 0x2f,
        is_node(e, l, r),
    ensures
        tight_at(s, pos),
        binary_text(l, op, r).len() == render(l).len() + render(r).len() + 5,
        is_byte_at(s, pos + render(l).len() + 2, op),
        tight_at(s, pos + render(l).len() + 3),
        spec_factor(s, pos, depth) == Ok::<(int, ExpressionModel), ParseError>(
            (pos + render(l).len() + 2, l),
        ),
        spec_factor(s, pos + render(l).len() + 3, depth) == Ok::<
            (int, ExpressionModel),
            ParseError,
        >((pos + binary_text(l, op, r).len(), r)),
    decreases e, 1int,
{
    let left = wrapped(render(l));
    let right = wrapped(render(r));
    let sign = seq![op];
    lemma_parts(s, pos, left + sign, right);
    lemma_parts(s, pos, left, sign);
    lemma_wrapped_parts(s, pos, render(l));
    let mid = pos + left.len();
    assert(s.subrange(mid, mid + 1)[0] == sign[0]);
    lemma_wrapped_parts(s, mid + 1, render(r));
    let end = mid + 1 + right.len();
    lemma_stop(s, end);
    lemma_tight(s, pos);
    match e {
        ExpressionModel::Add(a, b) => {
            assert(*a == l && *b == r);
        },
        ExpressionModel::Sub(a, b) => {
            assert(*a == l && *b == r);
        },
        ExpressionModel::Mul(a, b) => {
            assert(*a == l && *b == r);
        },
        ExpressionModel::Div(a, b) => {
            assert(*a == l && *b == r);
        },
        _ => {},
    }
    lemma_wrapped_reads(s, pos, depth, l);
    lemma_wrapped_reads(s, mid + 1, depth, r);
}

proof fn lemma_sum_reads(
    s: Seq<u8>,
    pos: int,
    depth: nat,
    l: ExpressionModel,
    r: ExpressionModel,
    op: u8,
    e: ExpressionModel,
)
    requires
        writable(l),
        writable(r),
        depth + 1 + larger(nesting(l), nesting(r)) <= MAX_NESTING_DEPTH,
        stands_at(s, pos, binary_text(l, op, r)),
        stops_at(s, pos + binary_text(l, op, r).len()),
        (op == 0x2b && e == ExpressionModel::Add(Box::new(l), Box::new(r))) || (op == 0x2d && e
            == ExpressionModel::Sub(Box::new(l), Box::new(r))),
    ensures
        tight_at(s, pos),
        binary_text(l, op, r).len() > 0,
        spec_expr(s, pos, depth) == Ok::<(int, ExpressionModel), ParseError>(
            (pos + binary_text(l, op, r).len(), e),
        ),
    decreases e, 2int,
{
    lemma_operands_read(s, pos, depth, l, r, op, e);
    let mid = pos + render(l).len() + 2;
    let end = pos + binary_text(l, op, r).len();
    lemma_tight(s, mid);
    lemma_tight(s, mid + 1);
    lemma_stop(s, end);
    assert(spec_term_tail(s, mid, depth, l) == Ok::<(int, ExpressionModel), ParseError>((mid, l)));
    assert(spec_term(s, pos, depth) == Ok::<(int, ExpressionModel), ParseError>((mid, l)));
    assert(spec_term_tail(s, end, depth, r) == Ok::<(int, ExpressionModel), ParseError>((end, r)));
    assert(spec_term(s, mid + 1, depth) == Ok::<(int, ExpressionModel), ParseError>((end, r)));
    assert(spec_expr_tail(s, end, depth, e) == Ok::<(int, ExpressionModel), ParseError>((end, e)));
    assert(spec_expr_tail(s, mid, depth, l) == Ok::<(int, ExpressionModel), ParseError>((end, e)));
}

proof fn lemma_product_reads(
    s: Seq<u8>,
    pos: int,
    depth: nat,
    l: ExpressionModel,
    r: ExpressionModel,
    op: u8,
    e: ExpressionModel,
)
    requires
        writable(l),
        writable(r),
        depth + 1 + larger(nesting(l), nesting(r)) <= MAX_NESTING_DEPTH,
        stands_at(s, pos, binary_text(l, op, r)),
        stops_at(s, pos + binary_text(l, op, r).len()),
        (op == 0x2a && e == ExpressionModel::Mul(Box::new(l), Box::new(r))) || (op == 0x2f && e
            == ExpressionModel::Div(Box::new(l), Box::new(r))),
    ensures
        tight_at(s, pos),
        binary_text(l, op, r).len() > 0,
        spec_expr(s, pos, depth) == Ok::<(int, ExpressionModel), ParseError>(
            (pos + binary_text(l, op, r).len(), e),
        ),
    decreases e, 2int,
{
    lemma_operands_read(s, pos, depth, l, r, op, e);
    let mid = pos + render(l).len() + 2;
    let end = pos + binary_text(l, op, r).len();
    lemma_tight(s, mid);
    lemma_tight(s, mid + 1);
    lemma_stop(s, end);
    assert(spec_term_tail(s, end, depth, e) == Ok::<(int, ExpressionModel), ParseError>((end, e)));
    assert(spec_term_tail(s, mid, depth, l) == Ok::<(int, ExpressionModel), ParseError>((end, e)));
    assert(spec_term(s, pos, depth) == Ok::<(int, ExpressionModel), ParseError>((end, e)));
    assert(spec_expr_tail(s, end, depth, e) == Ok::<(int, ExpressionModel), ParseError>((end, e)));
}

/// The text of an expression, by itself, is read as the expression, and
/// is read whole.
pub proof fn lemma_render_round_trip(e: ExpressionModel)
    requires
        writable(e),
        nesting(e) <= MAX_NESTING_DEPTH,
    ensures
        spec_expr(render(e), 0, 0) == Ok::<(int, ExpressionModel), ParseError>(
            (render(e).len() as int, e),
        ),
{
    let text = render(e);
    assert(text.subrange(0, text.len() as int) =~= text);
    lemma_expr_reads(text, 0, 0, e);
}

fn put(out: &mut Vec<u8>, bytes: &[u8])
    ensures
        final(out)@ == old(out)@ + bytes@,
{
    let mut copy = slice_to_vec(bytes);
    out.append(&mut copy);
}

fn put_wrapped(e: &Expression, out: &mut Vec<u8>)
    ensures
        final(out)@ == old(out)@ + wrapped(render(e@)),
    decreases e, 1int,
{
    let ghost start = out@;
    out.push(0x28);
    write_expression(e, out);
    out.push(0x29);
    assert(out@ =~= start + wrapped(render(e@)));
}

/// Appends the text of `e` to `out`: both operands of every operator in
/// parentheses, a comma after every argument.
pub fn write_expression(e: &Expression, out: &mut Vec<u8>)
    ensures
        final(out)@ == old(out)@ + render(e@),
    decreases e, 0int,
{
    let ghost start = out@;
    match e {
        Expression::Ident(name) => {
            put(out, name.as_slice());
        },
        Expression::NumLiteral(n) => {
            put(out, n.text());
        },
        Expression::FnInvoke(name, args) => {
            proof {
                lemma_fn_invoke_model(*name, *args);
            }
            let ghost models = expression_models(args@);
            put(out, name.as_slice());
            out.push(0x28);
            let ghost opened = out@;
            let mut i: usize = 0;
            while i < args.len()
                invariant
                    i <= args@.len(),
                    decreases_to!(e => args),
                    models == expression_models(args@),
                    out@ + render_from(models, i as int) == opened + render_from(models, 0),
                decreases args@.len() - i,
            {
                let ghost before = out@;
                proof {
                    vstd::std_specs::vec::axiom_vec_index_decreases(*args, i as int);
                }
                write_expression(&args[i], out);
                out.push(0x2c);
                assert(out@ + render_from(models, i + 1) =~= before + render_from(models, i as int));
                i = i + 1;
            }
            assert(out@ =~= opened + render_from(models, 0)) by {
                assert(render_from(models, i as int) =~= Seq::<u8>::empty());
            }
            out.push(0x29);
            assert(out@ =~= start + render(e@));
        },
        Expression::Add(l, r) => {
            put_wrapped(l, out);
            out.push(0x2b);
            put_wrapped(r, out);
            assert(out@ =~= start + binary_text(l@, 0x2b, r@));
        },
        Expression::Sub(l, r) => {
            put_wrapped(l, out);
            out.push(0x2d);
            put_wrapped(r, out);
            assert(out@ =~= start + binary_text(l@, 0x2d, r@));
        },
        Expression::Mul(l, r) => {
            put_wrapped(l, out);
            out.push(0x2a);
            put_wrapped(r, out);
            assert(out@ =~= start + binary_text(l@, 0x2a, r@));
        },
        Expression::Div(l, r) => {
            put_wrapped(l, out);
            out.push(0x2f);
            put_wrapped(r, out);
            assert(out@ =~= start + binary_text(l@, 0x2f, r@));
        },
    }
}

/// Arguments can be written from `i` on where each of them can.
pub proof fn lemma_writable_each(args: Seq<ExpressionModel>, i: int)
    requires
        0 <= i <= args.len(),
    ensures
        writable_from(args, i) <==> forall|k: int| i <= k < args.len() ==> writable(#[trigger] args[k]),
    decreases args.len() - i,
{
    if i < args.len() {
        lemma_writable_each(args, i + 1);
    }
}

/// A run that ends where the text ends fills the text, taken by itself.
proof fn lemma_run_taken_out(s: Seq<u8>, pos: int, end: int, class: ByteClass)
    requires
        0 <= pos < end <= s.len(),
        run_end(s, pos + 1, class) == end,
    ensures
        run_end(s.subrange(pos, end), 1, class) == end - pos,
{
    let x = s.subrange(pos, end);
    lemma_run_end(s, pos + 1, class);
    assert forall|k: int| 1 <= k < x.len() implies class.has(#[trigger] x[k]) by {
        assert(x[k] == s[pos + k]);
    }
    lemma_run_end_unique(x, 1, class, x.len() as int);
}

proof fn lemma_leaves_writable(s: Seq<u8>, pos: int)
    requires
        0 <= pos <= s.len(),
    ensures
        spec_number_token(s, pos) matches Ok((end, e)) ==> writable(e) && pos < end <= s.len(),
        spec_ident(s, pos) matches Ok((end, e)) ==> writable(e) && pos < end <= s.len(),
{
    let at = skip_ws(s, pos);
    lemma_run_end(s, pos, ByteClass::Whitespace);
    match number_end(s, at) {
        Some(end) => {
            lemma_run_end(s, at + 1, ByteClass::NumberContinue);
            lemma_run_end(s, end, ByteClass::Whitespace);
            lemma_run_taken_out(s, at, end, ByteClass::NumberContinue);
            assert(s.subrange(at, end)[0] == s[at]);
        },
        None => {},
    }
    match identifier_end(s, at) {
        Some(end) => {
            lemma_run_end(s, at + 1, ByteClass::IdentContinue);
            lemma_run_end(s, end, ByteClass::Whitespace);
            lemma_run_taken_out(s, at, end, ByteClass::IdentContinue);
            assert(s.subrange(at, end)[0] == s[at]);
        },
        None => {},
    }
}

/// What is read can be written: the names of an expression that the
/// grammar reads are identifiers, and its literals are number literals.
/// And what is read is there: the expression ends after where it starts,
/// inside the input.
pub proof fn lemma_expr_writable(s: Seq<u8>, pos: int, depth: nat)
    requires
        0 <= pos <= s.len(),
    ensures
        spec_expr(s, pos, depth) matches Ok((end, e)) ==> writable(e) && pos < end <= s.len(),
    decreases s.len() - pos, 5int,
{
    lemma_term_writable(s, pos, depth);
    match spec_term(s, pos, depth) {
        Ok((end, first)) => {
            if pos < end <= s.len() {
                lemma_expr_tail_writable(s, end, depth, first);
            }
        },
        Err(_) => {},
    }
}

proof fn lemma_expr_tail_writable(s: Seq<u8>, pos: int, depth: nat, acc: ExpressionModel)
    requires
        0 <= pos <= s.len(),
        writable(acc),
    ensures
        spec_expr_tail(s, pos, depth, acc) matches Ok((end, e)) ==> writable(e) && pos <= end <= s.len(),
    decreases s.len() - pos, 4int,
{
    let at = skip_ws(s, pos);
    lemma_run_end(s, pos, ByteClass::Whitespace);
    if is_byte_at(s, at, 0x2b) || is_byte_at(s, at, 0x2d) {
        let next = skip_ws(s, at + 1);
        lemma_run_end(s, at + 1, ByteClass::Whitespace);
        lemma_term_writable(s, next, depth);
        match spec_term(s, next, depth) {
            Ok((end, rhs)) => {
                if next < end <= s.len() {
                    let node = if s[at] == 0x2b {
                        ExpressionModel::Add(Box::new(acc), Box::new(rhs))
                    } else {
                        ExpressionModel::Sub(Box::new(acc), Box::new(rhs))
                    };
                    lemma_expr_tail_writable(s, end, depth, node);
                }
            },
            Err(_) => {},
        }
    }
}

proof fn lemma_term_writable(s: Seq<u8>, pos: int, depth: nat)
    requires
        0 <= pos <= s.len(),
    ensures
        spec_term(s, pos, depth) matches Ok((end, e)) ==> writable(e) && pos < end <= s.len(),
    decreases s.len() - pos, 3int,
{
    lemma_factor_writable(s, pos, depth);
    match spec_factor(s, pos, depth) {
        Ok((end, first)) => {
            if pos < end <= s.len() {
                lemma_term_tail_writable(s, end, depth, first);
            }
        },
        Err(_) => {},
    }
}

proof fn lemma_term_tail_writable(s: Seq<u8>, pos: int, depth: nat, acc: ExpressionModel)
    requires
        0 <= pos <= s.len(),
        writable(acc),
    ensures
        spec_term_tail(s, pos, depth, acc) matches Ok((end, e)) ==> writable(e) && pos <= end <= s.len(),
    decreases s.len() - pos, 2int,
{
    let at = skip_ws(s, pos);
    lemma_run_end(s, pos, ByteClass::Whitespace);
    if is_byte_at(s, at, 0x2a) || is_byte_at(s, at, 0x2f) {
        let next = skip_ws(s, at + 1);
        lemma_run_end(s, at + 1, ByteClass::Whitespace);
        lemma_factor_writable(s, next, depth);
        match spec_factor(s, next, depth) {
            Ok((end, rhs)) => {
                if next < end <= s.len() {
                    let node = if s[at] == 0x2a {
                        ExpressionModel::Mul(Box::new(acc), Box::new(rhs))
                    } else {
                        ExpressionModel::Div(Box::new(acc), Box::new(rhs))
                    };
                    lemma_term_tail_writable(s, end, depth, node);
                }
            },
            Err(_) => {},
        }
    }
}

proof fn lemma_factor_writable(s: Seq<u8>, pos: int, depth: nat)
    requires
        0 <= pos <= s.len(),
    ensures
        spec_factor(s, pos, depth) matches Ok((end, e)) ==> writable(e) && pos < end <= s.len(),
    decreases s.len() - pos, 1int,
{
    lemma_leaves_writable(s, pos);
    lemma_func_call_writable(s, pos, depth);
    lemma_parens_writable(s, pos, depth);
}

proof fn lemma_func_call_writable(s: Seq<u8>, pos: int, depth: nat)
    requires
        0 <= pos <= s.len(),
    ensures
        spec_func_call(s, pos, depth) matches Ok((end, e)) ==> writable(e) && pos < end <= s.len(),
    decreases s.len() - pos, 0int,
{
    let at = skip_ws(s, pos);
    lemma_run_end(s, pos, ByteClass::Whitespace);
    match identifier_end(s, at) {
        None => {},
        Some(name_end) => {
            lemma_run_end(s, at + 1, ByteClass::IdentContinue);
            lemma_run_taken_out(s, at, name_end, ByteClass::IdentContinue);
            assert(s.subrange(at, name_end)[0] == s[at]);
            let open = skip_ws(s, name_end);
            lemma_run_end(s, name_end, ByteClass::Whitespace);
            if is_byte_at(s, open, 0x28) && depth < MAX_NESTING_DEPTH {
                let first = skip_ws(s, open + 1);
                lemma_run_end(s, open + 1, ByteClass::Whitespace);
                lemma_call_args_writable(s, first, depth + 1, Seq::empty());
                match spec_call_args(s, first, depth + 1, Seq::empty()) {
                    Ok((close, _)) => {
                        if is_byte_at(s, close, 0x29) {
                            lemma_run_end(s, close + 1, ByteClass::Whitespace);
                        }
                    },
                    Err(_) => {},
                }
            }
        },
    }
}

proof fn lemma_call_args_writable(
    s: Seq<u8>,
    pos: int,
    depth: nat,
    acc: Seq<ExpressionModel>,
)
    requires
        0 <= pos <= s.len(),
        writable_from(acc, 0),
    ensures
        spec_call_args(s, pos, depth, acc) matches Ok((end, args)) ==> writable_from(args, 0) && pos
            <= end <= s.len(),
    decreases s.len() - pos, 6int,
{
    lemma_expr_writable(s, pos, depth);
    match spec_expr(s, pos, depth) {
        Ok((end, arg)) => {
            let after = skip_ws(s, end);
            let past = if is_byte_at(s, after, 0x2c) {
                after + 1
            } else {
                after
            };
            let next = skip_ws(s, past);
            if pos < next <= s.len() {
                lemma_writable_each(acc, 0);
                lemma_writable_each(acc.push(arg), 0);
                lemma_call_args_writable(s, next, depth, acc.push(arg));
            }
        },
        Err(_) => {},
    }
}

proof fn lemma_parens_writable(s: Seq<u8>, pos: int, depth: nat)
    requires
        0 <= pos <= s.len(),
    ensures
        spec_parens(s, pos, depth) matches Ok((end, e)) ==> writable(e) && pos < end <= s.len(),
    decreases s.len() - pos, 0int,
{
    let at = skip_ws(s, pos);
    lemma_run_end(s, pos, ByteClass::Whitespace);
    if is_byte_at(s, at, 0x28) && depth < MAX_NESTING_DEPTH {
        lemma_expr_writable(s, at + 1, depth + 1);
        match spec_expr(s, at + 1, depth + 1) {
            Ok((close, _)) => {
                if is_byte_at(s, close, 0x29) {
                    lemma_run_end(s, close + 1, ByteClass::Whitespace);
                }
            },
            Err(_) => {},
        }
    }
}

} // verus!
