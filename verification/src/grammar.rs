//! The grammar of documents, as functions from the input and a position
//! to what is read there.
//!
//! Every rule either succeeds, with the position where it stopped and the
//! value it read, or fails and consumes nothing. A failure of kind
//! `NoMatch` lets an enclosing alternation try its next rule; any other
//! failure ends the parse.
//!
//! ```text
//! factor     := number | function_call | ident_ref | '(' expr ')'
//! term       := factor (('*' | '/') factor)*
//! expr       := term (('+' | '-') term)*
//! function_call := identifier '(' (expr (','? expr)*)? ')'
//!
//! command    := newlines? (definition | property | invocation) newlines?
//! definition := identifier ':=' expr
//! property   := identifier ':' (quoted_string | expr)
//! invocation := arg+
//! arg        := block | identifier
//! block      := '{' command* '}'
//! ```

use vstd::prelude::*;
use crate::bytes::{lemma_run_end, ByteClass};
use crate::error::{furthest, hard_error, no_match, ParseError, ParseErrorKind};
use crate::lexer::{
    after_newlines, identifier_end, number_end, quoted_string, skip_blank, skip_ws,
};
use crate::model::{ArgModel, CommandModel, ExpressionModel, PropertyModel};
use crate::number::is_decimal_literal;

verus! {

/// How deep parentheses, argument lists and blocks may nest.
pub const MAX_NESTING_DEPTH: usize = 64;

/// What a rule reads: the position where it stopped and its value, or why
/// it failed.
pub type Parsed<T> = Result<(int, T), ParseError>;

/// Ordered choice: `first`, unless it failed recoverably; then `second`.
/// Where both fail recoverably, the failure that got further.
pub open spec fn or_else<T>(first: Parsed<T>, second: Parsed<T>) -> Parsed<T> {
    match first {
        Ok(_) => first,
        Err(e1) => if !e1.recoverable() {
            first
        } else {
            match second {
                Ok(_) => second,
                Err(e2) => if !e2.recoverable() {
                    second
                } else {
                    Err(furthest(e1, e2))
                },
            }
        },
    }
}

/// The same result, stopping after the whitespace that follows it.
pub open spec fn then_skip_ws<T>(s: Seq<u8>, r: Parsed<T>) -> Parsed<T> {
    match r {
        Ok((end, v)) => Ok((skip_ws(s, end), v)),
        Err(e) => Err(e),
    }
}

/// The same result, stopping after the spaces and tabs that follow it.
pub open spec fn then_skip_blank<T>(s: Seq<u8>, r: Parsed<T>) -> Parsed<T> {
    match r {
        Ok((end, v)) => Ok((skip_blank(s, end), v)),
        Err(e) => Err(e),
    }
}

/// A number literal at `pos`, with no whitespace around it. Text in the
/// shape of a number that is no literal is an error, not a mismatch.
pub open spec fn spec_number(s: Seq<u8>, pos: int) -> Parsed<ExpressionModel> {
    match number_end(s, pos) {
        None => Err(no_match(pos)),
        Some(end) => if is_decimal_literal(s.subrange(pos, end)) {
            Ok((end, ExpressionModel::NumLiteral(s.subrange(pos, end))))
        } else {
            Err(hard_error(ParseErrorKind::MalformedLiteral, pos))
        },
    }
}

/// A number literal with whitespace around it.
pub open spec fn spec_number_token(s: Seq<u8>, pos: int) -> Parsed<ExpressionModel> {
    then_skip_ws(s, spec_number(s, skip_ws(s, pos)))
}

/// A reference to a constant or variable, with whitespace around it.
pub open spec fn spec_ident(s: Seq<u8>, pos: int) -> Parsed<ExpressionModel> {
    let here = skip_ws(s, pos);
    match identifier_end(s, here) {
        Some(end) => Ok((skip_ws(s, end), ExpressionModel::Ident(s.subrange(here, end)))),
        None => Err(no_match(here)),
    }
}

/// Whether the byte `b` stands in `s` at `pos`.
pub open spec fn is_byte_at(s: Seq<u8>, pos: int, b: u8) -> bool {
    0 <= pos < s.len() && s[pos] == b
}

/// `expr := term (('+' | '-') term)*`, read from `pos` at nesting depth
/// `depth`. Chains fold to the left.
pub open spec fn spec_expr(s: Seq<u8>, pos: int, depth: nat) -> Parsed<ExpressionModel>
    decreases s.len() - pos, 5int,
{
    match spec_term(s, pos, depth) {
        Err(e) => Err(e),
        Ok((end, first)) => if pos < end <= s.len() {
            spec_expr_tail(s, end, depth, first)
        } else {
            Ok((end, first))
        },
    }
}

/// The rest of a sum whose terms so far make `acc`: more `+ term` and
/// `- term` from `pos`, as many as there are.
pub open spec fn spec_expr_tail(s: Seq<u8>, pos: int, depth: nat, acc: ExpressionModel) -> Parsed<
    ExpressionModel,
>
    decreases s.len() - pos, 4int,
{
    let here = skip_ws(s, pos);
    if 0 <= pos <= s.len() && (is_byte_at(s, here, 0x2b) || is_byte_at(s, here, 0x2d)) {
        let next = skip_ws(s, here + 1);
        proof {
            lemma_run_end(s, pos, ByteClass::Whitespace);
            lemma_run_end(s, here + 1, ByteClass::Whitespace);
        }
        match spec_term(s, next, depth) {
            Ok((end, rhs)) => if next < end <= s.len() {
                spec_expr_tail(
                    s,
                    end,
                    depth,
                    if s[here] == 0x2b {
                        ExpressionModel::Add(Box::new(acc), Box::new(rhs))
                    } else {
                        ExpressionModel::Sub(Box::new(acc), Box::new(rhs))
                    },
                )
            } else {
                Ok((pos, acc))
            },
            Err(e) => if e.recoverable() {
                Ok((pos, acc))
            } else {
                Err(e)
            },
        }
    } else {
        Ok((pos, acc))
    }
}

/// `term := factor (('*' | '/') factor)*`.
pub open spec fn spec_term(s: Seq<u8>, pos: int, depth: nat) -> Parsed<ExpressionModel>
    decreases s.len() - pos, 3int,
{
    match spec_factor(s, pos, depth) {
        Err(e) => Err(e),
        Ok((end, first)) => if pos < end <= s.len() {
            spec_term_tail(s, end, depth, first)
        } else {
            Ok((end, first))
        },
    }
}

/// The rest of a product whose factors so far make `acc`.
pub open spec fn spec_term_tail(s: Seq<u8>, pos: int, depth: nat, acc: ExpressionModel) -> Parsed<
    ExpressionModel,
>
    decreases s.len() - pos, 2int,
{
    let here = skip_ws(s, pos);
    if 0 <= pos <= s.len() && (is_byte_at(s, here, 0x2a) || is_byte_at(s, here, 0x2f)) {
        let next = skip_ws(s, here + 1);
        proof {
            lemma_run_end(s, pos, ByteClass::Whitespace);
            lemma_run_end(s, here + 1, ByteClass::Whitespace);
        }
        match spec_factor(s, next, depth) {
            Ok((end, rhs)) => if next < end <= s.len() {
                spec_term_tail(
                    s,
                    end,
                    depth,
                    if s[here] == 0x2a {
                        ExpressionModel::Mul(Box::new(acc), Box::new(rhs))
                    } else {
                        ExpressionModel::Div(Box::new(acc), Box::new(rhs))
                    },
                )
            } else {
                Ok((pos, acc))
            },
            Err(e) => if e.recoverable() {
                Ok((pos, acc))
            } else {
                Err(e)
            },
        }
    } else {
        Ok((pos, acc))
    }
}

/// `factor := number | function_call | ident_ref | '(' expr ')'`, tried in
/// this order.
pub open spec fn spec_factor(s: Seq<u8>, pos: int, depth: nat) -> Parsed<ExpressionModel>
    decreases s.len() - pos, 1int,
{
    or_else(
        or_else(
            or_else(spec_number_token(s, pos), spec_func_call(s, pos, depth)),
            spec_ident(s, pos),
        ),
        spec_parens(s, pos, depth),
    )
}

/// `identifier '(' (expr (','? expr)*)? ')'`, with whitespace around every
/// token.
pub open spec fn spec_func_call(s: Seq<u8>, pos: int, depth: nat) -> Parsed<ExpressionModel>
    decreases s.len() - pos, 0int,
{
    let here = skip_ws(s, pos);
    match identifier_end(s, here) {
        None => Err(no_match(here)),
        Some(name_end) => {
            let next = skip_ws(s, name_end);
            if !(0 <= pos <= s.len()) || !is_byte_at(s, next, 0x28) {
                Err(no_match(next))
            } else if depth >= MAX_NESTING_DEPTH {
                Err(hard_error(ParseErrorKind::DepthLimitExceeded, next))
            } else {
                let after = skip_ws(s, next + 1);
                proof {
                    lemma_run_end(s, pos, ByteClass::Whitespace);
                    lemma_run_end(s, here + 1, ByteClass::IdentContinue);
                    lemma_run_end(s, name_end, ByteClass::Whitespace);
                    lemma_run_end(s, next + 1, ByteClass::Whitespace);
                }
                match spec_call_args(s, after, depth + 1, Seq::empty()) {
                    Err(e) => Err(e),
                    Ok((end, args)) => if is_byte_at(s, end, 0x29) {
                        Ok(
                            (
                                skip_ws(s, end + 1),
                                ExpressionModel::FnInvoke(s.subrange(here, name_end), args),
                            ),
                        )
                    } else {
                        Err(no_match(end))
                    },
                }
            }
        },
    }
}

/// The arguments of a call after those in `acc`: expressions from `pos`,
/// each followed by an optional comma, as many as there are.
pub open spec fn spec_call_args(
    s: Seq<u8>,
    pos: int,
    depth: nat,
    acc: Seq<ExpressionModel>,
) -> Parsed<Seq<ExpressionModel>>
    decreases s.len() - pos, 6int,
{
    match spec_expr(s, pos, depth) {
        Err(e) => if e.recoverable() {
            Ok((pos, acc))
        } else {
            Err(e)
        },
        Ok((end, arg)) => {
            let next = skip_ws(s, end);
            let after = if is_byte_at(s, next, 0x2c) {
                next + 1
            } else {
                next
            };
            let onward = skip_ws(s, after);
            if pos < onward <= s.len() {
                spec_call_args(s, onward, depth, acc.push(arg))
            } else {
                Ok((pos, acc))
            }
        },
    }
}

/// `'(' expr ')'`, with whitespace around it.
pub open spec fn spec_parens(s: Seq<u8>, pos: int, depth: nat) -> Parsed<ExpressionModel>
    decreases s.len() - pos, 0int,
{
    let here = skip_ws(s, pos);
    if !(0 <= pos <= s.len()) || !is_byte_at(s, here, 0x28) {
        Err(no_match(here))
    } else if depth >= MAX_NESTING_DEPTH {
        Err(hard_error(ParseErrorKind::DepthLimitExceeded, here))
    } else {
        proof {
            lemma_run_end(s, pos, ByteClass::Whitespace);
        }
        match spec_expr(s, here + 1, depth + 1) {
            Err(e) => Err(e),
            Ok((end, inner)) => if is_byte_at(s, end, 0x29) {
                Ok((skip_ws(s, end + 1), inner))
            } else {
                Err(no_match(end))
            },
        }
    }
}

/// A line break never moves backwards and never leaves the input.
pub proof fn lemma_after_newlines(s: Seq<u8>, pos: int)
    requires
        0 <= pos <= s.len(),
    ensures
        pos <= after_newlines(s, pos) <= s.len(),
{
    lemma_run_end(s, pos, ByteClass::Blank);
    let next = skip_blank(s, pos);
    lemma_run_end(s, next, ByteClass::Newline);
    let after = crate::bytes::run_end(s, next, ByteClass::Newline);
    lemma_run_end(s, after, ByteClass::Blank);
}

/// A bare identifier as an argument.
pub open spec fn spec_identifier_arg(s: Seq<u8>, pos: int) -> Parsed<ArgModel> {
    match identifier_end(s, pos) {
        Some(end) => Ok((end, ArgModel::Str(s.subrange(pos, end)))),
        None => Err(no_match(pos)),
    }
}

/// `block := '{' command* '}'`. A block that the input ends in is an
/// error, not a mismatch.
pub open spec fn spec_block(s: Seq<u8>, pos: int, depth: nat) -> Parsed<ArgModel>
    decreases s.len() - pos, 0int,
{
    if !is_byte_at(s, pos, 0x7b) {
        Err(no_match(pos))
    } else if depth >= MAX_NESTING_DEPTH {
        Err(hard_error(ParseErrorKind::DepthLimitExceeded, pos))
    } else {
        match spec_commands(s, pos + 1, depth + 1, Seq::empty()) {
            Err(e) => Err(e),
            Ok((end, commands)) => if is_byte_at(s, end, 0x7d) {
                Ok((end + 1, ArgModel::Block(commands)))
            } else if skip_ws(s, end) == s.len() {
                Err(hard_error(ParseErrorKind::UnterminatedBlock, pos))
            } else {
                Err(no_match(end))
            },
        }
    }
}

/// `arg := block | identifier`, with spaces and tabs around it.
pub open spec fn spec_arg(s: Seq<u8>, pos: int, depth: nat) -> Parsed<ArgModel>
    decreases s.len() - pos, 1int,
{
    if !(0 <= pos <= s.len()) {
        Err(no_match(pos))
    } else {
        let here = skip_blank(s, pos);
        proof {
            lemma_run_end(s, pos, ByteClass::Blank);
        }
        then_skip_blank(s, or_else(spec_block(s, here, depth), spec_identifier_arg(s, here)))
    }
}

/// The arguments of an invocation after those in `acc`, as many as
/// there are.
pub open spec fn spec_more_args(s: Seq<u8>, pos: int, depth: nat, acc: Seq<ArgModel>) -> Parsed<
    Seq<ArgModel>,
>
    decreases s.len() - pos, 2int,
{
    match spec_arg(s, pos, depth) {
        Err(e) => if e.recoverable() {
            Ok((pos, acc))
        } else {
            Err(e)
        },
        Ok((end, arg)) => if pos < end <= s.len() {
            spec_more_args(s, end, depth, acc.push(arg))
        } else {
            Ok((pos, acc))
        },
    }
}

/// `invocation := arg+`.
pub open spec fn spec_invocation(s: Seq<u8>, pos: int, depth: nat) -> Parsed<CommandModel>
    decreases s.len() - pos, 3int,
{
    match spec_arg(s, pos, depth) {
        Err(e) => Err(e),
        Ok((end, first)) => if pos < end <= s.len() {
            match spec_more_args(s, end, depth, seq![first]) {
                Err(e) => Err(e),
                Ok((last, args)) => Ok((last, CommandModel::Com(args))),
            }
        } else {
            Err(no_match(pos))
        },
    }
}

/// `definition := identifier ':=' expr`, with spaces and tabs around `:=`.
pub open spec fn spec_definition(s: Seq<u8>, pos: int, depth: nat) -> Parsed<CommandModel> {
    match identifier_end(s, pos) {
        None => Err(no_match(pos)),
        Some(name_end) => {
            let next = skip_blank(s, name_end);
            if is_byte_at(s, next, 0x3a) && is_byte_at(s, next + 1, 0x3d) {
                match spec_expr(s, skip_blank(s, next + 2), depth) {
                    Ok((end, value)) => Ok(
                        (end, CommandModel::Def(s.subrange(pos, name_end), value)),
                    ),
                    Err(e) => Err(e),
                }
            } else {
                Err(no_match(next))
            }
        },
    }
}

/// The value of a property: a quoted string, or else an expression.
pub open spec fn spec_property_value(s: Seq<u8>, pos: int, depth: nat) -> Parsed<PropertyModel> {
    or_else(
        match quoted_string(s, pos) {
            Ok((end, text)) => Ok((end, PropertyModel::Str(text))),
            Err(e) => Err(e),
        },
        match spec_expr(s, pos, depth) {
            Ok((end, value)) => Ok((end, PropertyModel::Expr(value))),
            Err(e) => Err(e),
        },
    )
}

/// `property := identifier ':' (quoted_string | expr)`, with spaces and
/// tabs around the colon.
pub open spec fn spec_property(s: Seq<u8>, pos: int, depth: nat) -> Parsed<CommandModel> {
    match identifier_end(s, pos) {
        None => Err(no_match(pos)),
        Some(name_end) => {
            let next = skip_blank(s, name_end);
            if is_byte_at(s, next, 0x3a) {
                match spec_property_value(s, skip_blank(s, next + 1), depth) {
                    Ok((end, value)) => Ok(
                        (end, CommandModel::Prop(s.subrange(pos, name_end), value)),
                    ),
                    Err(e) => Err(e),
                }
            } else {
                Err(no_match(next))
            }
        },
    }
}

/// `definition | property | invocation`, tried in this order.
pub open spec fn spec_statement(s: Seq<u8>, pos: int, depth: nat) -> Parsed<CommandModel>
    decreases s.len() - pos, 4int,
{
    or_else(
        or_else(spec_definition(s, pos, depth), spec_property(s, pos, depth)),
        spec_invocation(s, pos, depth),
    )
}

/// `command := newlines? statement newlines?`.
pub open spec fn spec_command(s: Seq<u8>, pos: int, depth: nat) -> Parsed<CommandModel>
    decreases s.len() - pos, 5int,
{
    if !(0 <= pos <= s.len()) {
        Err(no_match(pos))
    } else {
        proof {
            lemma_after_newlines(s, pos);
        }
        match spec_statement(s, after_newlines(s, pos), depth) {
            Ok((end, command)) => Ok((after_newlines(s, end), command)),
            Err(e) => Err(e),
        }
    }
}

/// The commands after those in `acc`, as many as there are.
pub open spec fn spec_commands(s: Seq<u8>, pos: int, depth: nat, acc: Seq<CommandModel>) -> Parsed<
    Seq<CommandModel>,
>
    decreases s.len() - pos, 6int,
{
    match spec_command(s, pos, depth) {
        Err(e) => if e.recoverable() {
            Ok((pos, acc))
        } else {
            Err(e)
        },
        Ok((end, command)) => if pos < end <= s.len() {
            spec_commands(s, end, depth, acc.push(command))
        } else {
            Ok((pos, acc))
        },
    }
}

/// A whole document: its commands in order. What follows the last command
/// may only be whitespace.
pub open spec fn spec_document(s: Seq<u8>) -> Result<Seq<CommandModel>, ParseError> {
    match spec_commands(s, 0, 0, Seq::empty()) {
        Err(e) => Err(e),
        Ok((end, commands)) => if skip_ws(s, end) == s.len() {
            Ok(commands)
        } else {
            match spec_command(s, end, 0) {
                Err(e) => Err(
                    ParseError { kind: ParseErrorKind::UnexpectedInput, position: e.position },
                ),
                Ok(_) => Err(hard_error(ParseErrorKind::UnexpectedInput, end)),
            }
        },
    }
}

/// The text of a block from `pos` on, `level` braces deep inside the
/// block that opens at `open`, after the bytes in `acc`: every byte up to
/// the brace that closes the block, but for the braces themselves.
pub open spec fn spec_block_text(
    s: Seq<u8>,
    open: int,
    pos: int,
    level: nat,
    acc: Seq<u8>,
) -> Parsed<Seq<u8>>
    decreases s.len() - pos,
{
    if !(0 <= pos < s.len()) {
        Err(hard_error(ParseErrorKind::UnterminatedBlock, open))
    } else if s[pos] == 0x7b {
        spec_block_text(s, open, pos + 1, level + 1, acc)
    } else if s[pos] == 0x7d {
        if level == 0 {
            Ok((pos + 1, acc))
        } else {
            spec_block_text(s, open, pos + 1, (level - 1) as nat, acc)
        }
    } else {
        spec_block_text(s, open, pos + 1, level, acc.push(s[pos]))
    }
}

/// The text between the brace at `pos` and the brace that closes it,
/// with the braces of the blocks nested in it left out.
pub open spec fn spec_block_str(s: Seq<u8>, pos: int) -> Parsed<Seq<u8>> {
    if is_byte_at(s, pos, 0x7b) {
        spec_block_text(s, pos, pos + 1, 0, Seq::empty())
    } else {
        Err(no_match(pos))
    }
}

/// A literal reads back as itself: the text of a number that was read
/// anywhere is, read by itself, the same number, and is read whole.
pub proof fn lemma_number_rescans(s: Seq<u8>, pos: int, end: int, text: Seq<u8>)
    requires
        0 <= pos <= s.len(),
        spec_number(s, pos) == Ok::<(int, ExpressionModel), ParseError>(
            (end, ExpressionModel::NumLiteral(text)),
        ),
    ensures
        text == s.subrange(pos, end),
        is_decimal_literal(text),
        spec_number(text, 0) == Ok::<(int, ExpressionModel), ParseError>(
            (text.len() as int, ExpressionModel::NumLiteral(text)),
        ),
{
    lemma_run_end(s, pos + 1, ByteClass::NumberContinue);
    assert(text == s.subrange(pos, end));
    assert(text[0] == s[pos]);
    assert forall|i: int| 1 <= i < text.len() implies ByteClass::NumberContinue.has(
        #[trigger] text[i],
    ) by {
        assert(text[i] == s[pos + i]);
    }
    crate::bytes::lemma_run_end_unique(text, 1, ByteClass::NumberContinue, text.len() as int);
    assert(text.subrange(0, text.len() as int) =~= text);
}

/// How many braces are open at the end of `s[from..to]` that were not
/// at its start: the opening braces in it less the closing ones.
pub open spec fn brace_level(s: Seq<u8>, from: int, to: int) -> int
    decreases to - from,
{
    if to <= from {
        0
    } else {
        brace_level(s, from, to - 1) + if s[to - 1] == 0x7b {
            1int
        } else if s[to - 1] == 0x7d {
            -1int
        } else {
            0int
        }
    }
}

/// How many braces are open before `k` inside the block that opens at
/// `open`.
pub open spec fn inner_level(s: Seq<u8>, open: int, k: int) -> int {
    brace_level(s, open + 1, k)
}

/// Whether the brace at `close` closes the block that the brace at `open`
/// opens: between the two every brace that is closed was opened there,
/// and none stays open.
pub open spec fn closes_block(s: Seq<u8>, open: int, close: int) -> bool {
    &&& is_byte_at(s, open, 0x7b)
    &&& open < close
    &&& is_byte_at(s, close, 0x7d)
    &&& inner_level(s, open, close) == 0
    &&& forall|k: int| open < k <= close ==> #[trigger] inner_level(s, open, k) >= 0
}

proof fn lemma_block_text(s: Seq<u8>, open: int, pos: int, level: nat, acc: Seq<u8>)
    requires
        is_byte_at(s, open, 0x7b),
        open < pos <= s.len(),
        level == inner_level(s, open, pos),
        forall|k: int| open < k <= pos ==> #[trigger] inner_level(s, open, k) >= 0,
        forall|c: int| open < c < pos ==> !closes_block(s, open, c),
        acc == crate::bytes::without(s.subrange(open + 1, pos), ByteClass::Brace),
    ensures
        match spec_block_text(s, open, pos, level, acc) {
            Ok((end, text)) => closes_block(s, open, end - 1) && text == crate::bytes::without(
                s.subrange(open + 1, end - 1),
                ByteClass::Brace,
            ),
            Err(e) => e == hard_error(ParseErrorKind::UnterminatedBlock, open) && forall|c: int|
                !closes_block(s, open, c),
        },
    decreases s.len() - pos,
{
    if pos < s.len() {
        let b = s[pos];
        let inside = s.subrange(open + 1, pos);
        assert(s.subrange(open + 1, pos + 1) =~= inside.push(b));
        inside.lemma_filter_push(b, crate::bytes::outside(ByteClass::Brace));
        if b == 0x7d && level == 0 {
        } else {
            let next_level = if b == 0x7b {
                level + 1
            } else if b == 0x7d {
                (level - 1) as nat
            } else {
                level
            };
            let next_acc = if b == 0x7b || b == 0x7d {
                acc
            } else {
                acc.push(b)
            };
            assert forall|k: int| open < k <= pos + 1 implies #[trigger] inner_level(s, open, k)
                >= 0 by {}
            lemma_block_text(s, open, pos + 1, next_level, next_acc);
        }
    } else {
        assert forall|c: int| !closes_block(s, open, c) by {}
    }
}

/// What `block_str` reads, said without reading: it succeeds where a
/// brace closes the block that opens at `pos`, stops after that brace, and
/// gives the bytes between the two that are no braces. It fails with
/// `NoMatch` where no brace stands at `pos`, and with `UnterminatedBlock`
/// where no brace closes the block.
pub proof fn lemma_block_str(s: Seq<u8>, pos: int)
    requires
        0 <= pos <= s.len(),
    ensures
        match spec_block_str(s, pos) {
            Ok((end, text)) => closes_block(s, pos, end - 1) && text == crate::bytes::without(
                s.subrange(pos + 1, end - 1),
                ByteClass::Brace,
            ),
            Err(e) => if is_byte_at(s, pos, 0x7b) {
                e == hard_error(ParseErrorKind::UnterminatedBlock, pos) && forall|c: int|
                    !closes_block(s, pos, c)
            } else {
                e == no_match(pos)
            },
        },
{
    if is_byte_at(s, pos, 0x7b) {
        reveal(Seq::filter);
        assert(s.subrange(pos + 1, pos + 1) =~= Seq::<u8>::empty());
        lemma_block_text(s, pos, pos + 1, 0, Seq::empty());
    }
}

/// Reading commands never moves backwards and never leaves the input.
pub proof fn lemma_commands_stay(s: Seq<u8>, pos: int, depth: nat, acc: Seq<CommandModel>)
    requires
        0 <= pos <= s.len(),
    ensures
        spec_commands(s, pos, depth, acc) matches Ok((end, _)) ==> pos <= end <= s.len(),
    decreases s.len() - pos,
{
    match spec_command(s, pos, depth) {
        Ok((end, command)) => {
            if pos < end <= s.len() {
                lemma_commands_stay(s, end, depth, acc.push(command));
            }
        },
        Err(_) => {},
    }
}

/// A block that nothing closes is never read. Where no closing brace
/// stands at `pos` or after it, reading a block at `pos` fails; and where
/// the commands of the block reach the end of the input, but for
/// whitespace, it fails with `UnterminatedBlock`.
pub proof fn lemma_unclosed_block(s: Seq<u8>, pos: int, depth: nat)
    requires
        0 <= pos <= s.len(),
        forall|k: int| pos <= k < s.len() ==> s[k] != 0x7d,
    ensures
        spec_block(s, pos, depth) is Err,
        is_byte_at(s, pos, 0x7b) && depth < MAX_NESTING_DEPTH ==> (match spec_commands(
            s,
            pos + 1,
            depth + 1,
            Seq::empty(),
        ) {
            Ok((end, _)) => skip_ws(s, end) == s.len() ==> spec_block(s, pos, depth) == Err::<
                (int, ArgModel),
                ParseError,
            >(hard_error(ParseErrorKind::UnterminatedBlock, pos)),
            Err(e) => spec_block(s, pos, depth) == Err::<(int, ArgModel), ParseError>(e),
        }),
{
    if is_byte_at(s, pos, 0x7b) && depth < MAX_NESTING_DEPTH {
        lemma_commands_stay(s, pos + 1, depth + 1, Seq::empty());
    }
}

} // verus!
