//! Lexical primitives: whitespace, identifiers, the shape of numbers,
//! quoted strings and line breaks. Each is a function of the input and a
//! position in it; none builds a token stream.

use vstd::prelude::*;
use vstd::slice::{slice_subrange, slice_to_vec};
use crate::bytes::{all_in, lemma_run_end, run_end, scan_run, ByteClass};
use crate::error::{hard_error, no_match, ParseError, ParseErrorKind};

verus! {

/// The position after the whitespace that starts at `pos`.
pub open spec fn skip_ws(s: Seq<u8>, pos: int) -> int {
    run_end(s, pos, ByteClass::Whitespace)
}

/// The position after the spaces and tabs that start at `pos`.
pub open spec fn skip_blank(s: Seq<u8>, pos: int) -> int {
    run_end(s, pos, ByteClass::Blank)
}

/// Where the identifier that starts at `pos` ends: a letter or underscore,
/// then letters, digits and underscores, as many as there are.
pub open spec fn identifier_end(s: Seq<u8>, pos: int) -> Option<int> {
    if 0 <= pos < s.len() && ByteClass::IdentStart.has(s[pos]) {
        Some(run_end(s, pos + 1, ByteClass::IdentContinue))
    } else {
        None
    }
}

/// Where the text in the shape of a number that starts at `pos` ends: a
/// sign, digit or point, then digits and points, as many as there are.
pub open spec fn number_end(s: Seq<u8>, pos: int) -> Option<int> {
    if 0 <= pos < s.len() && ByteClass::NumberStart.has(s[pos]) {
        Some(run_end(s, pos + 1, ByteClass::NumberContinue))
    } else {
        None
    }
}

/// Where the line break that starts at `pos` ends: spaces and tabs, one
/// carriage return or line feed or more, then spaces and tabs again.
pub open spec fn newlines_end(s: Seq<u8>, pos: int) -> Option<int> {
    let next = skip_blank(s, pos);
    let after = run_end(s, next, ByteClass::Newline);
    if after > next {
        Some(skip_blank(s, after))
    } else {
        None
    }
}

/// The position after the line break at `pos`, or `pos` where there is none.
pub open spec fn after_newlines(s: Seq<u8>, pos: int) -> int {
    match newlines_end(s, pos) {
        Some(end) => end,
        None => pos,
    }
}

/// The quoted string that opens at `pos`: where it ends, and the bytes
/// between its two double quotes. Nothing inside is an escape.
pub open spec fn quoted_string(s: Seq<u8>, pos: int) -> Result<(int, Seq<u8>), ParseError> {
    if 0 <= pos < s.len() && s[pos] == 0x22 {
        let close = run_end(s, pos + 1, ByteClass::Not(0x22));
        if close < s.len() {
            Ok((close + 1, s.subrange(pos + 1, close)))
        } else {
            Err(hard_error(ParseErrorKind::UnterminatedString, pos))
        }
    } else {
        Err(no_match(pos))
    }
}

/// A copy of `s[from..to]`.
pub fn copy_range(s: &[u8], from: usize, to: usize) -> (r: Vec<u8>)
    requires
        from <= to <= s@.len(),
    ensures
        r@ == s@.subrange(from as int, to as int),
{
    slice_to_vec(slice_subrange(s, from, to))
}

/// The position after the whitespace that starts at `pos`.
pub fn skip_whitespace_at(s: &[u8], pos: usize) -> (end: usize)
    requires
        pos <= s@.len(),
    ensures
        end == skip_ws(s@, pos as int),
        pos <= end <= s@.len(),
{
    scan_run(s, pos, ByteClass::Whitespace)
}

/// The position after the spaces and tabs that start at `pos`.
pub fn skip_blank_at(s: &[u8], pos: usize) -> (end: usize)
    requires
        pos <= s@.len(),
    ensures
        end == skip_blank(s@, pos as int),
        pos <= end <= s@.len(),
{
    scan_run(s, pos, ByteClass::Blank)
}

/// Where the identifier that starts at `pos` ends, if one starts there.
pub fn scan_identifier_at(s: &[u8], pos: usize) -> (r: Option<usize>)
    requires
        pos <= s@.len(),
    ensures
        r matches Some(end) ==> identifier_end(s@, pos as int) == Some(end as int) && pos < end
            <= s@.len(),
        r is None ==> identifier_end(s@, pos as int) is None,
{
    if pos < s.len() && ByteClass::IdentStart.contains(s[pos]) {
        Some(scan_run(s, pos + 1, ByteClass::IdentContinue))
    } else {
        None
    }
}

/// Where the text in the shape of a number that starts at `pos` ends, if
/// one starts there.
pub fn scan_number_at(s: &[u8], pos: usize) -> (r: Option<usize>)
    requires
        pos <= s@.len(),
    ensures
        r matches Some(end) ==> number_end(s@, pos as int) == Some(end as int) && pos < end
            <= s@.len(),
        r is None ==> number_end(s@, pos as int) is None,
{
    if pos < s.len() && ByteClass::NumberStart.contains(s[pos]) {
        Some(scan_run(s, pos + 1, ByteClass::NumberContinue))
    } else {
        None
    }
}

/// Where the line break that starts at `pos` ends, if one starts there.
pub fn scan_newlines_at(s: &[u8], pos: usize) -> (r: Option<usize>)
    requires
        pos <= s@.len(),
    ensures
        r matches Some(end) ==> newlines_end(s@, pos as int) == Some(end as int) && pos < end
            <= s@.len(),
        r is None ==> newlines_end(s@, pos as int) is None,
{
    let next: usize = scan_run(s, pos, ByteClass::Blank);
    let after: usize = scan_run(s, next, ByteClass::Newline);
    if after > next {
        Some(scan_run(s, after, ByteClass::Blank))
    } else {
        None
    }
}

/// The position after the line break at `pos`, or `pos` where there is
/// none.
pub fn skip_newlines_at(s: &[u8], pos: usize) -> (end: usize)
    requires
        pos <= s@.len(),
    ensures
        end == after_newlines(s@, pos as int),
        pos <= end <= s@.len(),
{
    match scan_newlines_at(s, pos) {
        Some(end) => end,
        None => pos,
    }
}

/// The quoted string that opens at `pos`: where it ends, and the bytes
/// between its quotes.
pub fn scan_quoted_string_at(s: &[u8], pos: usize) -> (r: Result<(usize, Vec<u8>), ParseError>)
    requires
        pos <= s@.len(),
    ensures
        match r {
            Ok((end, text)) => quoted_string(s@, pos as int) == Ok::<_, ParseError>(
                (end as int, text@),
            ) && pos + 2 <= end <= s@.len(),
            Err(e) => quoted_string(s@, pos as int) == Err::<(int, Seq<u8>), _>(e),
        },
{
    if pos < s.len() && s[pos] == 0x22 {
        let close: usize = scan_run(s, pos + 1, ByteClass::Not(0x22));
        if close < s.len() {
            Ok((close + 1, copy_range(s, pos + 1, close)))
        } else {
            Err(ParseError { kind: ParseErrorKind::UnterminatedString, position: pos })
        }
    } else {
        Err(ParseError { kind: ParseErrorKind::NoMatch, position: pos })
    }
}

/// What is left of `input` after its leading whitespace: spaces, tabs,
/// carriage returns and line feeds.
pub fn skip_whitespace(input: &[u8]) -> (rest: &[u8])
    ensures
        rest@ == input@.skip(skip_ws(input@, 0)),
        0 <= skip_ws(input@, 0) <= input@.len(),
        forall|i: int| 0 <= i < skip_ws(input@, 0) ==> ByteClass::Whitespace.has(#[trigger] input@[i]),
        rest@.len() > 0 ==> !ByteClass::Whitespace.has(rest@[0]),
{
    proof {
        lemma_run_end(input@, 0, ByteClass::Whitespace);
    }
    let end: usize = skip_whitespace_at(input, 0);
    slice_subrange(input, end, input.len())
}

/// The identifier at the start of `input`: what follows it, and its text.
/// `None`, with nothing consumed, where `input` starts with no identifier.
///
/// The text starts with a letter or underscore, goes on with letters,
/// digits and underscores, and is as long as it can be.
pub fn scan_identifier(input: &[u8]) -> (r: Option<(&[u8], &[u8])>)
    ensures
        match r {
            Some((rest, text)) => identifier_end(input@, 0) == Some(text@.len() as int)
                && input@ == text@ + rest@ && text@.len() > 0 && ByteClass::IdentStart.has(
                text@[0],
            ) && all_in(text@, 1, text@.len() as int, ByteClass::IdentContinue) && (rest@.len() > 0
                ==> !ByteClass::IdentContinue.has(rest@[0])),
            None => identifier_end(input@, 0) is None && (input@.len() == 0
                || !ByteClass::IdentStart.has(input@[0])),
        },
{
    proof {
        if input@.len() > 0 {
            lemma_run_end(input@, 1, ByteClass::IdentContinue);
        }
    }
    match scan_identifier_at(input, 0) {
        Some(end) => {
            let text = slice_subrange(input, 0, end);
            let rest = slice_subrange(input, end, input.len());
            assert(input@ =~= text@ + rest@);
            Some((rest, text))
        },
        None => None,
    }
}

/// The text in the shape of a number at the start of `input`: what
/// follows it, and the text. `None`, with nothing consumed, where `input`
/// starts with no sign, digit or point.
///
/// The text starts with a sign, digit or point, goes on with digits and
/// points, and is as long as it can be. It need not be a literal: see
/// `Number::from_text`.
pub fn scan_number(input: &[u8]) -> (r: Option<(&[u8], &[u8])>)
    ensures
        match r {
            Some((rest, text)) => number_end(input@, 0) == Some(text@.len() as int) && input@
                == text@ + rest@ && text@.len() > 0 && ByteClass::NumberStart.has(text@[0])
                && all_in(text@, 1, text@.len() as int, ByteClass::NumberContinue) && (rest@.len()
                > 0 ==> !ByteClass::NumberContinue.has(rest@[0])),
            None => number_end(input@, 0) is None && (input@.len() == 0
                || !ByteClass::NumberStart.has(input@[0])),
        },
{
    proof {
        if input@.len() > 0 {
            lemma_run_end(input@, 1, ByteClass::NumberContinue);
        }
    }
    match scan_number_at(input, 0) {
        Some(end) => {
            let text = slice_subrange(input, 0, end);
            let rest = slice_subrange(input, end, input.len());
            assert(input@ =~= text@ + rest@);
            Some((rest, text))
        },
        None => None,
    }
}

/// The quoted string at the start of `input`: what follows its closing
/// quote, and the bytes between the quotes, of which none is a quote.
///
/// Fails with `NoMatch` where `input` starts with no double quote, and
/// with `UnterminatedString` where no second double quote follows.
pub fn scan_quoted_string(input: &[u8]) -> (r: Result<(&[u8], Vec<u8>), ParseError>)
    ensures
        match r {
            Ok((rest, text)) => quoted_string(input@, 0) == Ok::<(int, Seq<u8>), ParseError>(
                ((text@.len() + 2) as int, text@),
            ) && input@ == seq![0x22u8] + text@ + seq![0x22u8] + rest@ && all_in(
                text@,
                0,
                text@.len() as int,
                ByteClass::Not(0x22),
            ),
            Err(e) => quoted_string(input@, 0) == Err::<(int, Seq<u8>), ParseError>(e) && (e.kind
                == ParseErrorKind::NoMatch <==> (input@.len() == 0 || input@[0] != 0x22)) && (
            e.kind == ParseErrorKind::UnterminatedString <==> (input@.len() > 0 && input@[0]
                == 0x22 && all_in(input@, 1, input@.len() as int, ByteClass::Not(0x22))))
                && e.position == 0,
        },
{
    proof {
        if input@.len() > 0 {
            lemma_run_end(input@, 1, ByteClass::Not(0x22));
        }
    }
    match scan_quoted_string_at(input, 0) {
        Ok((end, text)) => {
            let rest = slice_subrange(input, end, input.len());
            assert(input@ =~= seq![0x22u8] + text@ + seq![0x22u8] + rest@);
            Ok((rest, text))
        },
        Err(e) => Err(e),
    }
}

} // verus!
