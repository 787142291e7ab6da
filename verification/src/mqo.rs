//! Reading the text of a Metasequoia document: tokens, lines, quoted
//! fields and counts, from bytes that are already in memory.

use vstd::prelude::*;
use vstd::slice::slice_subrange;
use crate::bytes::{copy_without, is_ascii_digit, lemma_run_end, run_end, scan_run, without, ByteClass};
use crate::builtins::{is_word, word_bytes};
use crate::lexer::copy_range;
use crate::number::{check_mantissa, is_mantissa, unsigned_part};

verus! {

/// A bone of a model's skeleton.
pub struct Bone {}

/// Why a piece of a Metasequoia document could not be read.
#[derive(Clone, Copy, Debug, PartialEq, Eq, Structural)]
pub enum MqoError {
    /// The input ended before the token or line did.
    UnexpectedEof,
    /// A number was expected where there is nothing.
    Empty,
    /// A number holds a byte that is no decimal digit, or is a lone sign.
    InvalidDigit,
    /// A number is too large for its type.
    Overflow,
    /// A number with a fraction was expected where something else is.
    InvalidFloat,
    /// The document does not start with the words of a Metasequoia
    /// document.
    UnexpectedHeader,
    /// The document is of a version other than 1.0 and 1.1.
    UnsupportedVersion,
    /// The materials do not end with a closing brace.
    MaterialNotClosed,
    /// The vertices of an object do not end with a closing brace.
    VertexNotClosed,
    /// The faces of an object do not end with a closing brace.
    FaceNotClosed,
    /// A face names a vertex beyond what 16 bits count.
    TooManyVertices,
}

/// What is left of `i` after its leading ASCII whitespace.
pub fn skip_whitespace(i: &[u8]) -> (rest: &[u8])
    ensures
        rest@ == i@.skip(run_end(i@, 0, ByteClass::AsciiWhitespace)),
        rest@.len() <= i@.len(),
        forall|k: int|
            0 <= k < i@.len() - rest@.len() ==> ByteClass::AsciiWhitespace.has(#[trigger] i@[k]),
        rest@.len() > 0 ==> !ByteClass::AsciiWhitespace.has(rest@[0]),
{
    proof {
        lemma_run_end(i@, 0, ByteClass::AsciiWhitespace);
    }
    let end: usize = scan_run(i, 0, ByteClass::AsciiWhitespace);
    slice_subrange(i, end, i.len())
}

/// The next token of `s`: where what follows it starts, and the token.
///
/// A token is a run of visible bytes, after any whitespace, that one
/// whitespace byte ends. The byte that ends it is consumed. Where the
/// input ends first, there is no token.
pub open spec fn spec_read_token(s: Seq<u8>) -> Result<(int, Seq<u8>), MqoError> {
    let start = run_end(s, 0, ByteClass::AsciiWhitespace);
    let end = run_end(s, start, ByteClass::Visible);
    if end < s.len() {
        Ok((end + 1, s.subrange(start, end)))
    } else {
        Err(MqoError::UnexpectedEof)
    }
}

/// Reads the next token of `input`: what follows it, and the token.
pub fn read_token(input: &[u8]) -> (r: Result<(&[u8], Vec<u8>), MqoError>)
    ensures
        match r {
            Ok((rest, token)) => spec_read_token(input@) matches Ok((next, t)) && token@ == t
                && 0 < next <= input@.len() && rest@ == input@.skip(next) && token@.len() > 0
                && rest@.len() < input@.len(),
            Err(e) => spec_read_token(input@) == Err::<(int, Seq<u8>), MqoError>(e),
        },
{
    let start: usize = scan_run(input, 0, ByteClass::AsciiWhitespace);
    let end: usize = scan_run(input, start, ByteClass::Visible);
    proof {
        lemma_run_end(input@, 0, ByteClass::AsciiWhitespace);
        if start < input@.len() {
            assert(ByteClass::Visible.has(input@[start as int]));
            lemma_run_end(input@, start + 1, ByteClass::Visible);
        }
    }
    if end < input.len() {
        Ok((slice_subrange(input, end + 1, input.len()), copy_range(input, start, end)))
    } else {
        Err(MqoError::UnexpectedEof)
    }
}

/// The next line of `s` that is not empty: where what follows it starts,
/// and the line without its carriage returns.
///
/// Line feeds and carriage returns before the line are skipped; the line
/// feed that ends it is consumed. Where the input ends first, there is no
/// line.
pub open spec fn spec_read_line(s: Seq<u8>) -> Result<(int, Seq<u8>), MqoError> {
    let start = run_end(s, 0, ByteClass::Newline);
    let end = run_end(s, start, ByteClass::Not(0x0a));
    if end < s.len() {
        Ok((end + 1, without(s.subrange(start, end), ByteClass::Only(0x0d))))
    } else {
        Err(MqoError::UnexpectedEof)
    }
}

/// Reads the next line of `input` that is not empty: what follows it, and
/// the line.
pub fn read_line(input: &[u8]) -> (r: Result<(&[u8], Vec<u8>), MqoError>)
    ensures
        match r {
            Ok((rest, line)) => spec_read_line(input@) matches Ok((next, l)) && line@ == l && 0
                < next <= input@.len() && rest@ == input@.skip(next) && rest@.len()
                < input@.len(),
            Err(e) => spec_read_line(input@) == Err::<(int, Seq<u8>), MqoError>(e),
        },
{
    let start: usize = scan_run(input, 0, ByteClass::Newline);
    let end: usize = scan_run(input, start, ByteClass::Not(0x0a));
    proof {
        lemma_run_end(input@, 0, ByteClass::Newline);
    }
    if end < input.len() {
        Ok(
            (
                slice_subrange(input, end + 1, input.len()),
                copy_without(input, start, end, ByteClass::Only(0x0d)),
            ),
        )
    } else {
        Err(MqoError::UnexpectedEof)
    }
}

/// The next field of the line `s`: where what follows it starts, and the
/// field.
///
/// After any whitespace, a field is a run of bare bytes. Whitespace ends
/// it and is consumed; a closing parenthesis ends it and stays; the end of
/// the line ends it. A double quote or an opening parenthesis ends the
/// run too and opens a quoted part, which reaches to the next double
/// quote or closing parenthesis, or to the end of the line: the field is
/// then the run and the visible bytes of the quoted part.
pub open spec fn spec_quotok(s: Seq<u8>) -> (int, Seq<u8>) {
    let lead = run_end(s, 0, ByteClass::AsciiWhitespace);
    let stop = run_end(s, lead, ByteClass::Bare);
    let head = s.subrange(lead, stop);
    if stop >= s.len() {
        (s.len() as int, head)
    } else if s[stop] == 0x29 {
        (stop, head)
    } else if s[stop] == 0x22 || s[stop] == 0x28 {
        let closer = if s[stop] == 0x22 {
            0x22u8
        } else {
            0x29u8
        };
        let close = run_end(s, stop + 1, ByteClass::Not(closer));
        let quoted = without(s.subrange(stop + 1, close), ByteClass::AsciiWhitespace);
        if close < s.len() {
            (close + 1, head + quoted)
        } else {
            (s.len() as int, head + quoted)
        }
    } else {
        (stop + 1, head)
    }
}

/// Reads the next field of the line `src`: what follows it, and the
/// field. A line always has a next field, if only an empty one.
pub fn quotok(src: &[u8]) -> (r: Result<(&[u8], Vec<u8>), MqoError>)
    ensures
        r matches Ok((rest, field)) && field@ == spec_quotok(src@).1 && 0 <= spec_quotok(src@).0
            <= src@.len() && rest@ == src@.skip(spec_quotok(src@).0),
{
    let lead: usize = scan_run(src, 0, ByteClass::AsciiWhitespace);
    let stop: usize = scan_run(src, lead, ByteClass::Bare);
    let mut field: Vec<u8> = copy_range(src, lead, stop);
    if stop >= src.len() {
        return Ok((slice_subrange(src, src.len(), src.len()), field));
    }
    let b: u8 = src[stop];
    if b == 0x29 {
        Ok((slice_subrange(src, stop, src.len()), field))
    } else if b == 0x22 || b == 0x28 {
        let closer: u8 = if b == 0x22 {
            0x22
        } else {
            0x29
        };
        let close: usize = scan_run(src, stop + 1, ByteClass::Not(closer));
        let mut quoted: Vec<u8> = copy_without(src, stop + 1, close, ByteClass::AsciiWhitespace);
        field.append(&mut quoted);
        let next: usize = if close < src.len() {
            close + 1
        } else {
            src.len()
        };
        Ok((slice_subrange(src, next, src.len()), field))
    } else {
        Ok((slice_subrange(src, stop + 1, src.len()), field))
    }
}

/// The number that the decimal digits `digits` write.
pub open spec fn decimal_value(digits: Seq<u8>) -> nat
    decreases digits.len(),
{
    if digits.len() == 0 {
        0
    } else {
        decimal_value(digits.drop_last()) * 10 + (digits.last() - 0x30) as nat
    }
}

/// The digits of a count: `text` without a leading plus sign.
pub open spec fn count_digits(text: Seq<u8>) -> Seq<u8> {
    if text.len() > 0 && text[0] == 0x2b {
        text.skip(1)
    } else {
        text
    }
}

/// Whether every byte of `digits` is a decimal digit.
pub open spec fn all_digits(digits: Seq<u8>) -> bool {
    forall|k: int| 0 <= k < digits.len() ==> is_ascii_digit(#[trigger] digits[k])
}

/// What the text of a count reads as: an optional plus sign, then
/// decimal digits, one at least.
pub open spec fn spec_parse_u8(text: Seq<u8>) -> Result<u64, MqoError> {
    let digits = count_digits(text);
    if text.len() == 0 {
        Err(MqoError::Empty)
    } else if digits.len() == 0 || !all_digits(digits) {
        Err(MqoError::InvalidDigit)
    } else if decimal_value(digits) > u64::MAX {
        Err(MqoError::Overflow)
    } else {
        Ok(decimal_value(digits) as u64)
    }
}

/// Reads the number that the decimal digits `i[start..]` write. Where
/// it does not fit into 64 bits, the result is `None`.
fn parse_digits(i: &[u8], start: usize) -> (r: Result<Option<u64>, MqoError>)
    requires
        start <= i@.len(),
    ensures
        match r {
            Ok(Some(v)) => all_digits(i@.skip(start as int)) && i@.len() > start && v
                == decimal_value(i@.skip(start as int)),
            Ok(None) => all_digits(i@.skip(start as int)) && i@.len() > start && decimal_value(
                i@.skip(start as int),
            ) > u64::MAX,
            Err(e) => e == MqoError::InvalidDigit && (i@.len() == start || !all_digits(
                i@.skip(start as int),
            )),
        },
{
    let ghost digits = i@.skip(start as int);
    if start == i.len() {
        return Err(MqoError::InvalidDigit);
    }
    let mut k: usize = start;
    let mut value: u64 = 0;
    let mut overflow: bool = false;
    assert(digits.take(0) =~= Seq::<u8>::empty());
    while k < i.len()
        invariant
            start <= k <= i@.len(),
            start < i@.len(),
            digits == i@.skip(start as int),
            all_digits(digits.take(k - start)),
            !overflow ==> value == decimal_value(digits.take(k - start)),
            overflow ==> decimal_value(digits.take(k - start)) > u64::MAX,
        decreases i@.len() - k,
    {
        let b: u8 = i[k];
        assert(digits[k - start] == b);
        if !(0x30 <= b && b <= 0x39) {
            return Err(MqoError::InvalidDigit);
        }
        let d: u64 = (b - 0x30) as u64;
        proof {
            let next = digits.take(k - start + 1);
            assert(next.drop_last() =~= digits.take(k - start));
            assert(next.last() == b);
            assert forall|j: int| 0 <= j < next.len() implies is_ascii_digit(#[trigger] next[j]) by {
                if j < k - start {
                    assert(digits.take(k - start)[j] == next[j]);
                }
            }
        }
        if !overflow {
            if value > (u64::MAX - d) / 10 {
                overflow = true;
            } else {
                value = value * 10 + d;
            }
        }
        k = k + 1;
    }
    assert(digits.take(k - start) =~= digits);
    if overflow {
        Ok(None)
    } else {
        Ok(Some(value))
    }
}

/// Reads the count that `i` writes in decimal.
pub fn parse_u8(i: &[u8]) -> (r: Result<u64, MqoError>)
    ensures
        r == spec_parse_u8(i@),
{
    if i.len() == 0 {
        return Err(MqoError::Empty);
    }
    let start: usize = if i[0] == 0x2b {
        1
    } else {
        0
    };
    assert(count_digits(i@) =~= i@.skip(start as int));
    match parse_digits(i, start) {
        Ok(Some(v)) => Ok(v),
        Ok(None) => Err(MqoError::Overflow),
        Err(e) => Err(e),
    }
}

/// The digits of a signed number: `text` without a leading sign.
pub open spec fn signed_digits(text: Seq<u8>) -> Seq<u8> {
    if text.len() > 0 && (text[0] == 0x2b || text[0] == 0x2d) {
        text.skip(1)
    } else {
        text
    }
}

/// The number that `text` writes: an optional sign, then decimal digits,
/// one at least.
pub open spec fn signed_value(text: Seq<u8>) -> int {
    if text.len() > 0 && text[0] == 0x2d {
        -(decimal_value(signed_digits(text)) as int)
    } else {
        decimal_value(signed_digits(text)) as int
    }
}

/// What the text of a signed number of 32 bits reads as.
pub open spec fn spec_parse_i32(text: Seq<u8>) -> Result<i32, MqoError> {
    let digits = signed_digits(text);
    if text.len() == 0 {
        Err(MqoError::Empty)
    } else if digits.len() == 0 || !all_digits(digits) {
        Err(MqoError::InvalidDigit)
    } else if !(i32::MIN <= signed_value(text) <= i32::MAX) {
        Err(MqoError::Overflow)
    } else {
        Ok(signed_value(text) as i32)
    }
}

/// Reads the signed number that `i` writes in decimal.
pub fn parse_i32(i: &[u8]) -> (r: Result<i32, MqoError>)
    ensures
        r == spec_parse_i32(i@),
{
    if i.len() == 0 {
        return Err(MqoError::Empty);
    }
    let negative = i[0] == 0x2d;
    let start: usize = if negative || i[0] == 0x2b {
        1
    } else {
        0
    };
    assert(signed_digits(i@) =~= i@.skip(start as int));
    match parse_digits(i, start) {
        Ok(Some(v)) => {
            if negative {
                if v <= 0x8000_0000 {
                    Ok((-(v as i64)) as i32)
                } else {
                    Err(MqoError::Overflow)
                }
            } else {
                if v <= 0x7fff_ffff {
                    Ok(v as i32)
                } else {
                    Err(MqoError::Overflow)
                }
            }
        },
        Ok(None) => Err(MqoError::Overflow),
        Err(e) => Err(e),
    }
}

/// The lower-case letter of an upper-case ASCII letter; any other byte
/// itself.
pub open spec fn lower_byte(b: u8) -> u8 {
    if 0x41 <= b <= 0x5a {
        (b + 0x20) as u8
    } else {
        b
    }
}

/// `s` with its ASCII letters in lower case.
pub open spec fn lowered(s: Seq<u8>) -> Seq<u8> {
    Seq::new(s.len(), |i: int| lower_byte(s[i]))
}

/// A copy of `s` with its ASCII letters in lower case.
pub fn to_lower(s: &[u8]) -> (r: Vec<u8>)
    ensures
        r@ == lowered(s@),
{
    let mut out: Vec<u8> = Vec::new();
    let mut i: usize = 0;
    while i < s.len()
        invariant
            i <= s@.len(),
            out@.len() == i,
            forall|k: int| 0 <= k < i ==> out@[k] == lower_byte(s@[k]),
        decreases s@.len() - i,
    {
        let b: u8 = s[i];
        if 0x41 <= b && b <= 0x5a {
            out.push(b + 0x20);
        } else {
            out.push(b);
        }
        i = i + 1;
    }
    assert(out@ =~= lowered(s@));
    out
}

/// Whether `x` is the exponent of a float: an optional sign, then
/// digits, one at least.
pub open spec fn is_exponent(x: Seq<u8>) -> bool {
    signed_digits(x).len() > 0 && all_digits(signed_digits(x))
}

/// Whether `text` writes a float, as the standard library reads one: an
/// optional sign, then `inf`, `infinity` or `nan`, or digits with at most
/// one point among them and after them, if anything, an `e` and an
/// exponent. Letters count in either case.
pub open spec fn is_float_text(text: Seq<u8>) -> bool {
    let body = unsigned_part(lowered(text));
    let mark = run_end(body, 0, ByteClass::Not(0x65));
    ||| body == word_bytes("inf"@)
    ||| body == word_bytes("infinity"@)
    ||| body == word_bytes("nan"@)
    ||| (is_mantissa(body.take(mark)) && (mark == body.len() || is_exponent(body.skip(mark + 1))))
}

/// Whether `text` writes a float.
pub fn check_float_text(text: &[u8]) -> (r: bool)
    ensures
        r == is_float_text(text@),
{
    let low = to_lower(text);
    let start: usize = if low.len() > 0 && (low[0] == 0x2b || low[0] == 0x2d) {
        1
    } else {
        0
    };
    let body = copy_range(low.as_slice(), start, low.len());
    assert(body@ =~= unsigned_part(lowered(text@)));
    proof {
        reveal_strlit("inf");
        reveal_strlit("infinity");
        reveal_strlit("nan");
    }
    if is_word(body.as_slice(), "inf") || is_word(body.as_slice(), "infinity") || is_word(
        body.as_slice(),
        "nan",
    ) {
        return true;
    }
    let mark: usize = scan_run(body.as_slice(), 0, ByteClass::Not(0x65));
    assert(body@.subrange(0, mark as int) =~= body@.take(mark as int));
    if !check_mantissa(body.as_slice(), 0, mark) {
        return false;
    }
    if mark == body.len() {
        return true;
    }
    let exponent = slice_subrange(body.as_slice(), mark + 1, body.len());
    assert(exponent@ =~= body@.skip(mark + 1));
    match parse_i32(exponent) {
        Err(MqoError::Empty) => false,
        Err(MqoError::InvalidDigit) => false,
        _ => true,
    }
}

} // verus!
