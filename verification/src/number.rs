//! Number literals, kept as the text that was scanned.

use vstd::prelude::*;
use vstd::slice::{slice_subrange, slice_to_vec};
use crate::bytes::is_ascii_digit;

verus! {

/// Whether `b` is a plus or minus sign.
pub open spec fn is_sign(b: u8) -> bool {
    b == 0x2b || b == 0x2d
}

/// The digits and decimal points of a literal: `text` without its sign.
pub open spec fn unsigned_part(text: Seq<u8>) -> Seq<u8> {
    if text.len() > 0 && is_sign(text[0]) {
        text.skip(1)
    } else {
        text
    }
}

/// Whether `text` is a decimal literal: an optional sign, then digits with
/// at most one decimal point among them, at least one digit in all.
///
/// These are the texts over signs, digits and points that the standard
/// library reads as a 64-bit float.
pub open spec fn is_decimal_literal(text: Seq<u8>) -> bool {
    is_mantissa(unsigned_part(text))
}

/// Whether `body` is digits with at most one decimal point among them,
/// at least one digit in all.
pub open spec fn is_mantissa(body: Seq<u8>) -> bool {
    &&& forall|i: int| 0 <= i < body.len() ==> is_ascii_digit(#[trigger] body[i]) || body[i] == 0x2e
    &&& forall|i: int, j: int|
        0 <= i < body.len() && 0 <= j < body.len() && #[trigger] body[i] == 0x2e
            && #[trigger] body[j] == 0x2e ==> i == j
    &&& exists|i: int| 0 <= i < body.len() && is_ascii_digit(#[trigger] body[i])
}

/// A number literal of a document.
///
/// It holds the literal as written. Its value is the 64-bit float nearest
/// to the decimal number that the text denotes.
#[derive(Debug, PartialEq, Eq)]
pub struct Number {
    text: Vec<u8>,
}

impl Number {
    #[verifier::type_invariant]
    spec fn is_literal(self) -> bool {
        is_decimal_literal(self.text@)
    }
}

impl View for Number {
    type V = Seq<u8>;

    closed spec fn view(&self) -> Seq<u8> {
        self.text@
    }
}

/// Whether `text[from..to]` is digits with at most one decimal point
/// among them, at least one digit in all.
pub fn check_mantissa(text: &[u8], from: usize, to: usize) -> (r: bool)
    requires
        from <= to <= text@.len(),
    ensures
        r == is_mantissa(text@.subrange(from as int, to as int)),
{
    let ghost body = text@.subrange(from as int, to as int);
    let mut i: usize = from;
    let mut digits: bool = false;
    let mut point: bool = false;
    let ghost mut digit_at: int = 0;
    let ghost mut point_at: int = 0;
    while i < to
        invariant
            from <= i <= to <= text@.len(),
            body == text@.subrange(from as int, to as int),
            forall|k: int| 0 <= k < i - from ==> is_ascii_digit(#[trigger] body[k]) || body[k] == 0x2e,
            digits ==> 0 <= digit_at < i - from && is_ascii_digit(body[digit_at]),
            !digits ==> forall|k: int| 0 <= k < i - from ==> !is_ascii_digit(#[trigger] body[k]),
            point ==> 0 <= point_at < i - from && body[point_at] == 0x2e,
            forall|k: int| 0 <= k < i - from && #[trigger] body[k] == 0x2e ==> point && k == point_at,
        decreases to - i,
    {
        let b: u8 = text[i];
        assert(body[i - from] == b);
        if 0x30 <= b && b <= 0x39 {
            proof {
                digit_at = i - from;
            }
            digits = true;
        } else if b == 0x2e {
            if point {
                assert(body[point_at] == 0x2e && body[i - from] == 0x2e);
                return false;
            }
            proof {
                point_at = i - from;
            }
            point = true;
        } else {
            return false;
        }
        i = i + 1;
    }
    digits
}

/// Whether `text[from..to]` is a decimal literal.
pub fn check_decimal_literal(text: &[u8], from: usize, to: usize) -> (r: bool)
    requires
        from <= to <= text@.len(),
    ensures
        r == is_decimal_literal(text@.subrange(from as int, to as int)),
{
    let start: usize = if from < to && (text[from] == 0x2b || text[from] == 0x2d) {
        from + 1
    } else {
        from
    };
    assert(unsigned_part(text@.subrange(from as int, to as int)) =~= text@.subrange(
        start as int,
        to as int,
    ));
    check_mantissa(text, start, to)
}

impl Number {
    /// The literal `text`, if it is one.
    pub fn from_text(text: &[u8]) -> (r: Option<Number>)
        ensures
            r is Some <==> is_decimal_literal(text@),
            r matches Some(n) ==> n@ == text@,
    {
        assert(text@.subrange(0, text@.len() as int) =~= text@);
        Number::from_range(text, 0, text.len())
    }

    /// The literal `s[from..to]`, if it is one.
    pub fn from_range(s: &[u8], from: usize, to: usize) -> (r: Option<Number>)
        requires
            from <= to <= s@.len(),
        ensures
            r is Some <==> is_decimal_literal(s@.subrange(from as int, to as int)),
            r matches Some(n) ==> n@ == s@.subrange(from as int, to as int),
    {
        if check_decimal_literal(s, from, to) {
            Some(Number { text: slice_to_vec(slice_subrange(s, from, to)) })
        } else {
            None
        }
    }

    /// A second copy of the literal.
    pub fn duplicate(&self) -> (r: Number)
        ensures
            r@ == self@,
    {
        proof {
            use_type_invariant(self);
        }
        let text = slice_to_vec(self.text.as_slice());
        Number { text }
    }

    /// The literal as it was written: a decimal literal, always.
    pub fn text(&self) -> (r: &[u8])
        ensures
            r@ == self@,
            is_decimal_literal(r@),
    {
        proof {
            use_type_invariant(self);
        }
        self.text.as_slice()
    }
}

} // verus!
