//! Byte classes of the grammar, and runs of bytes of one class.

use vstd::prelude::*;

verus! {

/// The classes of bytes that the lexical layer tells apart.
#[derive(Clone, Copy, Debug, PartialEq, Eq)]
pub enum ByteClass {
    /// Space, tab, carriage return and line feed: skipped between the
    /// tokens of an expression.
    Whitespace,
    /// Space and tab: skipped between the tokens of a command.
    Blank,
    /// Carriage return and line feed: they separate commands.
    Newline,
    /// An ASCII letter or the underscore.
    IdentStart,
    /// An ASCII letter, an ASCII digit or the underscore.
    IdentContinue,
    /// A sign, an ASCII digit or the decimal point.
    NumberStart,
    /// An ASCII digit or the decimal point.
    NumberContinue,
    /// Space, tab, line feed, form feed and carriage return.
    AsciiWhitespace,
    /// Any byte that is no ASCII whitespace.
    Visible,
    /// A visible byte that is no double quote and no parenthesis.
    Bare,
    /// An opening or closing brace.
    Brace,
    /// The given byte and no other.
    Only(u8),
    /// Any byte but the given one.
    Not(u8),
}

/// Whether `b` is a letter of the ASCII alphabet.
pub open spec fn is_ascii_letter(b: u8) -> bool {
    (0x41 <= b <= 0x5a) || (0x61 <= b <= 0x7a)
}

/// Whether `b` is a decimal digit.
pub open spec fn is_ascii_digit(b: u8) -> bool {
    0x30 <= b <= 0x39
}

/// Whether `b` is a space, tab, line feed, form feed or carriage return.
pub open spec fn is_ascii_whitespace(b: u8) -> bool {
    b == 0x20 || b == 0x09 || b == 0x0a || b == 0x0c || b == 0x0d
}

impl ByteClass {
    /// Whether the byte `b` belongs to the class.
    pub open spec fn has(self, b: u8) -> bool {
        match self {
            ByteClass::Whitespace => b == 0x20 || b == 0x09 || b == 0x0a || b == 0x0d,
            ByteClass::Blank => b == 0x20 || b == 0x09,
            ByteClass::Newline => b == 0x0a || b == 0x0d,
            ByteClass::IdentStart => is_ascii_letter(b) || b == 0x5f,
            ByteClass::IdentContinue => is_ascii_letter(b) || is_ascii_digit(b) || b == 0x5f,
            ByteClass::NumberStart => is_ascii_digit(b) || b == 0x2b || b == 0x2d || b == 0x2e,
            ByteClass::NumberContinue => is_ascii_digit(b) || b == 0x2e,
            ByteClass::AsciiWhitespace => is_ascii_whitespace(b),
            ByteClass::Visible => !is_ascii_whitespace(b),
            ByteClass::Bare => !is_ascii_whitespace(b) && b != 0x22 && b != 0x28 && b != 0x29,
            ByteClass::Brace => b == 0x7b || b == 0x7d,
            ByteClass::Only(one) => b == one,
            ByteClass::Not(other) => b != other,
        }
    }

    /// Whether the byte `b` belongs to the class.
    pub fn contains(self, b: u8) -> (r: bool)
        ensures
            r == self.has(b),
    {
        let letter = (0x41 <= b && b <= 0x5a) || (0x61 <= b && b <= 0x7a);
        let digit = 0x30 <= b && b <= 0x39;
        let space = b == 0x20 || b == 0x09 || b == 0x0a || b == 0x0c || b == 0x0d;
        match self {
            ByteClass::Whitespace => b == 0x20 || b == 0x09 || b == 0x0a || b == 0x0d,
            ByteClass::Blank => b == 0x20 || b == 0x09,
            ByteClass::Newline => b == 0x0a || b == 0x0d,
            ByteClass::IdentStart => letter || b == 0x5f,
            ByteClass::IdentContinue => letter || digit || b == 0x5f,
            ByteClass::NumberStart => digit || b == 0x2b || b == 0x2d || b == 0x2e,
            ByteClass::NumberContinue => digit || b == 0x2e,
            ByteClass::AsciiWhitespace => space,
            ByteClass::Visible => !space,
            ByteClass::Bare => !space && b != 0x22 && b != 0x28 && b != 0x29,
            ByteClass::Brace => b == 0x7b || b == 0x7d,
            ByteClass::Only(one) => b == one,
            ByteClass::Not(other) => b != other,
        }
    }
}

/// Whether all of `s[from..to]` belongs to `class`.
pub open spec fn all_in(s: Seq<u8>, from: int, to: int, class: ByteClass) -> bool {
    forall|i: int| from <= i < to ==> class.has(#[trigger] s[i])
}

/// Where the longest run of bytes of `class` that starts at `pos` ends:
/// the first position from `pos` on whose byte is outside the class, or
/// the length of `s` where there is none.
pub open spec fn run_end(s: Seq<u8>, pos: int, class: ByteClass) -> int
    decreases s.len() - pos,
{
    if 0 <= pos < s.len() && class.has(s[pos]) {
        run_end(s, pos + 1, class)
    } else {
        pos
    }
}

/// `run_end` is the one position that ends a run: everything before it
/// is in the class, and the byte at it, if there is one, is not.
pub proof fn lemma_run_end(s: Seq<u8>, pos: int, class: ByteClass)
    requires
        0 <= pos <= s.len(),
    ensures
        pos <= run_end(s, pos, class) <= s.len(),
        all_in(s, pos, run_end(s, pos, class), class),
        run_end(s, pos, class) < s.len() ==> !class.has(s[run_end(s, pos, class)]),
    decreases s.len() - pos,
{
    if pos < s.len() && class.has(s[pos]) {
        lemma_run_end(s, pos + 1, class);
    }
}

/// A position that ends a run of `class` from `pos` is `run_end`.
pub proof fn lemma_run_end_unique(s: Seq<u8>, pos: int, class: ByteClass, end: int)
    requires
        0 <= pos <= end <= s.len(),
        all_in(s, pos, end, class),
        end < s.len() ==> !class.has(s[end]),
    ensures
        run_end(s, pos, class) == end,
    decreases end - pos,
{
    if pos < end {
        assert(class.has(s[pos]));
        lemma_run_end_unique(s, pos + 1, class, end);
    }
}

/// Scans the longest run of bytes of `class` from `pos`.
pub fn scan_run(s: &[u8], pos: usize, class: ByteClass) -> (end: usize)
    requires
        pos <= s@.len(),
    ensures
        end == run_end(s@, pos as int, class),
        pos <= end <= s@.len(),
{
    let mut i: usize = pos;
    while i < s.len() && class.contains(s[i])
        invariant
            pos <= i <= s@.len(),
            run_end(s@, pos as int, class) == run_end(s@, i as int, class),
        decreases s@.len() - i,
    {
        i = i + 1;
    }
    i
}

/// The test that keeps the bytes outside `class`.
pub open spec fn outside(class: ByteClass) -> spec_fn(u8) -> bool {
    |b: u8| !class.has(b)
}

/// The bytes of `s` that are outside `class`, in order.
pub open spec fn without(s: Seq<u8>, class: ByteClass) -> Seq<u8> {
    s.filter(outside(class))
}

/// A copy of the bytes of `s[from..to]` that are outside `class`.
pub fn copy_without(s: &[u8], from: usize, to: usize, class: ByteClass) -> (r: Vec<u8>)
    requires
        from <= to <= s@.len(),
    ensures
        r@ == without(s@.subrange(from as int, to as int), class),
{
    let mut out: Vec<u8> = Vec::new();
    let mut i: usize = from;
    proof {
        reveal(Seq::filter);
        assert(s@.subrange(from as int, from as int) =~= Seq::<u8>::empty());
    }
    while i < to
        invariant
            from <= i <= to <= s@.len(),
            out@ == without(s@.subrange(from as int, i as int), class),
        decreases to - i,
    {
        let b: u8 = s[i];
        proof {
            let before = s@.subrange(from as int, i as int);
            assert(s@.subrange(from as int, i + 1) =~= before.push(b));
            before.lemma_filter_push(b, outside(class));
        }
        if !class.contains(b) {
            out.push(b);
        }
        i = i + 1;
    }
    out
}

/// The texts of `v`, as byte sequences.
pub open spec fn texts(v: Seq<Vec<u8>>) -> Seq<Seq<u8>> {
    v.map_values(|t: Vec<u8>| t@)
}

} // verus!
