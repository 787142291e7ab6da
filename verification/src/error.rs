//! What can go wrong while a document is read.

use vstd::prelude::*;

verus! {

/// Why a parser gave up.
#[derive(Clone, Copy, Debug, PartialEq, Eq, Structural)]
pub enum ParseErrorKind {
    /// The input at this position is not what the parser looks for. The
    /// parser consumed nothing, and an enclosing alternation goes on with
    /// its next rule.
    NoMatch,
    /// A number has the shape of a literal but no value, as `1.2.3` or a
    /// lone sign.
    MalformedLiteral,
    /// A double quote opens a string that the input never closes.
    UnterminatedString,
    /// A brace opens a block and the input ends before it is closed.
    UnterminatedBlock,
    /// Parentheses, argument lists or blocks nest deeper than
    /// `MAX_NESTING_DEPTH`.
    DepthLimitExceeded,
    /// No rule of the document grammar matches what is left of the input.
    UnexpectedInput,
}

/// A failure to parse, with the byte offset it is about.
///
/// For `NoMatch` and `UnexpectedInput` the offset is the furthest one at
/// which an alternative tried there gave up; for the other kinds it is the
/// offset where the offending literal, string or nesting construct opens.
#[derive(Clone, Copy, Debug, PartialEq, Eq, Structural)]
pub struct ParseError {
    pub kind: ParseErrorKind,
    pub position: usize,
}

impl ParseError {
    /// Whether an enclosing alternation may go on with its next rule.
    pub open spec fn recoverable(self) -> bool {
        self.kind == ParseErrorKind::NoMatch
    }

    /// Whether an enclosing alternation may go on with its next rule.
    pub fn is_recoverable(&self) -> (r: bool)
        ensures
            r == self.recoverable(),
    {
        match self.kind {
            ParseErrorKind::NoMatch => true,
            _ => false,
        }
    }
}

/// The error of a parser that found nothing to match at `pos`.
pub open spec fn no_match(pos: int) -> ParseError {
    ParseError { kind: ParseErrorKind::NoMatch, position: pos as usize }
}

/// The unrecoverable error `kind` about the construct that opens at `pos`.
pub open spec fn hard_error(kind: ParseErrorKind, pos: int) -> ParseError {
    ParseError { kind, position: pos as usize }
}

/// Of two recoverable failures, the one that got further; the first on a tie.
pub open spec fn furthest(a: ParseError, b: ParseError) -> ParseError {
    if b.position > a.position {
        b
    } else {
        a
    }
}

} // verus!
