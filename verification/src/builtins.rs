//! The names that every expression may use: one constant and twelve
//! functions. The table is fixed.

use vstd::prelude::*;
use vstd::string::is_ascii_spec_bytes;

verus! {

/// The bytes that write the ASCII word `word`.
pub open spec fn word_bytes(word: Seq<char>) -> Seq<u8> {
    Seq::new(word.len(), |i: int| word[i] as u8)
}

/// Whether `a` and `b` hold the same bytes.
pub fn same_bytes(a: &[u8], b: &[u8]) -> (r: bool)
    ensures
        r == (a@ == b@),
{
    if a.len() != b.len() {
        return false;
    }
    let mut i: usize = 0;
    while i < a.len()
        invariant
            i <= a@.len(),
            a@.len() == b@.len(),
            forall|k: int| 0 <= k < i ==> a@[k] == b@[k],
        decreases a@.len() - i,
    {
        if a[i] != b[i] {
            return false;
        }
        i = i + 1;
    }
    assert(a@ =~= b@);
    true
}

/// Whether `name` is the word `word`.
pub fn is_word(name: &[u8], word: &str) -> (r: bool)
    requires
        word.is_ascii(),
    ensures
        r == (name@ == word_bytes(word@)),
{
    broadcast use is_ascii_spec_bytes;

    same_bytes(name, word.as_bytes())
}

/// A builtin constant.
#[derive(Clone, Copy, Debug, PartialEq, Eq, Structural)]
pub enum Constant {
    /// The ratio of a circle's circumference to its diameter.
    Pi,
}

/// A builtin function of one argument.
#[derive(Clone, Copy, Debug, PartialEq, Eq, Structural)]
pub enum UnaryFn {
    Sqrt,
    Sin,
    Cos,
    Tan,
    Asin,
    Acos,
    Atan,
    Exp,
    Log10,
}

/// A builtin function of two arguments.
#[derive(Clone, Copy, Debug, PartialEq, Eq, Structural)]
pub enum BinaryFn {
    /// The angle of the point whose ordinate is the first argument and
    /// whose abscissa is the second.
    Atan2,
    /// The first argument raised to the second.
    Pow,
    /// The logarithm of the first argument to the base that the second
    /// gives.
    Log,
}

/// A builtin function.
#[derive(Clone, Copy, Debug, PartialEq, Eq, Structural)]
pub enum Builtin {
    Unary(UnaryFn),
    Binary(BinaryFn),
}

impl Builtin {
    /// How many arguments the function takes.
    pub open spec fn spec_arity(self) -> nat {
        match self {
            Builtin::Unary(_) => 1,
            Builtin::Binary(_) => 2,
        }
    }

    /// How many arguments the function takes.
    pub fn arity(self) -> (r: usize)
        ensures
            r == self.spec_arity(),
    {
        match self {
            Builtin::Unary(_) => 1,
            Builtin::Binary(_) => 2,
        }
    }
}

/// The constant that `name` names, if any.
pub open spec fn spec_constant(name: Seq<u8>) -> Option<Constant> {
    if name == word_bytes("pi"@) {
        Some(Constant::Pi)
    } else {
        None
    }
}

/// The function that `name` names, if any.
pub open spec fn spec_function(name: Seq<u8>) -> Option<Builtin> {
    if name == word_bytes("sqrt"@) {
        Some(Builtin::Unary(UnaryFn::Sqrt))
    } else if name == word_bytes("sin"@) {
        Some(Builtin::Unary(UnaryFn::Sin))
    } else if name == word_bytes("cos"@) {
        Some(Builtin::Unary(UnaryFn::Cos))
    } else if name == word_bytes("tan"@) {
        Some(Builtin::Unary(UnaryFn::Tan))
    } else if name == word_bytes("asin"@) {
        Some(Builtin::Unary(UnaryFn::Asin))
    } else if name == word_bytes("acos"@) {
        Some(Builtin::Unary(UnaryFn::Acos))
    } else if name == word_bytes("atan"@) {
        Some(Builtin::Unary(UnaryFn::Atan))
    } else if name == word_bytes("atan2"@) {
        Some(Builtin::Binary(BinaryFn::Atan2))
    } else if name == word_bytes("pow"@) {
        Some(Builtin::Binary(BinaryFn::Pow))
    } else if name == word_bytes("exp"@) {
        Some(Builtin::Unary(UnaryFn::Exp))
    } else if name == word_bytes("log"@) {
        Some(Builtin::Binary(BinaryFn::Log))
    } else if name == word_bytes("log10"@) {
        Some(Builtin::Unary(UnaryFn::Log10))
    } else {
        None
    }
}

/// Looks `name` up among the builtin constants.
pub fn lookup_constant(name: &[u8]) -> (r: Option<Constant>)
    ensures
        r == spec_constant(name@),
{
    proof {
        reveal_strlit("pi");
    }
    if is_word(name, "pi") {
        Some(Constant::Pi)
    } else {
        None
    }
}

/// Looks `name` up among the builtin functions.
pub fn lookup_function(name: &[u8]) -> (r: Option<Builtin>)
    ensures
        r == spec_function(name@),
{
    proof {
        reveal_strlit("sqrt");
        reveal_strlit("sin");
        reveal_strlit("cos");
        reveal_strlit("tan");
        reveal_strlit("asin");
        reveal_strlit("acos");
        reveal_strlit("atan");
        reveal_strlit("atan2");
        reveal_strlit("pow");
        reveal_strlit("exp");
        reveal_strlit("log");
        reveal_strlit("log10");
    }
    if is_word(name, "sqrt") {
        Some(Builtin::Unary(UnaryFn::Sqrt))
    } else if is_word(name, "sin") {
        Some(Builtin::Unary(UnaryFn::Sin))
    } else if is_word(name, "cos") {
        Some(Builtin::Unary(UnaryFn::Cos))
    } else if is_word(name, "tan") {
        Some(Builtin::Unary(UnaryFn::Tan))
    } else if is_word(name, "asin") {
        Some(Builtin::Unary(UnaryFn::Asin))
    } else if is_word(name, "acos") {
        Some(Builtin::Unary(UnaryFn::Acos))
    } else if is_word(name, "atan") {
        Some(Builtin::Unary(UnaryFn::Atan))
    } else if is_word(name, "atan2") {
        Some(Builtin::Binary(BinaryFn::Atan2))
    } else if is_word(name, "pow") {
        Some(Builtin::Binary(BinaryFn::Pow))
    } else if is_word(name, "exp") {
        Some(Builtin::Unary(UnaryFn::Exp))
    } else if is_word(name, "log") {
        Some(Builtin::Binary(BinaryFn::Log))
    } else if is_word(name, "log10") {
        Some(Builtin::Unary(UnaryFn::Log10))
    } else {
        None
    }
}

} // verus!
