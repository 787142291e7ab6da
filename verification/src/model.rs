//! The mathematical values that documents denote. The grammar is stated
//! over these; the executable tree types view as them.

use vstd::prelude::*;

verus! {

/// An arithmetic expression.
pub enum ExpressionModel {
    /// A builtin constant or a variable, by name.
    Ident(Seq<u8>),
    /// A number literal, by its text.
    NumLiteral(Seq<u8>),
    /// A call of a function, by name, with its arguments in order.
    FnInvoke(Seq<u8>, Seq<ExpressionModel>),
    Add(Box<ExpressionModel>, Box<ExpressionModel>),
    Sub(Box<ExpressionModel>, Box<ExpressionModel>),
    Mul(Box<ExpressionModel>, Box<ExpressionModel>),
    Div(Box<ExpressionModel>, Box<ExpressionModel>),
}

/// An argument of an invocation.
pub enum ArgModel {
    /// A bare identifier.
    Str(Seq<u8>),
    /// A block of commands in braces.
    Block(Seq<CommandModel>),
}

/// The value of a property.
pub enum PropertyModel {
    /// The content of a quoted string.
    Str(Seq<u8>),
    Expr(ExpressionModel),
}

/// One statement of a document.
pub enum CommandModel {
    /// An invocation: one argument or more.
    Com(Seq<ArgModel>),
    /// `name: value`.
    Prop(Seq<u8>, PropertyModel),
    /// `name := expression`.
    Def(Seq<u8>, ExpressionModel),
}

} // verus!
