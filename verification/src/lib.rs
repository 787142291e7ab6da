//! A small configuration-description language: a document of nested
//! commands, named properties and variable definitions, with arithmetic
//! expressions as property values.
//!
//! The library reads documents from bytes, checks expressions against the
//! names bound so far, and describes what a consumer has to compute. Every
//! function states its behaviour in a contract that Verus proves.

pub mod bytes;
pub mod error;
pub mod number;
pub mod lexer;
pub mod model;
pub mod grammar;
pub mod render;
pub mod parser;
pub mod mqo;
pub mod mqo_document;
pub mod builtins;
pub mod eval;
pub mod astro_body;
