//! Values as the converter in `parser::convert` builds them.
use vstd::prelude::*;
use crate::ast::attribute::ArgumentList;

verus! {

/// A value written in a config block, an argument or a type parameter.
#[derive(Debug)]
pub enum Value {
    /// A string literal, quotes removed and `\"` read as `"`.
    String(String),
    Integer(i64),
    /// A decimal literal such as `-3.14`, kept as written.
    Float(String),
    Identifier(String),
    /// `a.b.c`, or `"schema".a.b` with the schema as the first part.
    QualifiedIdentifier(Vec<String>),
    FunctionCall { name: String, args: ArgumentList },
    List(Vec<Value>),
}

} // verus!
