//! What reading a Conk file can fail with.
use vstd::prelude::*;
use crate::ast::pest::ParseError;
use crate::text::IntOverflow;

verus! {

/// `std::io::Error`, declared so that an error can carry it. Nothing about its
/// contents is assumed: Verus sees the value as opaque.
#[verifier::external_type_specification]
#[verifier::external_body]
pub struct ExIoError(std::io::Error);

/// A file that fits the grammar but states something twice.
#[derive(Debug)]
pub enum SemanticError {
    DuplicateConfigKey(String),
    DuplicateDeclarationName(String),
    DuplicateEnumValue(String),
    DuplicateFieldName(String),
    DuplicateFieldAttribute { field: String, attribute: String },
    DuplicateArgumentName(String),
}

/// Why a file could not be read.
#[derive(Debug)]
pub enum Error {
    /// The file could not be read from disk.
    Io(std::io::Error),
    /// The text does not fit the grammar.
    Parse(ParseError),
    /// An integer literal does not fit in an `i64`.
    ParseInt(IntOverflow),
    Semantic(SemanticError),
}

/// An error the converter can report, as a mathematical value.
pub enum ConvertError {
    ParseInt(IntOverflow),
    DuplicateConfigKey(Seq<char>),
    DuplicateDeclarationName(Seq<char>),
    DuplicateEnumValue(Seq<char>),
    DuplicateFieldName(Seq<char>),
    DuplicateFieldAttribute(Seq<char>, Seq<char>),
    DuplicateArgumentName(Seq<char>),
}

/// `e` is the error `c`.
pub open spec fn error_is(e: Error, c: ConvertError) -> bool {
    match c {
        ConvertError::ParseInt(k) => e == Error::ParseInt(k),
        ConvertError::DuplicateConfigKey(x) => e matches Error::Semantic(
            SemanticError::DuplicateConfigKey(y),
        ) && y@ == x,
        ConvertError::DuplicateDeclarationName(x) => e matches Error::Semantic(
            SemanticError::DuplicateDeclarationName(y),
        ) && y@ == x,
        ConvertError::DuplicateEnumValue(x) => e matches Error::Semantic(
            SemanticError::DuplicateEnumValue(y),
        ) && y@ == x,
        ConvertError::DuplicateFieldName(x) => e matches Error::Semantic(
            SemanticError::DuplicateFieldName(y),
        ) && y@ == x,
        ConvertError::DuplicateFieldAttribute(f, a) => e matches Error::Semantic(
            SemanticError::DuplicateFieldAttribute { field, attribute },
        ) && field@ == f && attribute@ == a,
        ConvertError::DuplicateArgumentName(x) => e matches Error::Semantic(
            SemanticError::DuplicateArgumentName(y),
        ) && y@ == x,
    }
}

} // verus!
