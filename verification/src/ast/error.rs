//! What reading a Conk file into `ast::data_structures::ConkAST` can fail with.
use vstd::prelude::*;
use crate::ast::pest::ParseError;
use crate::text::IntOverflow;

verus! {

/// Why a file could not be read into a `ConkAST`.
#[derive(Debug)]
pub enum Error {
    /// The file could not be read from disk.
    Io(std::io::Error),
    /// The text does not fit the grammar.
    Parse(ParseError),
    /// An integer literal does not fit in an `i64`.
    ParseInt(IntOverflow),
}

} // verus!
