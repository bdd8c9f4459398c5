//! The grammar the converter reads with.
pub use crate::ast::pest::{ConkParser, ParseError, Rule};
