//! A parser for the Conk schema language.
pub mod ast;
pub mod grammar;
pub mod parser;
pub mod text;
