//! Reading Conk files into `ast::file::ConkFile`, with checks that nothing is stated twice.
pub mod convert;
pub mod error;
pub mod laws;
pub mod pest;
pub mod repeat_laws;
pub mod result_laws;
pub mod shape_laws;

pub use convert::parse_ast_from_string;
pub use error::Error;
