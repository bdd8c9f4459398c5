//! The syntax trees of Conk files.
pub mod attribute;
pub mod config;
pub mod data_structures;
pub mod declaration;
pub mod error;
pub mod field;
pub mod file;
pub mod pest;
pub mod value;
