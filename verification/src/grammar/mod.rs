//! The Conk grammar: the scanner, the rules over tokens, and the tree they build.
pub mod lexer;
pub mod invariance;
pub mod literals;
pub mod parse;
pub mod rules;
pub mod tree;
pub mod wf;
