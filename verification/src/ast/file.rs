//! A whole file as the converter in `parser::convert` builds it.
use vstd::prelude::*;
use crate::ast::config::Config;
use crate::ast::declaration::Declaration;

verus! {

/// The config block, if any, and the declarations in the order written.
#[derive(Debug)]
pub struct ConkFile {
    pub config: Option<Config>,
    pub declarations: Vec<Declaration>,
}

} // verus!
