//! Fields as the converter in `parser::convert` builds them.
use vstd::prelude::*;
use crate::ast::attribute::FieldAttribute;
use crate::ast::value::Value;

verus! {

/// `name Type(params) @attributes`
#[derive(Debug)]
pub struct Field {
    pub name: String,
    pub type_: TypeExpr,
    pub attributes: Vec<FieldAttribute>,
}

/// A type name, as written (a schema included), and its parameters.
#[derive(Debug)]
pub struct TypeExpr {
    pub name: String,
    pub params: Vec<Value>,
}

} // verus!
