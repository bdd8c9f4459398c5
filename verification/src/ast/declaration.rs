//! Declarations as the converter in `parser::convert` builds them.
use vstd::prelude::*;
use crate::ast::attribute::BlockAttribute;
use crate::ast::field::Field;

verus! {

/// One declaration of a file.
#[derive(Debug)]
pub enum Declaration {
    Enum(Enum),
    Template(Template),
    Entity(Entity),
}

/// `"schema"? enum Name { values and block attributes }`
#[derive(Debug)]
pub struct Enum {
    pub schema: Option<String>,
    pub name: String,
    pub values: Vec<String>,
    pub attributes: Vec<BlockAttribute>,
}

/// `template Name { fields and block attributes }`
#[derive(Debug)]
pub struct Template {
    pub name: String,
    pub fields: Vec<Field>,
    pub attributes: Vec<BlockAttribute>,
}

/// `"schema"? entity Name : templates inherits (parents) { fields and block attributes }`
#[derive(Debug)]
pub struct Entity {
    pub schema: Option<String>,
    pub name: String,
    pub templates: Vec<String>,
    pub inherits: Vec<String>,
    pub fields: Vec<Field>,
    pub attributes: Vec<BlockAttribute>,
}

impl Declaration {
    pub open spec fn spec_name(&self) -> String {
        match self {
            Declaration::Enum(e) => e.name,
            Declaration::Template(t) => t.name,
            Declaration::Entity(e) => e.name,
        }
    }

    /// The name declared.
    pub fn name(&self) -> (r: &String)
        ensures
            *r == self.spec_name(),
    {
        match self {
            Declaration::Enum(e) => &e.name,
            Declaration::Template(t) => &t.name,
            Declaration::Entity(e) => &e.name,
        }
    }
}

} // verus!
