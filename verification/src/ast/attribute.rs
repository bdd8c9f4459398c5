//! Attributes and argument lists as the converter in `parser::convert` builds them.
use vstd::prelude::*;
use crate::ast::value::Value;

verus! {

/// `@name(arguments)` on a field.
#[derive(Debug)]
pub struct FieldAttribute {
    pub name: String,
    pub args: ArgumentList,
}

/// `@@name(arguments)` in a declaration body.
#[derive(Debug)]
pub struct BlockAttribute {
    pub name: String,
    pub args: ArgumentList,
}

/// The arguments of a call or an attribute: the positional ones and the named
/// ones, each in the order written.
#[derive(Debug)]
pub struct ArgumentList {
    pub positional: Vec<Value>,
    pub named: Vec<NamedArgument>,
}

impl ArgumentList {
    /// An empty list.
    pub fn new() -> (r: ArgumentList)
        ensures
            r.positional@.len() == 0,
            r.named@.len() == 0,
    {
        ArgumentList { positional: Vec::new(), named: Vec::new() }
    }

    /// The number of arguments, positional and named.
    pub fn len(&self) -> (n: usize)
        requires
            self.positional@.len() + self.named@.len() <= usize::MAX,
        ensures
            n == self.positional@.len() + self.named@.len(),
    {
        self.positional.len() + self.named.len()
    }

    /// Whether the list holds no argument.
    pub fn is_empty(&self) -> (b: bool)
        ensures
            b == (self.positional@.len() == 0 && self.named@.len() == 0),
    {
        self.positional.is_empty() && self.named.is_empty()
    }
}

/// `name: value`
#[derive(Debug)]
pub struct NamedArgument {
    pub name: String,
    pub value: Value,
}

/// A list is empty exactly when it holds no argument.
pub proof fn law_argument_list_empty_len(a: ArgumentList)
    ensures
        (a.positional@.len() == 0 && a.named@.len() == 0) <==> a.positional@.len()
            + a.named@.len() == 0,
{
}

} // verus!
