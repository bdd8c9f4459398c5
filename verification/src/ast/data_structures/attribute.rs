//! Field and block attributes of a `ConkAST`, and how they are read from the parse tree.
use vstd::prelude::*;
use crate::ast::data_structures::value::{
    arguments_of, int_err, lemma_flat, lemma_ints_none, lemma_last_child,
    parse_arguments, Argument,
};
use crate::ast::error::Error;
use crate::grammar::tree::{lemma_children, Pair, Rule, SpecPair};
use crate::grammar::wf::{text, wf_attribute};
use crate::text::chars_to_string;

verus! {

/// `@name(arguments)` on a field.
#[derive(Debug)]
pub struct FieldAttribute {
    pub name: String,
    pub arguments: Vec<Argument>,
}

/// `@@name(arguments)` in a declaration body.
#[derive(Debug)]
pub struct BlockAttribute {
    pub name: String,
    pub arguments: Vec<Argument>,
}

/// What field and block attributes have in common: a name and arguments.
pub trait AttributeLike: Sized {
    spec fn attr_name(&self) -> String;

    spec fn attr_arguments(&self) -> Seq<Argument>;

    /// The attribute called `name` with `arguments`.
    fn new(name: String, arguments: Vec<Argument>) -> (r: Self)
        ensures
            r.attr_name() == name,
            r.attr_arguments() == arguments@,
    ;
}

impl AttributeLike for FieldAttribute {
    open spec fn attr_name(&self) -> String {
        self.name
    }

    open spec fn attr_arguments(&self) -> Seq<Argument> {
        self.arguments@
    }

    fn new(name: String, arguments: Vec<Argument>) -> (r: Self) {
        FieldAttribute { name, arguments }
    }
}

impl AttributeLike for BlockAttribute {
    open spec fn attr_name(&self) -> String {
        self.name
    }

    open spec fn attr_arguments(&self) -> Seq<Argument> {
        self.arguments@
    }

    fn new(name: String, arguments: Vec<Argument>) -> (r: Self) {
        BlockAttribute { name, arguments }
    }
}

/// Attribute node `a` has name `name` and arguments `args`; without
/// parentheses, or with empty ones, there are none.
pub open spec fn attribute_of(s: Seq<char>, a: SpecPair, name: String, args: Seq<Argument>) -> bool {
    &&& name@ == text(s, a.inner[0])
    &&& if a.inner.len() >= 2 && a.inner[1].inner.len() >= 1 {
        arguments_of(s, a.inner[1].inner[0], args)
    } else {
        args.len() == 0
    }
}

/// The block attribute nodes among `c` denote, in order, `attrs`.
pub open spec fn block_attributes_of(s: Seq<char>, c: Seq<SpecPair>, attrs: Seq<BlockAttribute>) -> bool
    decreases c.len(),
{
    if c.len() == 0 {
        attrs.len() == 0
    } else if c.last().rule == Rule::block_attribute {
        &&& attrs.len() > 0
        &&& attribute_of(s, c.last(), attrs.last().name, attrs.last().arguments@)
        &&& block_attributes_of(s, c.drop_last(), attrs.drop_last())
    } else {
        block_attributes_of(s, c.drop_last(), attrs)
    }
}

/// Converts attribute node `a`, a field or a block attribute.
pub fn parse_attribute<T: AttributeLike>(input: &[char], a: &Pair) -> (r: Result<T, Error>)
    requires
        wf_attribute(input@, a@, Rule::field_attribute) || wf_attribute(
            input@,
            a@,
            Rule::block_attribute,
        ),
    ensures
        match r {
            Ok(t) => int_err(input@, a@) is None && attribute_of(
                input@,
                a@,
                t.attr_name(),
                t.attr_arguments(),
            ),
            Err(e) => int_err(input@, a@) matches Some(k) && e == Error::ParseInt(k),
        },
{
    proof {
        lemma_children(a);
        lemma_flat(input@, a@.inner[0]);
    }
    let n = &a.inner[0];
    let name = chars_to_string(input, n.start, n.end);
    if a.inner.len() >= 2 {
        let args_node = &a.inner[1];
        proof {
            lemma_children(args_node);
            lemma_last_child(input@, a@);
        }
        if args_node.inner.len() >= 1 {
            proof {
                lemma_last_child(input@, args_node@);
            }
            return match parse_arguments(input, &args_node.inner[0]) {
                Ok(arguments) => Ok(T::new(name, arguments)),
                Err(e) => Err(e),
            };
        }
        proof {
            lemma_ints_none(input@, args_node@);
        }
    } else {
        proof {
            lemma_ints_none(input@, a@);
        }
    }
    Ok(T::new(name, Vec::new()))
}

} // verus!
