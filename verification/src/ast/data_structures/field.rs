//! Fields of a `ConkAST`, and how they are read from the parse tree.
use vstd::prelude::*;
use crate::ast::data_structures::attribute::{attribute_of, parse_attribute, FieldAttribute};
use crate::ast::data_structures::value::{
    int_err, ints_err, lemma_flat, lemma_ints_none, lemma_last_child,
    lemma_name_no_int, parse_values, value_of, Value,
};
use crate::ast::error::Error;
use crate::grammar::tree::{lemma_children, Pair, Rule, SpecPair};
use crate::grammar::wf::{text, wf_attribute, wf_field, wf_field_type};
use crate::text::{chars_to_string, string_literal_value, string_value};

verus! {

/// `name Type(parameters) @attributes`
#[derive(Debug)]
pub struct Field {
    pub name: String,
    pub field_type: FieldType,
    pub field_attributes: Vec<FieldAttribute>,
}

/// A type: its schema, if any, its name and its parameters.
#[derive(Debug)]
pub struct FieldType {
    pub schema: Option<String>,
    pub name: String,
    pub parameters: Vec<Value>,
}

/// Field type node `ft` denotes `t`.
pub open spec fn field_type_of(s: Seq<char>, ft: SpecPair, t: FieldType) -> bool {
    &&& if ft.inner[0].rule == Rule::schema_identifier {
        &&& t.schema matches Some(x) && x@ == string_value(text(s, ft.inner[0].inner[0]))
        &&& t.name@ == text(s, ft.inner[0].inner[1])
    } else {
        t.schema is None && t.name@ == text(s, ft.inner[0])
    }
    &&& if ft.inner.len() >= 2 && ft.inner[1].inner.len() >= 1 {
        &&& t.parameters@.len() == ft.inner[1].inner[0].inner.len()
        &&& forall|k: int|
            0 <= k < t.parameters@.len() ==> value_of(
                s,
                ft.inner[1].inner[0].inner[k],
                #[trigger] t.parameters@[k],
            )
    } else {
        t.parameters@.len() == 0
    }
}

/// Field node `f` denotes `fl`.
pub open spec fn field_of(s: Seq<char>, f: SpecPair, fl: Field) -> bool {
    &&& fl.name@ == text(s, f.inner[0])
    &&& field_type_of(s, f.inner[1], fl.field_type)
    &&& fl.field_attributes@.len() == f.inner.len() - 2
    &&& forall|k: int|
        0 <= k < fl.field_attributes@.len() ==> attribute_of(
            s,
            f.inner[k + 2],
            (#[trigger] fl.field_attributes@[k]).name,
            fl.field_attributes@[k].arguments@,
        )
}

/// Converts field type node `ft`.
pub fn parse_field_type(input: &[char], ft: &Pair) -> (r: Result<FieldType, Error>)
    requires
        wf_field_type(input@, ft@),
    ensures
        match r {
            Ok(t) => int_err(input@, ft@) is None && field_type_of(input@, ft@, t),
            Err(e) => int_err(input@, ft@) matches Some(k) && e == Error::ParseInt(k),
        },
{
    proof {
        lemma_children(ft);
        lemma_name_no_int(input@, ft@.inner[0]);
    }
    let n = &ft.inner[0];
    proof {
        lemma_children(n);
    }
    let (schema, name) = if n.rule == Rule::schema_identifier {
        let sc = &n.inner[0];
        let id = &n.inner[1];
        (Some(string_literal_value(input, sc.start, sc.end)), chars_to_string(input, id.start, id.end))
    } else {
        (None, chars_to_string(input, n.start, n.end))
    };
    if ft.inner.len() >= 2 {
        let tp = &ft.inner[1];
        proof {
            lemma_children(tp);
            lemma_last_child(input@, ft@);
        }
        if tp.inner.len() >= 1 {
            proof {
                lemma_last_child(input@, tp@);
            }
            return match parse_values(input, &tp.inner[0]) {
                Ok(parameters) => Ok(FieldType { schema, name, parameters }),
                Err(e) => Err(e),
            };
        }
        proof {
            lemma_ints_none(input@, tp@);
        }
    } else {
        proof {
            lemma_ints_none(input@, ft@);
        }
    }
    Ok(FieldType { schema, name, parameters: Vec::new() })
}

/// Converts field node `f`: its name, its type and its attributes in order.
pub fn parse_field(input: &[char], f: &Pair) -> (r: Result<Field, Error>)
    requires
        wf_field(input@, f@),
    ensures
        match r {
            Ok(fl) => int_err(input@, f@) is None && field_of(input@, f@, fl),
            Err(e) => int_err(input@, f@) matches Some(k) && e == Error::ParseInt(k),
        },
{
    proof {
        lemma_children(f);
        lemma_flat(input@, f@.inner[0]);
    }
    let n = &f.inner[0];
    let name = chars_to_string(input, n.start, n.end);
    assert(int_err(input@, f@) == ints_err(input@, f@, 0));
    assert(ints_err(input@, f@, 0) == ints_err(input@, f@, 1));
    assert(ints_err(input@, f@, 1) == match int_err(input@, f@.inner[1]) {
        Some(e) => Some(e),
        None => ints_err(input@, f@, 2),
    });
    let field_type = match parse_field_type(input, &f.inner[1]) {
        Ok(t) => t,
        Err(e) => {
            return Err(e);
        },
    };
    let mut field_attributes: Vec<FieldAttribute> = Vec::new();
    let mut k: usize = 2;
    while k < f.inner.len()
        invariant
            wf_field(input@, f@),
            f@.inner.len() == f.inner@.len(),
            forall|m: int| 0 <= m < f.inner@.len() ==> #[trigger] f@.inner[m] == f.inner@[m]@,
            2 <= k <= f@.inner.len(),
            name@ == text(input@, f@.inner[0]),
            field_type_of(input@, f@.inner[1], field_type),
            field_attributes@.len() == k - 2,
            forall|m: int|
                0 <= m < k - 2 ==> attribute_of(
                    input@,
                    f@.inner[m + 2],
                    (#[trigger] field_attributes@[m]).name,
                    field_attributes@[m].arguments@,
                ),
            int_err(input@, f@) == ints_err(input@, f@, k as int),
        decreases f@.inner.len() - k,
    {
        assert(wf_attribute(input@, f@.inner[k as int], Rule::field_attribute));
        let a: FieldAttribute = match parse_attribute(input, &f.inner[k]) {
            Ok(a) => a,
            Err(e) => {
                return Err(e);
            },
        };
        let ghost before = field_attributes@;
        field_attributes.push(a);
        proof {
            assert forall|m: int| 0 <= m < k + 1 - 2 implies attribute_of(
                input@,
                f@.inner[m + 2],
                (#[trigger] field_attributes@[m]).name,
                field_attributes@[m].arguments@,
            ) by {
                if m < k - 2 {
                    assert(field_attributes@[m] == before[m]);
                }
            }
        }
        k = k + 1;
    }
    Ok(Field { name, field_type, field_attributes })
}

} // verus!
