//! What the flat reader's results hold, stated on the nodes of the tree: one
//! entry per node of each kind, in the order written, each entry the text the
//! node covers.
use vstd::prelude::*;
use crate::ast::data_structures::attribute::{attribute_of, block_attributes_of, BlockAttribute};
use crate::ast::data_structures::declaration::{
    entity_of, enum_of, fields_of, inherits_in, template_of, templates_in, views, EntityDeclaration,
    EnumDeclaration, TemplateDeclaration,
};
use crate::ast::data_structures::config::{config_of, Config};
use crate::ast::data_structures::field::{field_of, field_type_of, Field, FieldType};
use crate::ast::data_structures::value::{argument_of, value_of, Argument, Value};
use crate::grammar::tree::{law_positions, positions, Rule, SpecPair};
use crate::grammar::wf::text;
use crate::ast::data_structures::{ast_of, declares, entities_of, enums_of, templates_of, ConkAST};
use crate::parser::convert::enum_values_ok;
use crate::parser::shape_laws::{lemma_last_with_single, single_name, single_schema};
use crate::text::string_value;

verus! {

/// Fields read from the nodes `c`: one for each field node, in order.
proof fn lemma_fields_positions(s: Seq<char>, c: Seq<SpecPair>, fs: Seq<Field>)
    requires
        fields_of(s, c, fs),
    ensures
        fs.len() == positions(c, Rule::field).len(),
        forall|k: int|
            0 <= k < fs.len() ==> field_of(s, c[positions(c, Rule::field)[k]], #[trigger] fs[k]),
    decreases c.len(),
{
    if c.len() > 0 {
        let c2 = c.drop_last();
        law_positions(c2, Rule::field);
        let f2 = if c.last().rule == Rule::field {
            fs.drop_last()
        } else {
            fs
        };
        lemma_fields_positions(s, c2, f2);
        assert forall|k: int| 0 <= k < fs.len() implies field_of(
            s,
            c[positions(c, Rule::field)[k]],
            #[trigger] fs[k],
        ) by {
            if k < f2.len() {
                assert(fs[k] == f2[k]);
                assert(positions(c, Rule::field)[k] == positions(c2, Rule::field)[k]);
                assert(c[positions(c2, Rule::field)[k]] == c2[positions(c2, Rule::field)[k]]);
            }
        }
    }
}

/// Block attributes read from the nodes `c`: one for each block attribute node,
/// in order.
proof fn lemma_blocks_positions(s: Seq<char>, c: Seq<SpecPair>, bs: Seq<BlockAttribute>)
    requires
        block_attributes_of(s, c, bs),
    ensures
        bs.len() == positions(c, Rule::block_attribute).len(),
        forall|k: int|
            0 <= k < bs.len() ==> attribute_of(
                s,
                c[positions(c, Rule::block_attribute)[k]],
                (#[trigger] bs[k]).name,
                bs[k].arguments@,
            ),
    decreases c.len(),
{
    if c.len() > 0 {
        let c2 = c.drop_last();
        law_positions(c2, Rule::block_attribute);
        let b2 = if c.last().rule == Rule::block_attribute {
            bs.drop_last()
        } else {
            bs
        };
        lemma_blocks_positions(s, c2, b2);
        assert forall|k: int| 0 <= k < bs.len() implies attribute_of(
            s,
            c[positions(c, Rule::block_attribute)[k]],
            (#[trigger] bs[k]).name,
            bs[k].arguments@,
        ) by {
            if k < b2.len() {
                assert(bs[k] == b2[k]);
                assert(positions(c, Rule::block_attribute)[k] == positions(c2, Rule::block_attribute)[k]);
                assert(c[positions(c2, Rule::block_attribute)[k]] == c2[positions(
                    c2,
                    Rule::block_attribute,
                )[k]]);
            }
        }
    }
}

/// Enum values read from the nodes `c`: one for each value node, in order, each
/// the text of the node's name.
pub proof fn lemma_values_positions(s: Seq<char>, c: Seq<SpecPair>, vals: Seq<String>)
    requires
        enum_values_ok(s, c, vals),
    ensures
        vals.len() == positions(c, Rule::enum_value).len(),
        forall|k: int|
            0 <= k < vals.len() ==> (#[trigger] vals[k])@ == text(
                s,
                c[positions(c, Rule::enum_value)[k]].inner[0],
            ),
    decreases c.len(),
{
    if c.len() > 0 {
        let c2 = c.drop_last();
        law_positions(c2, Rule::enum_value);
        let v2 = if c.last().rule == Rule::enum_value {
            vals.drop_last()
        } else {
            vals
        };
        lemma_values_positions(s, c2, v2);
        assert forall|k: int| 0 <= k < vals.len() implies (#[trigger] vals[k])@ == text(
            s,
            c[positions(c, Rule::enum_value)[k]].inner[0],
        ) by {
            if k < v2.len() {
                assert(vals[k] == v2[k]);
                assert(positions(c, Rule::enum_value)[k] == positions(c2, Rule::enum_value)[k]);
                assert(c[positions(c2, Rule::enum_value)[k]] == c2[positions(c2, Rule::enum_value)[k]]);
            }
        }
    }
}

/// With no template usage among `c` there are no templates; with one, the
/// templates are what it lists.
proof fn lemma_templates_in(s: Seq<char>, c: Seq<SpecPair>)
    ensures
        positions(c, Rule::template_usage).len() == 0 ==> templates_in(s, c) == Seq::<Seq<char>>::empty(),
        positions(c, Rule::template_usage).len() == 1 ==> templates_in(s, c)
            =~= crate::ast::data_structures::declaration::list_texts(
            s,
            c[positions(c, Rule::template_usage)[0]].inner[0],
        ),
    decreases c.len(),
{
    if c.len() > 0 {
        let c2 = c.drop_last();
        lemma_templates_in(s, c2);
        law_positions(c2, Rule::template_usage);
        if c.last().rule != Rule::template_usage && positions(c2, Rule::template_usage).len() == 1 {
            assert(c[positions(c2, Rule::template_usage)[0]] == c2[positions(
                c2,
                Rule::template_usage,
            )[0]]);
        }
    }
}

/// The same for inheritance usages.
proof fn lemma_inherits_in(s: Seq<char>, c: Seq<SpecPair>)
    ensures
        positions(c, Rule::inheritance_usage).len() == 0 ==> inherits_in(s, c) == Seq::<Seq<char>>::empty(),
        positions(c, Rule::inheritance_usage).len() == 1 ==> inherits_in(s, c)
            =~= crate::ast::data_structures::declaration::inherit_texts(
            s,
            c[positions(c, Rule::inheritance_usage)[0]].inner[0],
        ),
    decreases c.len(),
{
    if c.len() > 0 {
        let c2 = c.drop_last();
        lemma_inherits_in(s, c2);
        law_positions(c2, Rule::inheritance_usage);
        if c.last().rule != Rule::inheritance_usage && positions(c2, Rule::inheritance_usage).len()
            == 1 {
            assert(c[positions(c2, Rule::inheritance_usage)[0]] == c2[positions(
                c2,
                Rule::inheritance_usage,
            )[0]]);
        }
    }
}

/// How a parent is recorded: `"schema".Name` with the schema's value between
/// the quotes, or the name as written.
pub open spec fn recorded_parent(s: Seq<char>, n: SpecPair, x: Seq<char>) -> bool {
    if n.rule == Rule::schema_identifier {
        x == seq!['"'] + string_value(text(s, n.inner[0])) + seq!['"', '.'] + text(s, n.inner[1])
    } else {
        x == text(s, n)
    }
}

/// An entity read without error has its schema and its name, one field for each
/// field node and one block attribute for each block attribute node, in order.
/// Its templates are the names of its `: A, B` list, one entry per name in
/// order, and none without a list; its parents likewise, one entry per listed
/// parent.
pub proof fn law_flat_entity_parts(s: Seq<char>, d: SpecPair, e: EntityDeclaration)
    requires
        entity_of(s, d, e),
    ensures
        single_schema(s, d.inner, e.schema),
        single_name(s, d.inner, e.name@),
        e.fields@.len() == positions(d.inner, Rule::field).len(),
        forall|k: int|
            0 <= k < e.fields@.len() ==> field_of(
                s,
                d.inner[positions(d.inner, Rule::field)[k]],
                #[trigger] e.fields@[k],
            ),
        e.block_attributes@.len() == positions(d.inner, Rule::block_attribute).len(),
        forall|k: int|
            0 <= k < e.block_attributes@.len() ==> (#[trigger] e.block_attributes@[k]).name@ == text(
                s,
                d.inner[positions(d.inner, Rule::block_attribute)[k]].inner[0],
            ),
        positions(d.inner, Rule::template_usage).len() == 0 ==> e.templates@.len() == 0,
        positions(d.inner, Rule::template_usage).len() == 1 ==> {
            let l = d.inner[positions(d.inner, Rule::template_usage)[0]].inner[0];
            &&& e.templates@.len() == l.inner.len()
            &&& forall|k: int| 0 <= k < l.inner.len() ==> (#[trigger] e.templates@[k])@ == text(s, l.inner[k])
        },
        positions(d.inner, Rule::inheritance_usage).len() == 0 ==> e.inherits@.len() == 0,
        positions(d.inner, Rule::inheritance_usage).len() == 1 ==> {
            let l = d.inner[positions(d.inner, Rule::inheritance_usage)[0]].inner[0];
            &&& e.inherits@.len() == l.inner.len()
            &&& forall|k: int|
                0 <= k < l.inner.len() ==> recorded_parent(s, l.inner[k], (#[trigger] e.inherits@[k])@)
        },
{
    lemma_last_with_single(d.inner, Rule::schema_prefix);
    lemma_last_with_single(d.inner, Rule::identifier);
    lemma_fields_positions(s, d.inner, e.fields@);
    lemma_blocks_positions(s, d.inner, e.block_attributes@);
    lemma_templates_in(s, d.inner);
    lemma_inherits_in(s, d.inner);
    assert(views(e.templates@).len() == e.templates@.len());
    assert(views(e.inherits@).len() == e.inherits@.len());
    assert forall|k: int| 0 <= k < e.templates@.len() implies (#[trigger] e.templates@[k])@ == views(
        e.templates@,
    )[k] by {}
    assert forall|k: int| 0 <= k < e.inherits@.len() implies (#[trigger] e.inherits@[k])@ == views(
        e.inherits@,
    )[k] by {}
}

/// A template read without error has its name, one field for each field node
/// and one block attribute for each block attribute node, in the order written.
pub proof fn law_flat_template_parts(s: Seq<char>, d: SpecPair, t: TemplateDeclaration)
    requires
        template_of(s, d, t),
    ensures
        single_name(s, d.inner, t.name@),
        t.fields@.len() == positions(d.inner, Rule::field).len(),
        forall|k: int|
            0 <= k < t.fields@.len() ==> field_of(
                s,
                d.inner[positions(d.inner, Rule::field)[k]],
                #[trigger] t.fields@[k],
            ),
        t.block_attributes@.len() == positions(d.inner, Rule::block_attribute).len(),
        forall|k: int|
            0 <= k < t.block_attributes@.len() ==> (#[trigger] t.block_attributes@[k]).name@ == text(
                s,
                d.inner[positions(d.inner, Rule::block_attribute)[k]].inner[0],
            ),
{
    lemma_last_with_single(d.inner, Rule::identifier);
    lemma_fields_positions(s, d.inner, t.fields@);
    lemma_blocks_positions(s, d.inner, t.block_attributes@);
}

/// An enum read without error has its schema and its name, one value for each
/// value node, in the order written, each the text of the value's name, and one
/// block attribute for each block attribute node, in order.
pub proof fn law_flat_enum_parts(s: Seq<char>, d: SpecPair, e: EnumDeclaration)
    requires
        enum_of(s, d, e),
    ensures
        single_schema(s, d.inner, e.schema),
        single_name(s, d.inner, e.name@),
        e.values@.len() == positions(d.inner, Rule::enum_value).len(),
        forall|k: int|
            0 <= k < e.values@.len() ==> (#[trigger] e.values@[k])@ == text(
                s,
                d.inner[positions(d.inner, Rule::enum_value)[k]].inner[0],
            ),
        e.block_attributes@.len() == positions(d.inner, Rule::block_attribute).len(),
        forall|k: int|
            0 <= k < e.block_attributes@.len() ==> (#[trigger] e.block_attributes@[k]).name@ == text(
                s,
                d.inner[positions(d.inner, Rule::block_attribute)[k]].inner[0],
            ),
{
    lemma_last_with_single(d.inner, Rule::schema_prefix);
    lemma_last_with_single(d.inner, Rule::identifier);
    lemma_values_positions(s, d.inner, e.values@);
    lemma_blocks_positions(s, d.inner, e.block_attributes@);
}

/// A field read without error has the name it is written with and one attribute
/// per attribute written, in order, each named as written. Its type has the
/// schema's value and the name after the dot when written `"schema".Name`, and
/// no schema and the name as written otherwise.
pub proof fn law_flat_field_parts(s: Seq<char>, f: SpecPair, fl: Field)
    requires
        field_of(s, f, fl),
    ensures
        fl.name@ == text(s, f.inner[0]),
        fl.field_attributes@.len() == f.inner.len() - 2,
        forall|k: int|
            0 <= k < fl.field_attributes@.len() ==> (#[trigger] fl.field_attributes@[k]).name@ == text(
                s,
                f.inner[k + 2].inner[0],
            ),
        type_named(s, f.inner[1], fl.field_type),
{
    assert forall|k: int| 0 <= k < fl.field_attributes@.len() implies (#[trigger] fl.field_attributes@[k]).name@
        == text(s, f.inner[k + 2].inner[0]) by {
        assert(attribute_of(
            s,
            f.inner[k + 2],
            fl.field_attributes@[k].name,
            fl.field_attributes@[k].arguments@,
        ));
    }
    law_field_type_name(s, f.inner[1], fl.field_type);
}

/// The schema and name of type `t` read from field type node `ft`.
pub open spec fn type_named(s: Seq<char>, ft: SpecPair, t: FieldType) -> bool {
    let n = ft.inner[0];
    if n.rule == Rule::schema_identifier {
        &&& t.schema matches Some(x) && x@ == string_value(text(s, n.inner[0]))
        &&& t.name@ == text(s, n.inner[1])
    } else {
        t.schema is None && t.name@ == text(s, n)
    }
}

/// A field type written `"schema".Name` has the schema's value as its schema and
/// the text of the name after the dot alone as its name; written `Name`, it has
/// no schema and that name. It has one parameter per parameter written, in
/// order.
pub proof fn law_field_type_name(s: Seq<char>, ft: SpecPair, t: FieldType)
    requires
        field_type_of(s, ft, t),
    ensures
        ft.inner[0].rule == Rule::schema_identifier ==> {
            &&& t.schema matches Some(x) && x@ == string_value(text(s, ft.inner[0].inner[0]))
            &&& t.name@ == text(s, ft.inner[0].inner[1])
        },
        ft.inner[0].rule != Rule::schema_identifier ==> t.schema is None && t.name@ == text(s, ft.inner[0]),
        t.parameters@.len() == (if ft.inner.len() >= 2 && ft.inner[1].inner.len() >= 1 {
            ft.inner[1].inner[0].inner.len()
        } else {
            0
        }),
        forall|k: int|
            0 <= k < t.parameters@.len() ==> value_of(
                s,
                ft.inner[1].inner[0].inner[k],
                #[trigger] t.parameters@[k],
            ),
{
}

/// What a value read without error holds, by the kind of its node: a string
/// its value, an integer its number, a decimal its text, a name its text and no
/// schema, `"schema".name` the schema's value and the name, `a.b.c` the first
/// name and then each later one, `"schema".a.b` the schema, the first name and
/// each later one, a list one item per element, in order, a call its name (and
/// its schema as written, quotes included) and one argument per argument
/// written.
pub proof fn law_flat_value_kinds(s: Seq<char>, p: SpecPair, v: Value)
    requires
        value_of(s, p, v),
    ensures
        p.rule == Rule::string_literal ==> (v matches Value::String(x) && x@ == string_value(text(s, p))),
        p.rule == Rule::integer_literal ==> (v matches Value::Integer(n)
            && crate::text::int_literal_result(text(s, p)) == Ok::<i64, crate::text::IntOverflow>(n)),
        p.rule == Rule::float_literal ==> (v matches Value::Float(x) && x@ == text(s, p)),
        p.rule == Rule::identifier ==> (v matches Value::Identifier { schema, identifier }
            && schema is None && identifier@ == text(s, p)),
        p.rule == Rule::schema_identifier ==> (v matches Value::Identifier { schema, identifier }
            && schema is Some && schema->Some_0@ == string_value(text(s, p.inner[0]))
            && identifier@ == text(s, p.inner[1])),
        p.rule == Rule::qualified_identifier ==> (v matches Value::QualifiedIdentifier {
            schema,
            identifier,
            qualifications,
        } && schema is None && identifier@ == text(s, p.inner[0]) && qualifications@.len() + 1
            == p.inner.len() && forall|k: int|
            1 <= k < p.inner.len() ==> (#[trigger] qualifications@[k - 1])@ == text(s, p.inner[k])),
        p.rule == Rule::schema_qualified_identifier ==> (v matches Value::QualifiedIdentifier {
            schema,
            identifier,
            qualifications,
        } && schema is Some && schema->Some_0@ == string_value(text(s, p.inner[0])) && identifier@
            == text(s, p.inner[1]) && qualifications@.len() + 2 == p.inner.len() && forall|k: int|
            2 <= k < p.inner.len() ==> (#[trigger] qualifications@[k - 2])@ == text(s, p.inner[k])),
        p.rule == Rule::list_literal ==> (v matches Value::List(items) && items@.len() == (if p.inner.len()
            >= 1 {
            p.inner[0].inner.len()
        } else {
            0
        })),
        p.rule == Rule::list_literal && p.inner.len() >= 1 ==> (v matches Value::List(items)
            && forall|k: int|
            0 <= k < items@.len() ==> value_of(s, p.inner[0].inner[k], #[trigger] items@[k])),
        p.rule == Rule::function_call && p.inner[0].rule == Rule::schema_identifier ==> (
        v matches Value::FunctionCall { schema, name, .. } && schema is Some && schema->Some_0@ == text(
            s,
            p.inner[0].inner[0],
        ) && name@ == text(s, p.inner[0].inner[1])),
        p.rule == Rule::function_call && p.inner[0].rule != Rule::schema_identifier ==> (
        v matches Value::FunctionCall { schema, name, .. } && schema is None && name@ == text(
            s,
            p.inner[0],
        )),
        p.rule == Rule::function_call ==> (v matches Value::FunctionCall { arguments, .. }
            && arguments@.len() == (if p.inner.len() >= 2 {
            p.inner[1].inner.len()
        } else {
            0
        })),
{
    if p.rule == Rule::function_call && p.inner.len() >= 2 {
        assert(crate::ast::data_structures::value::arguments_of(s, p.inner[1], v->arguments@));
    }
    if p.rule == Rule::qualified_identifier {
        let q = v->qualifications;
        assert forall|k: int| 1 <= k < p.inner.len() implies (#[trigger] q@[k - 1])@ == text(s, p.inner[k]) by {
            assert(q@[(k - 1)]@ == text(s, p.inner[(k - 1) + 1]));
        }
    }
    if p.rule == Rule::schema_qualified_identifier {
        let q = v->qualifications;
        assert forall|k: int| 2 <= k < p.inner.len() implies (#[trigger] q@[k - 2])@ == text(s, p.inner[k]) by {
            assert(q@[(k - 2)]@ == text(s, p.inner[(k - 2) + 2]));
        }
    }
}


/// The indexes, in increasing order, of the nodes of `c` that declare
/// something of kind `r`.
pub open spec fn declaring(c: Seq<SpecPair>, r: Rule) -> Seq<int>
    decreases c.len(),
{
    if c.len() == 0 {
        Seq::empty()
    } else if declares(c.last(), r) {
        declaring(c.drop_last(), r).push(c.len() - 1)
    } else {
        declaring(c.drop_last(), r)
    }
}

proof fn lemma_entities_order(s: Seq<char>, c: Seq<SpecPair>, es: Seq<EntityDeclaration>)
    requires
        entities_of(s, c, es),
    ensures
        es.len() == declaring(c, Rule::entity_declaration).len(),
        forall|k: int|
            0 <= k < es.len() ==> entity_of(
                s,
                c[declaring(c, Rule::entity_declaration)[k]].inner[0],
                #[trigger] es[k],
            ),
    decreases c.len(),
{
    if c.len() > 0 {
        let c2 = c.drop_last();
        let e2 = if declares(c.last(), Rule::entity_declaration) {
            es.drop_last()
        } else {
            es
        };
        lemma_entities_order(s, c2, e2);
        lemma_declaring_bounds(c2, Rule::entity_declaration);
        assert forall|k: int| 0 <= k < es.len() implies entity_of(
            s,
            c[declaring(c, Rule::entity_declaration)[k]].inner[0],
            #[trigger] es[k],
        ) by {
            if k < e2.len() {
                assert(es[k] == e2[k]);
                assert(declaring(c, Rule::entity_declaration)[k] == declaring(c2, Rule::entity_declaration)[k]);
                assert(c[declaring(c2, Rule::entity_declaration)[k]] == c2[declaring(
                    c2,
                    Rule::entity_declaration,
                )[k]]);
            }
        }
    }
}

proof fn lemma_templates_order(s: Seq<char>, c: Seq<SpecPair>, ts: Seq<TemplateDeclaration>)
    requires
        templates_of(s, c, ts),
    ensures
        ts.len() == declaring(c, Rule::template_declaration).len(),
        forall|k: int|
            0 <= k < ts.len() ==> template_of(
                s,
                c[declaring(c, Rule::template_declaration)[k]].inner[0],
                #[trigger] ts[k],
            ),
    decreases c.len(),
{
    if c.len() > 0 {
        let c2 = c.drop_last();
        let t2 = if declares(c.last(), Rule::template_declaration) {
            ts.drop_last()
        } else {
            ts
        };
        lemma_templates_order(s, c2, t2);
        lemma_declaring_bounds(c2, Rule::template_declaration);
        assert forall|k: int| 0 <= k < ts.len() implies template_of(
            s,
            c[declaring(c, Rule::template_declaration)[k]].inner[0],
            #[trigger] ts[k],
        ) by {
            if k < t2.len() {
                assert(ts[k] == t2[k]);
                assert(declaring(c, Rule::template_declaration)[k] == declaring(c2, Rule::template_declaration)[k]);
                assert(c[declaring(c2, Rule::template_declaration)[k]] == c2[declaring(
                    c2,
                    Rule::template_declaration,
                )[k]]);
            }
        }
    }
}

proof fn lemma_enums_order(s: Seq<char>, c: Seq<SpecPair>, es: Seq<EnumDeclaration>)
    requires
        enums_of(s, c, es),
    ensures
        es.len() == declaring(c, Rule::enum_declaration).len(),
        forall|k: int|
            0 <= k < es.len() ==> enum_of(
                s,
                c[declaring(c, Rule::enum_declaration)[k]].inner[0],
                #[trigger] es[k],
            ),
    decreases c.len(),
{
    if c.len() > 0 {
        let c2 = c.drop_last();
        let e2 = if declares(c.last(), Rule::enum_declaration) {
            es.drop_last()
        } else {
            es
        };
        lemma_enums_order(s, c2, e2);
        lemma_declaring_bounds(c2, Rule::enum_declaration);
        assert forall|k: int| 0 <= k < es.len() implies enum_of(
            s,
            c[declaring(c, Rule::enum_declaration)[k]].inner[0],
            #[trigger] es[k],
        ) by {
            if k < e2.len() {
                assert(es[k] == e2[k]);
                assert(declaring(c, Rule::enum_declaration)[k] == declaring(c2, Rule::enum_declaration)[k]);
                assert(c[declaring(c2, Rule::enum_declaration)[k]] == c2[declaring(
                    c2,
                    Rule::enum_declaration,
                )[k]]);
            }
        }
    }
}

/// Every index `declaring` lists is that of a node of `c` declaring kind `r`.
proof fn lemma_declaring_bounds(c: Seq<SpecPair>, r: Rule)
    ensures
        forall|k: int|
            0 <= k < declaring(c, r).len() ==> 0 <= #[trigger] declaring(c, r)[k] < c.len()
                && declares(c[declaring(c, r)[k]], r),
    decreases c.len(),
{
    if c.len() > 0 {
        let c2 = c.drop_last();
        lemma_declaring_bounds(c2, r);
        assert forall|k: int|
            0 <= k < declaring(c, r).len() implies 0 <= #[trigger] declaring(c, r)[k] < c.len() && declares(
            c[declaring(c, r)[k]],
            r,
        ) by {
            if k < declaring(c2, r).len() {
                assert(declaring(c, r)[k] == declaring(c2, r)[k]);
                assert(c[declaring(c2, r)[k]] == c2[declaring(c2, r)[k]]);
            }
        }
    }
}

/// A file read by the flat reader lists its enums, its templates and its
/// entities each in the order written: the k-th of each kind is what the k-th
/// declaration of that kind in the text reads as, and there are as many of
/// each kind as the text declares.
pub proof fn law_flat_declaration_order(s: Seq<char>, f: SpecPair, ast: ConkAST)
    requires
        ast_of(s, f, ast),
    ensures
        ast.entity_declarations@.len() == declaring(f.inner, Rule::entity_declaration).len(),
        forall|k: int|
            0 <= k < ast.entity_declarations@.len() ==> entity_of(
                s,
                f.inner[declaring(f.inner, Rule::entity_declaration)[k]].inner[0],
                #[trigger] ast.entity_declarations@[k],
            ),
        ast.template_declarations@.len() == declaring(f.inner, Rule::template_declaration).len(),
        forall|k: int|
            0 <= k < ast.template_declarations@.len() ==> template_of(
                s,
                f.inner[declaring(f.inner, Rule::template_declaration)[k]].inner[0],
                #[trigger] ast.template_declarations@[k],
            ),
        ast.enum_declarations@.len() == declaring(f.inner, Rule::enum_declaration).len(),
        forall|k: int|
            0 <= k < ast.enum_declarations@.len() ==> enum_of(
                s,
                f.inner[declaring(f.inner, Rule::enum_declaration)[k]].inner[0],
                #[trigger] ast.enum_declarations@[k],
            ),
{
    lemma_entities_order(s, f.inner, ast.entity_declarations@);
    lemma_templates_order(s, f.inner, ast.template_declarations@);
    lemma_enums_order(s, f.inner, ast.enum_declarations@);
}

/// A config block read by the flat reader holds one entry per entry written, in
/// order, each with its key as written and the value its value node reads as.
pub proof fn law_flat_config_parts(s: Seq<char>, c: SpecPair, cfg: Config)
    requires
        config_of(s, c, cfg),
    ensures
        cfg.entries@.len() == c.inner.len(),
        forall|k: int|
            0 <= k < c.inner.len() ==> (#[trigger] cfg.entries@[k]).0@ == text(s, c.inner[k].inner[0])
                && value_of(s, c.inner[k].inner[1], cfg.entries@[k].1),
{
}

/// An argument written `name: value` reads as a named argument with that name
/// and the value its value node reads as; one written as a bare value reads as
/// a positional argument holding that value.
pub proof fn law_flat_argument_kind(s: Seq<char>, a: SpecPair, arg: Argument)
    requires
        crate::grammar::wf::wf_argument(s, a),
        argument_of(s, a, arg),
    ensures
        a.inner[0].rule == Rule::named_argument ==> (arg matches Argument::Named { name, value }
            && name@ == text(s, a.inner[0].inner[0]) && value_of(s, a.inner[0].inner[1], value)),
        a.inner[0].rule == Rule::positional_argument ==> (arg matches Argument::Positional { value }
            && value_of(s, a.inner[0].inner[0], value)),
{
}

} // verus!
