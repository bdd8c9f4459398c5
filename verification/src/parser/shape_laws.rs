//! What the checking reader's results hold, stated on the nodes of the tree:
//! one entry per node of each kind, in the order written, each entry the text
//! the node covers.
use vstd::prelude::*;
use crate::ast::attribute::BlockAttribute;
use crate::ast::config::Config;
use crate::ast::declaration::{Declaration, Entity, Enum, Template};
use crate::ast::field::Field;
use crate::ast::file::ConkFile;
use crate::ast::value::Value;
use crate::ast::data_structures::shape_laws::lemma_values_positions;
use crate::grammar::tree::{law_positions, positions, Rule, SpecPair};
use crate::grammar::wf::text;
use crate::parser::convert::{
    attribute_of, block_attributes_ok, config_of, declaration_of, declarations_ok, entity_of,
    enum_of, field_of, fields_ok, file_of, last_with, template_of, type_of, value_of,
};
use crate::text::{int_literal_result, string_value, IntOverflow};

verus! {

/// The last node of `c` with rule `r` is the only one when there is one, and
/// there is none when there are none.
pub proof fn lemma_last_with_single(c: Seq<SpecPair>, r: Rule)
    ensures
        positions(c, r).len() == 0 ==> last_with(c, r) is None,
        positions(c, r).len() == 1 ==> last_with(c, r) == Some(c[positions(c, r)[0]]),
    decreases c.len(),
{
    if c.len() > 0 {
        let c2 = c.drop_last();
        lemma_last_with_single(c2, r);
        law_positions(c2, r);
        if c.last().rule != r && positions(c2, r).len() == 1 {
            assert(c[positions(c2, r)[0]] == c2[positions(c2, r)[0]]);
        }
    }
}

proof fn lemma_fields_positions(s: Seq<char>, c: Seq<SpecPair>, fs: Seq<Field>)
    requires
        fields_ok(s, c, fs),
    ensures
        fs.len() == positions(c, Rule::field).len(),
        forall|k: int|
            0 <= k < fs.len() ==> field_of(s, c[positions(c, Rule::field)[k]], #[trigger] fs[k]),
    decreases c.len(),
{
    if c.len() > 0 {
        let c2 = c.drop_last();
        law_positions(c2, Rule::field);
        let f2 = if c.last().rule == Rule::field {
            fs.drop_last()
        } else {
            fs
        };
        lemma_fields_positions(s, c2, f2);
        assert forall|k: int| 0 <= k < fs.len() implies field_of(
            s,
            c[positions(c, Rule::field)[k]],
            #[trigger] fs[k],
        ) by {
            if k < f2.len() {
                assert(fs[k] == f2[k]);
                assert(positions(c, Rule::field)[k] == positions(c2, Rule::field)[k]);
                assert(c[positions(c2, Rule::field)[k]] == c2[positions(c2, Rule::field)[k]]);
            }
        }
    }
}

proof fn lemma_blocks_positions(s: Seq<char>, c: Seq<SpecPair>, bs: Seq<BlockAttribute>)
    requires
        block_attributes_ok(s, c, bs),
    ensures
        bs.len() == positions(c, Rule::block_attribute).len(),
        forall|k: int|
            0 <= k < bs.len() ==> attribute_of(
                s,
                c[positions(c, Rule::block_attribute)[k]],
                (#[trigger] bs[k]).name,
                bs[k].args,
            ),
    decreases c.len(),
{
    if c.len() > 0 {
        let c2 = c.drop_last();
        law_positions(c2, Rule::block_attribute);
        let b2 = if c.last().rule == Rule::block_attribute {
            bs.drop_last()
        } else {
            bs
        };
        lemma_blocks_positions(s, c2, b2);
        assert forall|k: int| 0 <= k < bs.len() implies attribute_of(
            s,
            c[positions(c, Rule::block_attribute)[k]],
            (#[trigger] bs[k]).name,
            bs[k].args,
        ) by {
            if k < b2.len() {
                assert(bs[k] == b2[k]);
                assert(positions(c, Rule::block_attribute)[k] == positions(c2, Rule::block_attribute)[k]);
                assert(c[positions(c2, Rule::block_attribute)[k]] == c2[positions(
                    c2,
                    Rule::block_attribute,
                )[k]]);
            }
        }
    }
}

proof fn lemma_declarations_positions(s: Seq<char>, c: Seq<SpecPair>, ds: Seq<Declaration>)
    requires
        declarations_ok(s, c, ds),
    ensures
        ds.len() == positions(c, Rule::declaration).len(),
        forall|k: int|
            0 <= k < ds.len() ==> declaration_of(
                s,
                c[positions(c, Rule::declaration)[k]],
                #[trigger] ds[k],
            ),
    decreases c.len(),
{
    if c.len() > 0 {
        let c2 = c.drop_last();
        law_positions(c2, Rule::declaration);
        let d2 = if c.last().rule == Rule::declaration {
            ds.drop_last()
        } else {
            ds
        };
        lemma_declarations_positions(s, c2, d2);
        assert forall|k: int| 0 <= k < ds.len() implies declaration_of(
            s,
            c[positions(c, Rule::declaration)[k]],
            #[trigger] ds[k],
        ) by {
            if k < d2.len() {
                assert(ds[k] == d2[k]);
                assert(positions(c, Rule::declaration)[k] == positions(c2, Rule::declaration)[k]);
                assert(c[positions(c2, Rule::declaration)[k]] == c2[positions(c2, Rule::declaration)[k]]);
            }
        }
    }
}

/// The name given by the nodes `c`: that of their identifier when they hold one.
pub open spec fn single_name(s: Seq<char>, c: Seq<SpecPair>, x: Seq<char>) -> bool {
    positions(c, Rule::identifier).len() == 1 ==> x == text(s, c[positions(c, Rule::identifier)[0]])
}

/// The schema given by the nodes `c`: the value of their schema prefix when
/// they hold one, none when they hold none.
pub open spec fn single_schema(s: Seq<char>, c: Seq<SpecPair>, x: Option<String>) -> bool {
    &&& positions(c, Rule::schema_prefix).len() == 0 ==> x is None
    &&& positions(c, Rule::schema_prefix).len() == 1 ==> (x is Some && x->Some_0@ == string_value(
        text(s, c[positions(c, Rule::schema_prefix)[0]].inner[0]),
    ))
}

/// The names listed by the usage nodes with rule `r` among `c`: none without
/// one; with one, one entry per listed name, in order, each as written.
pub open spec fn single_list(s: Seq<char>, c: Seq<SpecPair>, r: Rule, names: Seq<String>) -> bool {
    &&& positions(c, r).len() == 0 ==> names.len() == 0
    &&& positions(c, r).len() == 1 ==> {
        let l = c[positions(c, r)[0]].inner[0];
        &&& names.len() == l.inner.len()
        &&& forall|k: int| 0 <= k < l.inner.len() ==> (#[trigger] names[k])@ == text(s, l.inner[k])
    }
}

/// An entity read without error has its schema, its name, the templates and
/// the parents it lists (each as written, one per listed name, in order), one
/// field for each field node and one block attribute for each block attribute
/// node, in the order written.
pub proof fn law_entity_parts(s: Seq<char>, d: SpecPair, e: Entity)
    requires
        entity_of(s, d, e),
    ensures
        single_schema(s, d.inner, e.schema),
        single_name(s, d.inner, e.name@),
        single_list(s, d.inner, Rule::template_usage, e.templates@),
        single_list(s, d.inner, Rule::inheritance_usage, e.inherits@),
        e.fields@.len() == positions(d.inner, Rule::field).len(),
        forall|k: int|
            0 <= k < e.fields@.len() ==> field_of(
                s,
                d.inner[positions(d.inner, Rule::field)[k]],
                #[trigger] e.fields@[k],
            ),
        e.attributes@.len() == positions(d.inner, Rule::block_attribute).len(),
        forall|k: int|
            0 <= k < e.attributes@.len() ==> (#[trigger] e.attributes@[k]).name@ == text(
                s,
                d.inner[positions(d.inner, Rule::block_attribute)[k]].inner[0],
            ),
{
    lemma_last_with_single(d.inner, Rule::schema_prefix);
    lemma_last_with_single(d.inner, Rule::identifier);
    lemma_last_with_single(d.inner, Rule::template_usage);
    lemma_last_with_single(d.inner, Rule::inheritance_usage);
    lemma_fields_positions(s, d.inner, e.fields@);
    lemma_blocks_positions(s, d.inner, e.attributes@);
}

/// A template read without error has its name, one field for each field node
/// and one block attribute for each block attribute node, in the order written.
pub proof fn law_template_parts(s: Seq<char>, d: SpecPair, t: Template)
    requires
        template_of(s, d, t),
    ensures
        single_name(s, d.inner, t.name@),
        t.fields@.len() == positions(d.inner, Rule::field).len(),
        forall|k: int|
            0 <= k < t.fields@.len() ==> field_of(
                s,
                d.inner[positions(d.inner, Rule::field)[k]],
                #[trigger] t.fields@[k],
            ),
        t.attributes@.len() == positions(d.inner, Rule::block_attribute).len(),
        forall|k: int|
            0 <= k < t.attributes@.len() ==> (#[trigger] t.attributes@[k]).name@ == text(
                s,
                d.inner[positions(d.inner, Rule::block_attribute)[k]].inner[0],
            ),
{
    lemma_last_with_single(d.inner, Rule::identifier);
    lemma_fields_positions(s, d.inner, t.fields@);
    lemma_blocks_positions(s, d.inner, t.attributes@);
}

/// An enum read without error has its schema, its name, one value for each
/// value node, in order, each the value's name as written, and one block
/// attribute for each block attribute node, in order.
pub proof fn law_enum_parts(s: Seq<char>, d: SpecPair, e: Enum)
    requires
        enum_of(s, d, e),
    ensures
        single_schema(s, d.inner, e.schema),
        single_name(s, d.inner, e.name@),
        e.values@.len() == positions(d.inner, Rule::enum_value).len(),
        forall|k: int|
            0 <= k < e.values@.len() ==> (#[trigger] e.values@[k])@ == text(
                s,
                d.inner[positions(d.inner, Rule::enum_value)[k]].inner[0],
            ),
        e.attributes@.len() == positions(d.inner, Rule::block_attribute).len(),
        forall|k: int|
            0 <= k < e.attributes@.len() ==> (#[trigger] e.attributes@[k]).name@ == text(
                s,
                d.inner[positions(d.inner, Rule::block_attribute)[k]].inner[0],
            ),
{
    lemma_last_with_single(d.inner, Rule::schema_prefix);
    lemma_last_with_single(d.inner, Rule::identifier);
    lemma_values_positions(s, d.inner, e.values@);
    lemma_blocks_positions(s, d.inner, e.attributes@);
}

/// A field read without error has the name it is written with, its type's name
/// as written (schema included) with one parameter per parameter written, in
/// order, and one attribute per attribute written, in order, each named as
/// written.
pub proof fn law_field_parts(s: Seq<char>, f: SpecPair, fl: Field)
    requires
        field_of(s, f, fl),
    ensures
        fl.name@ == text(s, f.inner[0]),
        fl.type_.name@ == text(s, f.inner[1].inner[0]),
        fl.type_.params@.len() == (if f.inner[1].inner.len() >= 2 && f.inner[1].inner[1].inner.len()
            >= 1 {
            f.inner[1].inner[1].inner[0].inner.len()
        } else {
            0
        }),
        forall|k: int|
            0 <= k < fl.type_.params@.len() ==> value_of(
                s,
                f.inner[1].inner[1].inner[0].inner[k],
                #[trigger] fl.type_.params@[k],
            ),
        fl.attributes@.len() == f.inner.len() - 2,
        forall|k: int|
            0 <= k < fl.attributes@.len() ==> (#[trigger] fl.attributes@[k]).name@ == text(
                s,
                f.inner[k + 2].inner[0],
            ),
{
    assert(type_of(s, f.inner[1], fl.type_));
    assert forall|k: int| 0 <= k < fl.attributes@.len() implies (#[trigger] fl.attributes@[k]).name@
        == text(s, f.inner[k + 2].inner[0]) by {
        assert(attribute_of(s, f.inner[k + 2], fl.attributes@[k].name, fl.attributes@[k].args));
    }
}

/// What a value read without error holds, by the kind of its node: a string
/// its value, an integer its number, a decimal its text, a name its text,
/// `a.b.c` one part per dotted name, as many parts as the node has children,
/// each as written, `"schema".a` and `"schema".a.b` the schema's value and then
/// each name, a list one item per element, in order.
pub proof fn law_value_kinds(s: Seq<char>, p: SpecPair, v: Value)
    requires
        value_of(s, p, v),
    ensures
        p.rule == Rule::string_literal ==> (v matches Value::String(x) && x@ == string_value(text(s, p))),
        p.rule == Rule::integer_literal ==> (v matches Value::Integer(n) && int_literal_result(text(s, p))
            == Ok::<i64, IntOverflow>(n)),
        p.rule == Rule::float_literal ==> (v matches Value::Float(x) && x@ == text(s, p)),
        p.rule == Rule::identifier ==> (v matches Value::Identifier(x) && x@ == text(s, p)),
        p.rule == Rule::qualified_identifier ==> (v matches Value::QualifiedIdentifier(parts)
            && parts@.len() == p.inner.len() && forall|k: int|
            0 <= k < p.inner.len() ==> (#[trigger] parts@[k])@ == text(s, p.inner[k])),
        (p.rule == Rule::schema_identifier || p.rule == Rule::schema_qualified_identifier) ==> (v matches Value::QualifiedIdentifier(
            parts,
        ) && parts@.len() == p.inner.len() && parts@[0]@ == string_value(text(s, p.inner[0]))
            && forall|k: int| 1 <= k < p.inner.len() ==> (#[trigger] parts@[k])@ == text(s, p.inner[k])),
        p.rule == Rule::list_literal ==> (v matches Value::List(items) && items@.len() == (if p.inner.len()
            >= 1 {
            p.inner[0].inner.len()
        } else {
            0
        })),
        p.rule == Rule::list_literal && p.inner.len() >= 1 ==> (v matches Value::List(items)
            && forall|k: int|
            0 <= k < items@.len() ==> value_of(s, p.inner[0].inner[k], #[trigger] items@[k])),
        p.rule == Rule::function_call ==> (v matches Value::FunctionCall { name, .. } && name@ == text(
            s,
            p.inner[0],
        )),
{
}

/// A config block read without error holds one entry per entry written, in
/// order, each with its key as written.
pub proof fn law_config_parts(s: Seq<char>, c: SpecPair, cfg: Config)
    requires
        config_of(s, c, cfg),
    ensures
        cfg.entries@.len() == c.inner.len(),
        forall|k: int|
            0 <= k < c.inner.len() ==> (#[trigger] cfg.entries@[k]).0@ == text(s, c.inner[k].inner[0]),
{
}

/// A file read without error holds one declaration per declaration node, in
/// the order written, and the config block when it has one.
pub proof fn law_file_parts(s: Seq<char>, f: SpecPair, cf: ConkFile)
    requires
        file_of(s, f, cf),
    ensures
        cf.declarations@.len() == positions(f.inner, Rule::declaration).len(),
        forall|k: int|
            0 <= k < cf.declarations@.len() ==> declaration_of(
                s,
                f.inner[positions(f.inner, Rule::declaration)[k]],
                #[trigger] cf.declarations@[k],
            ),
        positions(f.inner, Rule::config).len() == 0 ==> cf.config is None,
        positions(f.inner, Rule::config).len() == 1 ==> (cf.config is Some && config_of(
            s,
            f.inner[positions(f.inner, Rule::config)[0]],
            cf.config->Some_0,
        )),
{
    lemma_last_with_single(f.inner, Rule::config);
    lemma_declarations_positions(s, f.inner, cf.declarations@);
}


/// The first child of each node of `args`: what kind of argument each is.
pub open spec fn argument_kinds(args: Seq<SpecPair>) -> Seq<SpecPair> {
    args.map_values(|a: SpecPair| a.inner[0])
}

proof fn lemma_split_positions(
    s: Seq<char>,
    args: Seq<SpecPair>,
    pos: Seq<Value>,
    named: Seq<crate::ast::attribute::NamedArgument>,
)
    requires
        crate::parser::convert::split_ok(s, args, pos, named),
        forall|k: int|
            0 <= k < args.len() ==> (#[trigger] args[k]).inner.len() == 1 && (args[k].inner[0].rule
                == Rule::positional_argument || args[k].inner[0].rule == Rule::named_argument),
    ensures
        pos.len() == positions(argument_kinds(args), Rule::positional_argument).len(),
        named.len() == positions(argument_kinds(args), Rule::named_argument).len(),
        forall|k: int|
            0 <= k < pos.len() ==> value_of(
                s,
                args[positions(argument_kinds(args), Rule::positional_argument)[k]].inner[0].inner[0],
                #[trigger] pos[k],
            ),
        forall|k: int|
            0 <= k < named.len() ==> {
                let n = args[positions(argument_kinds(args), Rule::named_argument)[k]].inner[0];
                &&& (#[trigger] named[k]).name@ == text(s, n.inner[0])
                &&& value_of(s, n.inner[1], named[k].value)
            },
    decreases args.len(),
{
    if args.len() > 0 {
        let a2 = args.drop_last();
        let ks = argument_kinds(args);
        let k2 = argument_kinds(a2);
        assert(ks.drop_last() =~= k2);
        assert(ks.last() == args.last().inner[0]);
        law_positions(k2, Rule::positional_argument);
        law_positions(k2, Rule::named_argument);
        let p2 = if crate::parser::convert::is_positional(args.last()) {
            pos.drop_last()
        } else {
            pos
        };
        let n2 = if crate::parser::convert::is_positional(args.last()) {
            named
        } else {
            named.drop_last()
        };
        assert forall|k: int| 0 <= k < a2.len() implies (#[trigger] a2[k]).inner.len() == 1 && (
        a2[k].inner[0].rule == Rule::positional_argument || a2[k].inner[0].rule
            == Rule::named_argument) by {
            assert(a2[k] == args[k]);
        }
        lemma_split_positions(s, a2, p2, n2);
        let pp = positions(ks, Rule::positional_argument);
        let pp2 = positions(k2, Rule::positional_argument);
        let np = positions(ks, Rule::named_argument);
        let np2 = positions(k2, Rule::named_argument);
        let last = args.len() - 1;
        assert(args[last] == args.last());
        if crate::parser::convert::is_positional(args.last()) {
            assert(pp =~= pp2.push(last));
            assert(np =~= np2);
        } else {
            assert(ks.last().rule == Rule::named_argument);
            assert(pp =~= pp2);
            assert(np =~= np2.push(last));
        }
        assert forall|k: int| 0 <= k < pos.len() implies value_of(
            s,
            args[pp[k]].inner[0].inner[0],
            #[trigger] pos[k],
        ) by {
            if k < p2.len() {
                assert(pos[k] == p2[k]);
                assert(pp[k] == pp2[k]);
                assert(args[pp2[k]] == a2[pp2[k]]);
            }
        }
        assert forall|k: int| 0 <= k < named.len() implies {
            let n = args[np[k]].inner[0];
            &&& (#[trigger] named[k]).name@ == text(s, n.inner[0])
            &&& value_of(s, n.inner[1], named[k].value)
        } by {
            if k < n2.len() {
                assert(named[k] == n2[k]);
                assert(np[k] == np2[k]);
                assert(args[np2[k]] == a2[np2[k]]);
            }
        }
    }
}

/// An argument list read without error holds one positional argument per
/// positional argument written and one named argument per named argument
/// written, each kind in the order written; a named argument has its name as
/// written.
pub proof fn law_argument_parts(s: Seq<char>, q: SpecPair, a: crate::ast::attribute::ArgumentList)
    requires
        crate::grammar::wf::wf_argument_list(s, q),
        crate::parser::convert::arguments_of(s, q, a),
    ensures
        a.positional@.len() == positions(argument_kinds(q.inner), Rule::positional_argument).len(),
        a.named@.len() == positions(argument_kinds(q.inner), Rule::named_argument).len(),
        forall|k: int|
            0 <= k < a.positional@.len() ==> value_of(
                s,
                q.inner[positions(argument_kinds(q.inner), Rule::positional_argument)[k]].inner[0].inner[0],
                #[trigger] a.positional@[k],
            ),
        forall|k: int|
            0 <= k < a.named@.len() ==> (#[trigger] a.named@[k]).name@ == text(
                s,
                q.inner[positions(argument_kinds(q.inner), Rule::named_argument)[k]].inner[0].inner[0],
            ),
{
    assert forall|k: int| 0 <= k < q.inner.len() implies (#[trigger] q.inner[k]).inner.len() == 1 && (
    q.inner[k].inner[0].rule == Rule::positional_argument || q.inner[k].inner[0].rule
        == Rule::named_argument) by {
        assert(crate::grammar::wf::wf_argument(s, q.inner[k]));
    }
    lemma_split_positions(s, q.inner, a.positional@, a.named@);
}
} // verus!
