//! How the flat reader's results are made of the results for the parts of a
//! node: a node converts exactly when each part does, the parts come out in
//! order, and otherwise the error is that of the first part that fails.
use vstd::prelude::*;
use crate::ast::data_structures::attribute::{attribute_of, AttributeLike};
use crate::ast::data_structures::field::{field_type_of, FieldType};
use crate::ast::data_structures::value::{
    argument_of, int_err, ints_err, lemma_ints_none, lemma_last_child, lemma_name_no_int,
    value_of, Value,
};
use crate::ast::data_structures::{
    ast_of, ast_result, declares, entities_of, enums_of, templates_of, ConkAST,
};
use crate::ast::data_structures::declaration::{
    EntityDeclaration, EnumDeclaration, TemplateDeclaration,
};
use crate::ast::error::Error;
use crate::grammar::rules::parse_spec;
use crate::grammar::tree::{Rule, SpecPair};
use crate::grammar::wf::{wf_attribute, wf_field_type, wf_value};
use crate::parser::convert::last_with;
use crate::parser::laws::count_kind;
use crate::text::IntOverflow;

verus! {

/// `r` is what converting the parts `c`, in order, gives first: nothing when
/// every part converts, else the error of the first part that fails.
pub open spec fn first_int_error(s: Seq<char>, c: Seq<SpecPair>, r: Option<IntOverflow>) -> bool {
    match r {
        None => forall|k: int| 0 <= k < c.len() ==> int_err(s, #[trigger] c[k]) is None,
        Some(e) => exists|j: int| first_failing(s, c, j) && int_err(s, c[j]) == Some(e),
    }
}

/// Part `j` of `c` is the first that fails to convert.
pub open spec fn first_failing(s: Seq<char>, c: Seq<SpecPair>, j: int) -> bool {
    &&& 0 <= j < c.len()
    &&& int_err(s, c[j]) is Some
    &&& forall|i: int| 0 <= i < j ==> int_err(s, #[trigger] c[i]) is None
}

/// `e` is the error with which part `j` of `c` fails.
pub open spec fn part_error(s: Seq<char>, c: Seq<SpecPair>, j: int, e: Error) -> bool {
    int_err(s, c[j]) matches Some(k) && e == Error::ParseInt(k)
}

/// The search for a bad integer literal below the children of `q`, from child
/// `k0` on, finds the first child that holds one.
proof fn lemma_ints_first(s: Seq<char>, q: SpecPair, k0: int)
    requires
        0 <= k0 <= q.inner.len(),
    ensures
        ints_err(s, q, k0) is None <==> forall|k: int|
            k0 <= k < q.inner.len() ==> int_err(s, #[trigger] q.inner[k]) is None,
        ints_err(s, q, k0) matches Some(e) ==> exists|j: int|
            k0 <= j < q.inner.len() && int_err(s, q.inner[j]) == Some(e) && (forall|i: int|
                k0 <= i < j ==> int_err(s, #[trigger] q.inner[i]) is None) && #[trigger] q.inner[j]
                == q.inner[j],
    decreases q.inner.len() - k0,
{
    if k0 < q.inner.len() {
        lemma_ints_first(s, q, k0 + 1);
        if int_err(s, q.inner[k0]) is None {
            if let Some(e) = ints_err(s, q, k0) {
                let j = choose|j: int|
                    k0 + 1 <= j < q.inner.len() && int_err(s, q.inner[j]) == Some(e) && (forall|i: int|
                        k0 + 1 <= i < j ==> int_err(s, #[trigger] q.inner[i]) is None) && #[trigger] q.inner[j]
                        == q.inner[j];
                assert forall|i: int| k0 <= i < j implies int_err(s, #[trigger] q.inner[i]) is None by {
                    if i > k0 {
                    }
                }
            }
        }
    }
}

/// What converting the children of `q` gives first, stated over the parts.
proof fn lemma_first_int_error(s: Seq<char>, q: SpecPair)
    ensures
        first_int_error(s, q.inner, ints_err(s, q, 0)),
{
    lemma_ints_first(s, q, 0);
    if let Some(e) = ints_err(s, q, 0) {
        let j = choose|j: int|
            0 <= j < q.inner.len() && int_err(s, q.inner[j]) == Some(e) && (forall|i: int|
                0 <= i < j ==> int_err(s, #[trigger] q.inner[i]) is None) && #[trigger] q.inner[j]
                == q.inner[j];
        assert(first_failing(s, q.inner, j));
    }
}

/// The parts a list or a call is made of: its elements, or its argument nodes.
pub open spec fn value_parts(p: SpecPair) -> Seq<SpecPair> {
    if p.rule == Rule::list_literal {
        if p.inner.len() >= 1 {
            p.inner[0].inner
        } else {
            Seq::empty()
        }
    } else if p.inner.len() >= 2 {
        p.inner[1].inner
    } else {
        Seq::empty()
    }
}

/// A list converts exactly when each element converts, a call exactly when each
/// argument converts; the result holds the converted parts in order; otherwise
/// the error is that of the first part that fails.
pub proof fn law_value_parts(s: Seq<char>, p: SpecPair, r: Result<Value, Error>)
    requires
        wf_value(s, p),
        p.rule == Rule::list_literal || p.rule == Rule::function_call,
        match r {
            Ok(v) => int_err(s, p) is None && value_of(s, p, v),
            Err(e) => int_err(s, p) matches Some(k) && e == Error::ParseInt(k),
        },
    ensures
        (r is Ok) == (forall|k: int|
            0 <= k < value_parts(p).len() ==> int_err(s, #[trigger] value_parts(p)[k]) is None),
        r matches Ok(v) ==> (if p.rule == Rule::list_literal {
            &&& v matches Value::List(items)
            &&& items@.len() == value_parts(p).len()
            &&& forall|k: int| 0 <= k < items@.len() ==> value_of(s, value_parts(p)[k], #[trigger] items@[k])
        } else {
            &&& v matches Value::FunctionCall { arguments, .. }
            &&& arguments@.len() == value_parts(p).len()
            &&& forall|k: int|
                0 <= k < arguments@.len() ==> argument_of(s, value_parts(p)[k], #[trigger] arguments@[k])
        }),
        r matches Err(e) ==> exists|j: int|
            first_failing(s, value_parts(p), j) && part_error(s, value_parts(p), j, e),
{
    if p.rule == Rule::list_literal {
        if p.inner.len() >= 1 {
            lemma_last_child(s, p);
            lemma_first_int_error(s, p.inner[0]);
        } else {
            lemma_ints_none(s, p);
        }
    } else {
        lemma_name_no_int(s, p.inner[0]);
        if p.inner.len() >= 2 {
            lemma_last_child(s, p);
            lemma_first_int_error(s, p.inner[1]);
            if let Ok(v) = r {
                let arguments = v->arguments;
                assert(crate::ast::data_structures::value::arguments_of(s, p.inner[1], arguments@));
                assert(value_parts(p) == p.inner[1].inner);
            }
        } else {
            lemma_ints_none(s, p);
        }
    }
}

/// The parameter nodes of a field type node.
pub open spec fn type_parts(ft: SpecPair) -> Seq<SpecPair> {
    if ft.inner.len() >= 2 && ft.inner[1].inner.len() >= 1 {
        ft.inner[1].inner[0].inner
    } else {
        Seq::empty()
    }
}

/// A field type converts exactly when each parameter converts; the parameters
/// come out in order, and the schema is there exactly when the name carries
/// one; otherwise the error is that of the first parameter that fails.
pub proof fn law_field_type_parts(s: Seq<char>, ft: SpecPair, r: Result<FieldType, Error>)
    requires
        wf_field_type(s, ft),
        match r {
            Ok(t) => int_err(s, ft) is None && field_type_of(s, ft, t),
            Err(e) => int_err(s, ft) matches Some(k) && e == Error::ParseInt(k),
        },
    ensures
        (r is Ok) == (forall|k: int|
            0 <= k < type_parts(ft).len() ==> int_err(s, #[trigger] type_parts(ft)[k]) is None),
        r matches Ok(t) ==> {
            &&& t.parameters@.len() == type_parts(ft).len()
            &&& forall|k: int|
                0 <= k < t.parameters@.len() ==> value_of(s, type_parts(ft)[k], #[trigger] t.parameters@[k])
            &&& (t.schema is Some <==> ft.inner[0].rule == Rule::schema_identifier)
        },
        r matches Err(e) ==> exists|j: int|
            first_failing(s, type_parts(ft), j) && part_error(s, type_parts(ft), j, e),
{
    lemma_name_no_int(s, ft.inner[0]);
    if ft.inner.len() >= 2 {
        let tp = ft.inner[1];
        lemma_last_child(s, ft);
        if tp.inner.len() >= 1 {
            lemma_last_child(s, tp);
            lemma_first_int_error(s, tp.inner[0]);
        } else {
            lemma_ints_none(s, tp);
        }
    } else {
        lemma_ints_none(s, ft);
    }
}

/// The argument nodes of an attribute node.
pub open spec fn attribute_parts(a: SpecPair) -> Seq<SpecPair> {
    if a.inner.len() >= 2 && a.inner[1].inner.len() >= 1 {
        a.inner[1].inner[0].inner
    } else {
        Seq::empty()
    }
}

/// An attribute converts exactly when each of its arguments converts; it is
/// then built from its name and the converted arguments in order (none without
/// parentheses); otherwise the error is that of the first argument that fails.
pub proof fn law_attribute_parts<T: AttributeLike>(s: Seq<char>, a: SpecPair, r: Result<T, Error>)
    requires
        wf_attribute(s, a, Rule::field_attribute) || wf_attribute(s, a, Rule::block_attribute),
        match r {
            Ok(t) => int_err(s, a) is None && attribute_of(s, a, t.attr_name(), t.attr_arguments()),
            Err(e) => int_err(s, a) matches Some(k) && e == Error::ParseInt(k),
        },
    ensures
        (r is Ok) == (forall|k: int|
            0 <= k < attribute_parts(a).len() ==> int_err(s, #[trigger] attribute_parts(a)[k]) is None),
        r matches Ok(t) ==> {
            &&& t.attr_arguments().len() == attribute_parts(a).len()
            &&& forall|k: int|
                0 <= k < t.attr_arguments().len() ==> argument_of(
                    s,
                    attribute_parts(a)[k],
                    #[trigger] t.attr_arguments()[k],
                )
        },
        r matches Err(e) ==> exists|j: int|
            first_failing(s, attribute_parts(a), j) && part_error(s, attribute_parts(a), j, e),
{
    crate::ast::data_structures::value::lemma_flat(s, a.inner[0]);
    if a.inner.len() >= 2 {
        let g = a.inner[1];
        lemma_last_child(s, a);
        if g.inner.len() >= 1 {
            lemma_last_child(s, g);
            lemma_first_int_error(s, g.inner[0]);
        } else {
            lemma_ints_none(s, g);
        }
    } else {
        lemma_ints_none(s, a);
    }
}

proof fn lemma_enums_count(s: Seq<char>, c: Seq<SpecPair>, es: Seq<EnumDeclaration>)
    requires
        enums_of(s, c, es),
    ensures
        es.len() == count_kind(c, Rule::enum_declaration),
    decreases c.len(),
{
    if c.len() > 0 {
        if declares(c.last(), Rule::enum_declaration) {
            lemma_enums_count(s, c.drop_last(), es.drop_last());
        } else {
            lemma_enums_count(s, c.drop_last(), es);
        }
    }
}

proof fn lemma_templates_count(s: Seq<char>, c: Seq<SpecPair>, ts: Seq<TemplateDeclaration>)
    requires
        templates_of(s, c, ts),
    ensures
        ts.len() == count_kind(c, Rule::template_declaration),
    decreases c.len(),
{
    if c.len() > 0 {
        if declares(c.last(), Rule::template_declaration) {
            lemma_templates_count(s, c.drop_last(), ts.drop_last());
        } else {
            lemma_templates_count(s, c.drop_last(), ts);
        }
    }
}

proof fn lemma_entities_count(s: Seq<char>, c: Seq<SpecPair>, es: Seq<EntityDeclaration>)
    requires
        entities_of(s, c, es),
    ensures
        es.len() == count_kind(c, Rule::entity_declaration),
    decreases c.len(),
{
    if c.len() > 0 {
        if declares(c.last(), Rule::entity_declaration) {
            lemma_entities_count(s, c.drop_last(), es.drop_last());
        } else {
            lemma_entities_count(s, c.drop_last(), es);
        }
    }
}

/// When the grammar accepts a text and its config block and each declaration
/// convert on their own, the flat reader succeeds: each kind of declaration is
/// listed in the order written, as many as the text holds, and there is a
/// config exactly when the text has a config block.
pub proof fn law_flat_file_ok(input: Seq<char>, p: SpecPair, r: Result<ConkAST, Error>)
    requires
        ast_result(input, r),
        parse_spec(input, Rule::file) == Ok::<SpecPair, int>(p),
        forall|k: int| 0 <= k < p.inner.len() ==> int_err(input, #[trigger] p.inner[k]) is None,
    ensures
        r matches Ok(ast) && ast_of(input, p, ast),
        r matches Ok(ast) ==> {
            &&& (ast.config is Some <==> last_with(p.inner, Rule::config) is Some)
            &&& ast.enum_declarations@.len() == count_kind(p.inner, Rule::enum_declaration)
            &&& ast.template_declarations@.len() == count_kind(p.inner, Rule::template_declaration)
            &&& ast.entity_declarations@.len() == count_kind(p.inner, Rule::entity_declaration)
        },
{
    assert(p.rule == Rule::file) by {
        reveal(crate::grammar::rules::file_rule);
    }
    lemma_ints_none(input, p);
    let ast = r->Ok_0;
    lemma_enums_count(input, p.inner, ast.enum_declarations@);
    lemma_templates_count(input, p.inner, ast.template_declarations@);
    lemma_entities_count(input, p.inner, ast.entity_declarations@);
}

} // verus!
