//! The shape of the trees the grammar builds, and the proof that it builds
//! nothing else. Functions that read a tree ask for this shape.
use vstd::prelude::*;
use crate::grammar::lexer::{is_int_text, lemma_lex_from_ok, lex_spec, lemma_tokens_ok, token_ok, tokens_ok, Token, TokenKind};
use crate::grammar::rules::{
    parse_spec, alt, argument, argument_list, arguments_tail, attribute_args, attribute_from, block_attribute,
    config, config_entries, config_entry, declaration, declarations, dotted_tail, entity_declaration,
    enum_declaration, enum_members, enum_value, field, field_attribute, field_attributes,
    field_type, file_rule, float_literal, function_call, glued_args, identifier, identifier_list,
    identifiers_tail, inheritance_list, inheritance_usage, integer_literal, kind_at, leaf,
    list_literal, members, name_at, named_argument, next_or, node_of, parents_tail,
    positional_argument, qualified_identifier, rule_at, schema_head, schema_identifier,
    schema_prefix, schema_qualified_identifier, skip_comma, spanned, string_literal, sym_at,
    template_declaration, template_usage, token_rule, type_params, value, value_list, values_tail,
    word_at,
};
use crate::grammar::tree::{Rule, SpecPair};

verus! {

/// The text a node covers.
pub open spec fn text(s: Seq<char>, p: SpecPair) -> Seq<char> {
    s.subrange(p.start, p.end)
}

/// The node's span lies inside the input.
pub open spec fn span_ok(s: Seq<char>, p: SpecPair) -> bool {
    0 <= p.start <= p.end <= s.len()
}

/// A node with rule `r` and no children.
pub open spec fn wf_leaf(s: Seq<char>, p: SpecPair, r: Rule) -> bool {
    p.rule == r && span_ok(s, p) && p.inner.len() == 0
}

/// An identifier.
pub open spec fn wf_ident(s: Seq<char>, p: SpecPair) -> bool {
    wf_leaf(s, p, Rule::identifier)
}

/// A string literal: at least its two quotes.
pub open spec fn wf_string(s: Seq<char>, p: SpecPair) -> bool {
    wf_leaf(s, p, Rule::string_literal) && p.end - p.start >= 2
}

/// A name that may carry a schema.
pub open spec fn wf_name(s: Seq<char>, p: SpecPair) -> bool {
    ||| wf_ident(s, p)
    ||| {
        &&& p.rule == Rule::schema_identifier
        &&& span_ok(s, p)
        &&& p.inner.len() == 2
        &&& wf_string(s, p.inner[0])
        &&& wf_ident(s, p.inner[1])
    }
}

/// A value of any kind, with its parts in the shape the grammar gives them.
pub open spec fn wf_value(s: Seq<char>, p: SpecPair) -> bool
    decreases p, 1nat,
{
    &&& span_ok(s, p)
    &&& if p.rule == Rule::integer_literal {
        p.inner.len() == 0 && is_int_text(text(s, p))
    } else if p.rule == Rule::float_literal || p.rule == Rule::identifier {
        p.inner.len() == 0
    } else if p.rule == Rule::string_literal {
        wf_string(s, p)
    } else if p.rule == Rule::list_literal {
        p.inner.len() <= 1 && (p.inner.len() == 1 ==> wf_value_list(s, p.inner[0]))
    } else if p.rule == Rule::function_call {
        &&& 1 <= p.inner.len() <= 2
        &&& wf_name(s, p.inner[0])
        &&& p.inner.len() == 2 ==> wf_argument_list(s, p.inner[1])
    } else if p.rule == Rule::schema_identifier {
        wf_name(s, p)
    } else if p.rule == Rule::schema_qualified_identifier {
        &&& p.inner.len() >= 3
        &&& wf_string(s, p.inner[0])
        &&& forall|k: int| 1 <= k < p.inner.len() ==> wf_ident(s, #[trigger] p.inner[k])
    } else if p.rule == Rule::qualified_identifier {
        &&& p.inner.len() >= 2
        &&& forall|k: int| 0 <= k < p.inner.len() ==> wf_ident(s, #[trigger] p.inner[k])
    } else {
        false
    }
}

/// One value or more, as in a list or type parameters.
pub open spec fn wf_value_list(s: Seq<char>, p: SpecPair) -> bool
    decreases p, 1nat,
{
    &&& p.rule == Rule::value_list
    &&& span_ok(s, p)
    &&& p.inner.len() >= 1
    &&& forall|k: int| 0 <= k < p.inner.len() ==> wf_value(s, #[trigger] p.inner[k])
}

/// An argument: `name: value` or a value alone.
pub open spec fn wf_argument(s: Seq<char>, a: SpecPair) -> bool
    decreases a, 1nat,
{
    &&& a.rule == Rule::argument
    &&& span_ok(s, a)
    &&& a.inner.len() == 1
    &&& span_ok(s, a.inner[0])
    &&& {
        ||| {
            &&& a.inner[0].rule == Rule::named_argument
            &&& a.inner[0].inner.len() == 2
            &&& wf_ident(s, a.inner[0].inner[0])
            &&& wf_value(s, a.inner[0].inner[1])
        }
        ||| {
            &&& a.inner[0].rule == Rule::positional_argument
            &&& a.inner[0].inner.len() == 1
            &&& wf_value(s, a.inner[0].inner[0])
        }
    }
}

/// One argument or more.
pub open spec fn wf_argument_list(s: Seq<char>, p: SpecPair) -> bool
    decreases p, 1nat,
{
    &&& p.rule == Rule::argument_list
    &&& span_ok(s, p)
    &&& p.inner.len() >= 1
    &&& forall|k: int| 0 <= k < p.inner.len() ==> wf_argument(s, #[trigger] p.inner[k])
}

/// The common facts of a rule's result: it consumed tokens `i..j` and the node
/// spans exactly those tokens.
pub open spec fn spans(t: Seq<Token>, i: int, r: Option<(SpecPair, int)>) -> bool {
    r matches Some((p, j)) ==> {
        &&& 0 <= i < j <= t.len()
        &&& p.start == t[i].start
        &&& p.end == t[j - 1].end
    }
}

/// Tokens `i..j` lie inside the input, in order.
pub proof fn lemma_span(s: Seq<char>, t: Seq<Token>, i: int, j: int)
    requires
        tokens_ok(s, t),
        0 <= i < j <= t.len(),
    ensures
        0 <= t[i].start <= t[j - 1].end <= s.len(),
        t[i].start < t[i].end,
{
    lemma_tokens_ok(s, t, i, j - 1);
    lemma_tokens_ok(s, t, j - 1, j - 1);
}

proof fn lemma_leaf(s: Seq<char>, t: Seq<Token>, i: int, k: TokenKind, r: Rule)
    requires
        tokens_ok(s, t),
    ensures
        spans(t, i, token_rule(t, i, k, r)),
        token_rule(t, i, k, r) matches Some((p, _)) ==> {
            &&& wf_leaf(s, p, r)
            &&& token_ok(s, t[i])
            &&& p == leaf(r, t[i])
        },
{
    if kind_at(t, i, k) {
        lemma_tokens_ok(s, t, i, i);
    }
}

proof fn lemma_leaf_value(s: Seq<char>, t: Seq<Token>, i: int)
    requires
        tokens_ok(s, t),
    ensures
        spans(t, i, identifier(t, i)),
        identifier(t, i) matches Some((p, _)) ==> wf_value(s, p) && wf_ident(s, p),
        spans(t, i, string_literal(t, i)),
        string_literal(t, i) matches Some((p, _)) ==> wf_value(s, p) && wf_string(s, p),
        spans(t, i, integer_literal(t, i)),
        integer_literal(t, i) matches Some((p, _)) ==> wf_value(s, p),
        spans(t, i, float_literal(t, i)),
        float_literal(t, i) matches Some((p, _)) ==> wf_value(s, p),
{
    lemma_leaf(s, t, i, TokenKind::Ident, Rule::identifier);
    lemma_leaf(s, t, i, TokenKind::Str, Rule::string_literal);
    lemma_leaf(s, t, i, TokenKind::Int, Rule::integer_literal);
    lemma_leaf(s, t, i, TokenKind::Float, Rule::float_literal);
}

pub proof fn lemma_name(s: Seq<char>, t: Seq<Token>, i: int)
    requires
        tokens_ok(s, t),
    ensures
        spans(t, i, name_at(t, i)),
        name_at(t, i) matches Some((p, _)) ==> wf_name(s, p) && wf_value(s, p),
        spans(t, i, schema_identifier(t, i)),
        schema_identifier(t, i) matches Some((p, _)) ==> wf_name(s, p) && wf_value(s, p),
{
    lemma_leaf_value(s, t, i);
    if schema_head(t, i) {
        lemma_span(s, t, i, i + 3);
        lemma_tokens_ok(s, t, i, i);
        lemma_tokens_ok(s, t, i + 2, i + 2);
    }
}

proof fn lemma_dotted_tail(s: Seq<char>, t: Seq<Token>, i: int)
    requires
        tokens_ok(s, t),
        1 <= i,
    ensures
        i <= dotted_tail(t, i).1 <= t.len() || dotted_tail(t, i).1 == i,
        dotted_tail(t, i).0.len() == 0 <==> dotted_tail(t, i).1 == i,
        dotted_tail(t, i).1 > i ==> dotted_tail(t, i).1 <= t.len() && t[dotted_tail(t, i).1
            - 1].end == dotted_tail(t, i).0.last().end,
        forall|k: int|
            0 <= k < dotted_tail(t, i).0.len() ==> wf_ident(s, #[trigger] dotted_tail(t, i).0[k]),
    decreases t.len() - i,
{
    if sym_at(t, i, '.') && kind_at(t, i + 1, TokenKind::Ident) && crate::grammar::rules::glued(
        t,
        i - 1,
    ) && crate::grammar::rules::glued(t, i) {
        lemma_dotted_tail(s, t, i + 2);
        lemma_tokens_ok(s, t, i + 1, i + 1);
        let r = dotted_tail(t, i + 2);
        let x = seq![leaf(Rule::identifier, t[i + 1])] + r.0;
        assert forall|k: int| 0 <= k < x.len() implies wf_ident(s, #[trigger] x[k]) by {
            if k > 0 {
                assert(x[k] == r.0[k - 1]);
            }
        }
        if r.1 > i + 2 {
            assert(x.last() == r.0.last());
        }
    }
}


proof fn lemma_qualified(s: Seq<char>, t: Seq<Token>, i: int)
    requires
        tokens_ok(s, t),
        0 <= i,
    ensures
        spans(t, i, qualified_identifier(t, i)),
        qualified_identifier(t, i) matches Some((p, _)) ==> wf_value(s, p),
        spans(t, i, schema_qualified_identifier(t, i)),
        schema_qualified_identifier(t, i) matches Some((p, _)) ==> wf_value(s, p),
{
    if kind_at(t, i, TokenKind::Ident) {
        lemma_dotted_tail(s, t, i + 1);
        let r = dotted_tail(t, i + 1);
        if r.0.len() >= 1 {
            lemma_span(s, t, i, r.1);
            lemma_tokens_ok(s, t, i, i);
            let x = seq![leaf(Rule::identifier, t[i])] + r.0;
            assert forall|k: int| 0 <= k < x.len() implies wf_ident(s, #[trigger] x[k]) by {
                if k > 0 {
                    assert(x[k] == r.0[k - 1]);
                }
            }
        }
    }
    if schema_head(t, i) {
        lemma_dotted_tail(s, t, i + 3);
        let r = dotted_tail(t, i + 3);
        if r.0.len() >= 1 {
            lemma_span(s, t, i, r.1);
            lemma_tokens_ok(s, t, i, i);
            lemma_tokens_ok(s, t, i + 2, i + 2);
            let x = seq![leaf(Rule::string_literal, t[i]), leaf(Rule::identifier, t[i + 2])]
                + r.0;
            assert forall|k: int| 1 <= k < x.len() implies wf_ident(s, #[trigger] x[k]) by {
                if k > 1 {
                    assert(x[k] == r.0[k - 2]);
                }
            }
        }
    }
}

pub proof fn lemma_function_call(s: Seq<char>, t: Seq<Token>, i: int)
    requires
        tokens_ok(s, t),
        0 <= i,
    ensures
        spans(t, i, function_call(t, i)),
        function_call(t, i) matches Some((p, _)) ==> wf_value(s, p),
    decreases t.len() - i, 1nat,
{
    lemma_name(s, t, i);
    match name_at(t, i) {
        Some((n, j)) => if sym_at(t, j, '(') && i < j {
            lemma_argument_list(s, t, j + 1);
            let al = argument_list(t, j + 1);
            let k = next_or(al, j + 1);
            if sym_at(t, k, ')') {
                lemma_span(s, t, i, k + 1);
                let x = seq![n] + node_of(al);
                assert(x[0] == n);
                if al is Some {
                    assert(x[1] == al.unwrap().0);
                }
            }
        },
        None => {},
    }
}

pub proof fn lemma_list_literal(s: Seq<char>, t: Seq<Token>, i: int)
    requires
        tokens_ok(s, t),
        0 <= i,
    ensures
        spans(t, i, list_literal(t, i)),
        list_literal(t, i) matches Some((p, _)) ==> wf_value(s, p),
    decreases t.len() - i, 1nat,
{
    if sym_at(t, i, '[') {
        lemma_value_list(s, t, i + 1);
        let vl = value_list(t, i + 1);
        let k = next_or(vl, i + 1);
        if sym_at(t, k, ']') {
            lemma_span(s, t, i, k + 1);
            if vl is Some {
                assert(node_of(vl)[0] == vl.unwrap().0);
            }
        }
    }
}

pub proof fn lemma_value(s: Seq<char>, t: Seq<Token>, i: int)
    requires
        tokens_ok(s, t),
        0 <= i,
    ensures
        spans(t, i, value(t, i)),
        value(t, i) matches Some((p, _)) ==> wf_value(s, p),
    decreases t.len() - i, 2nat,
{
    lemma_function_call(s, t, i);
    lemma_list_literal(s, t, i);
    lemma_qualified(s, t, i);
    lemma_name(s, t, i);
    lemma_leaf_value(s, t, i);
}

proof fn lemma_values_tail(s: Seq<char>, t: Seq<Token>, i: int)
    requires
        tokens_ok(s, t),
        0 <= i <= t.len(),
    ensures
        i <= values_tail(t, i).1 <= t.len(),
        forall|k: int|
            0 <= k < values_tail(t, i).0.len() ==> wf_value(s, #[trigger] values_tail(t, i).0[k]),
    decreases t.len() - i, 3nat,
{
    if sym_at(t, i, ',') {
        lemma_value(s, t, i + 1);
        match value(t, i + 1) {
            Some((v, j)) => if i < j <= t.len() {
                lemma_values_tail(s, t, j);
                let r = values_tail(t, j);
                let x = seq![v] + r.0;
                assert forall|k: int| 0 <= k < x.len() implies wf_value(s, #[trigger] x[k]) by {
                    if k > 0 {
                        assert(x[k] == r.0[k - 1]);
                    }
                }
            },
            None => {},
        }
    }
}

pub proof fn lemma_value_list(s: Seq<char>, t: Seq<Token>, i: int)
    requires
        tokens_ok(s, t),
        0 <= i,
    ensures
        spans(t, i, value_list(t, i)),
        value_list(t, i) matches Some((p, _)) ==> wf_value_list(s, p),
    decreases t.len() - i, 3nat,
{
    lemma_value(s, t, i);
    match value(t, i) {
        Some((v, j)) => if i < j <= t.len() {
            lemma_values_tail(s, t, j);
            let r = values_tail(t, j);
            let e = skip_comma(t, r.1);
            lemma_span(s, t, i, e);
            let x = seq![v] + r.0;
            assert forall|k: int| 0 <= k < x.len() implies wf_value(s, #[trigger] x[k]) by {
                if k > 0 {
                    assert(x[k] == r.0[k - 1]);
                }
            }
        },
        None => {},
    }
}

proof fn lemma_named_argument(s: Seq<char>, t: Seq<Token>, i: int)
    requires
        tokens_ok(s, t),
        0 <= i,
    ensures
        spans(t, i, named_argument(t, i)),
        named_argument(t, i) matches Some((p, _)) ==> {
            &&& span_ok(s, p)
            &&& p.rule == Rule::named_argument
            &&& p.inner.len() == 2
            &&& wf_ident(s, p.inner[0])
            &&& wf_value(s, p.inner[1])
        },
    decreases t.len() - i, 3nat,
{
    if kind_at(t, i, TokenKind::Ident) && sym_at(t, i + 1, ':') {
        lemma_value(s, t, i + 2);
        lemma_tokens_ok(s, t, i, i);
        match value(t, i + 2) {
            Some((v, j)) => {
                lemma_span(s, t, i, j);
            },
            None => {},
        }
    }
}

proof fn lemma_positional_argument(s: Seq<char>, t: Seq<Token>, i: int)
    requires
        tokens_ok(s, t),
        0 <= i,
    ensures
        spans(t, i, positional_argument(t, i)),
        positional_argument(t, i) matches Some((p, _)) ==> {
            &&& span_ok(s, p)
            &&& p.rule == Rule::positional_argument
            &&& p.inner.len() == 1
            &&& wf_value(s, p.inner[0])
        },
    decreases t.len() - i, 3nat,
{
    lemma_value(s, t, i);
    match value(t, i) {
        Some((v, j)) => {
            lemma_span(s, t, i, j);
        },
        None => {},
    }
}

pub proof fn lemma_argument(s: Seq<char>, t: Seq<Token>, i: int)
    requires
        tokens_ok(s, t),
        0 <= i,
    ensures
        spans(t, i, argument(t, i)),
        argument(t, i) matches Some((p, _)) ==> wf_argument(s, p),
    decreases t.len() - i, 4nat,
{
    lemma_named_argument(s, t, i);
    lemma_positional_argument(s, t, i);
    match alt(named_argument(t, i), positional_argument(t, i)) {
        Some((a, j)) => {
            lemma_span(s, t, i, j);
        },
        None => {},
    }
}

proof fn lemma_arguments_tail(s: Seq<char>, t: Seq<Token>, i: int)
    requires
        tokens_ok(s, t),
        0 <= i <= t.len(),
    ensures
        i <= arguments_tail(t, i).1 <= t.len(),
        forall|k: int|
            0 <= k < arguments_tail(t, i).0.len() ==> wf_argument(
                s,
                #[trigger] arguments_tail(t, i).0[k],
            ),
    decreases t.len() - i, 5nat,
{
    if sym_at(t, i, ',') {
        lemma_argument(s, t, i + 1);
        match argument(t, i + 1) {
            Some((a, j)) => if i < j <= t.len() {
                lemma_arguments_tail(s, t, j);
                let r = arguments_tail(t, j);
                let x = seq![a] + r.0;
                assert forall|k: int| 0 <= k < x.len() implies wf_argument(s, #[trigger] x[k]) by {
                    if k > 0 {
                        assert(x[k] == r.0[k - 1]);
                    }
                }
            },
            None => {},
        }
    }
}

pub proof fn lemma_argument_list(s: Seq<char>, t: Seq<Token>, i: int)
    requires
        tokens_ok(s, t),
        0 <= i,
    ensures
        spans(t, i, argument_list(t, i)),
        argument_list(t, i) matches Some((p, _)) ==> wf_argument_list(s, p),
    decreases t.len() - i, 5nat,
{
    lemma_argument(s, t, i);
    match argument(t, i) {
        Some((a, j)) => if i < j <= t.len() {
            lemma_arguments_tail(s, t, j);
            let r = arguments_tail(t, j);
            let e = skip_comma(t, r.1);
            lemma_span(s, t, i, e);
            let x = seq![a] + r.0;
            assert forall|k: int| 0 <= k < x.len() implies wf_argument(s, #[trigger] x[k]) by {
                if k > 0 {
                    assert(x[k] == r.0[k - 1]);
                }
            }
        },
        None => {},
    }
}


/// The parentheses of an attribute, with an argument list or none.
pub open spec fn wf_attribute_args(s: Seq<char>, p: SpecPair) -> bool {
    &&& p.rule == Rule::attribute_args
    &&& span_ok(s, p)
    &&& p.inner.len() <= 1
    &&& p.inner.len() == 1 ==> wf_argument_list(s, p.inner[0])
}

/// A field attribute (`r` is `field_attribute`) or a block attribute.
pub open spec fn wf_attribute(s: Seq<char>, p: SpecPair, r: Rule) -> bool {
    &&& p.rule == r
    &&& span_ok(s, p)
    &&& 1 <= p.inner.len() <= 2
    &&& wf_ident(s, p.inner[0])
    &&& p.inner.len() == 2 ==> wf_attribute_args(s, p.inner[1])
}

/// The parentheses after a type name, with values or none.
pub open spec fn wf_type_params(s: Seq<char>, p: SpecPair) -> bool {
    &&& p.rule == Rule::type_params
    &&& span_ok(s, p)
    &&& p.inner.len() <= 1
    &&& p.inner.len() == 1 ==> wf_value_list(s, p.inner[0])
}

/// A type name, maybe with a schema, and maybe parameters.
pub open spec fn wf_field_type(s: Seq<char>, p: SpecPair) -> bool {
    &&& p.rule == Rule::field_type
    &&& span_ok(s, p)
    &&& 1 <= p.inner.len() <= 2
    &&& wf_name(s, p.inner[0])
    &&& p.inner.len() == 2 ==> wf_type_params(s, p.inner[1])
}

/// A field: its name, its type, then its attributes.
pub open spec fn wf_field(s: Seq<char>, p: SpecPair) -> bool {
    &&& p.rule == Rule::field
    &&& span_ok(s, p)
    &&& p.inner.len() >= 2
    &&& wf_ident(s, p.inner[0])
    &&& wf_field_type(s, p.inner[1])
    &&& forall|k: int|
        2 <= k < p.inner.len() ==> wf_attribute(s, #[trigger] p.inner[k], Rule::field_attribute)
}

/// A schema prefix covers exactly its string literal.
pub open spec fn wf_schema_prefix(s: Seq<char>, p: SpecPair) -> bool {
    &&& p.rule == Rule::schema_prefix
    &&& span_ok(s, p)
    &&& p.end - p.start >= 2
    &&& p.inner.len() == 1
    &&& wf_string(s, p.inner[0])
    &&& p.inner[0].start == p.start
    &&& p.inner[0].end == p.end
}

/// One value of an enum.
pub open spec fn wf_enum_value(s: Seq<char>, p: SpecPair) -> bool {
    &&& p.rule == Rule::enum_value
    &&& span_ok(s, p)
    &&& p.inner.len() == 1
    &&& wf_ident(s, p.inner[0])
}

/// One identifier or more.
pub open spec fn wf_identifier_list(s: Seq<char>, p: SpecPair) -> bool {
    &&& p.rule == Rule::identifier_list
    &&& span_ok(s, p)
    &&& p.inner.len() >= 1
    &&& forall|k: int| 0 <= k < p.inner.len() ==> wf_ident(s, #[trigger] p.inner[k])
}

/// `: templates`
pub open spec fn wf_template_usage(s: Seq<char>, p: SpecPair) -> bool {
    &&& p.rule == Rule::template_usage
    &&& span_ok(s, p)
    &&& p.inner.len() == 1
    &&& wf_identifier_list(s, p.inner[0])
}

/// One name or more, each maybe with a schema.
pub open spec fn wf_inheritance_list(s: Seq<char>, p: SpecPair) -> bool {
    &&& p.rule == Rule::inheritance_list
    &&& span_ok(s, p)
    &&& p.inner.len() >= 1
    &&& forall|k: int| 0 <= k < p.inner.len() ==> wf_name(s, #[trigger] p.inner[k])
}

/// `inherits (parents)`
pub open spec fn wf_inheritance_usage(s: Seq<char>, p: SpecPair) -> bool {
    &&& p.rule == Rule::inheritance_usage
    &&& span_ok(s, p)
    &&& p.inner.len() == 1
    &&& wf_inheritance_list(s, p.inner[0])
}

/// A child of an enum declaration.
pub open spec fn wf_enum_part(s: Seq<char>, q: SpecPair) -> bool {
    ||| wf_schema_prefix(s, q)
    ||| wf_ident(s, q)
    ||| wf_enum_value(s, q)
    ||| wf_attribute(s, q, Rule::block_attribute)
}

/// A child of a template declaration.
pub open spec fn wf_template_part(s: Seq<char>, q: SpecPair) -> bool {
    ||| wf_ident(s, q)
    ||| wf_field(s, q)
    ||| wf_attribute(s, q, Rule::block_attribute)
}

/// A child of an entity declaration.
pub open spec fn wf_entity_part(s: Seq<char>, q: SpecPair) -> bool {
    ||| wf_schema_prefix(s, q)
    ||| wf_ident(s, q)
    ||| wf_template_usage(s, q)
    ||| wf_inheritance_usage(s, q)
    ||| wf_field(s, q)
    ||| wf_attribute(s, q, Rule::block_attribute)
}

/// An enum declaration.
pub open spec fn wf_enum(s: Seq<char>, p: SpecPair) -> bool {
    &&& p.rule == Rule::enum_declaration
    &&& span_ok(s, p)
    &&& forall|k: int| 0 <= k < p.inner.len() ==> wf_enum_part(s, #[trigger] p.inner[k])
}

/// A template declaration.
pub open spec fn wf_template(s: Seq<char>, p: SpecPair) -> bool {
    &&& p.rule == Rule::template_declaration
    &&& span_ok(s, p)
    &&& forall|k: int| 0 <= k < p.inner.len() ==> wf_template_part(s, #[trigger] p.inner[k])
}

/// An entity declaration.
pub open spec fn wf_entity(s: Seq<char>, p: SpecPair) -> bool {
    &&& p.rule == Rule::entity_declaration
    &&& span_ok(s, p)
    &&& forall|k: int| 0 <= k < p.inner.len() ==> wf_entity_part(s, #[trigger] p.inner[k])
}

/// A declaration: one enum, template or entity.
pub open spec fn wf_declaration(s: Seq<char>, p: SpecPair) -> bool {
    &&& p.rule == Rule::declaration
    &&& span_ok(s, p)
    &&& p.inner.len() == 1
    &&& (wf_enum(s, p.inner[0]) || wf_template(s, p.inner[0]) || wf_entity(s, p.inner[0]))
}

/// `key: value`
pub open spec fn wf_config_entry(s: Seq<char>, p: SpecPair) -> bool {
    &&& p.rule == Rule::config_entry
    &&& span_ok(s, p)
    &&& p.inner.len() == 2
    &&& wf_ident(s, p.inner[0])
    &&& wf_value(s, p.inner[1])
}

/// A config block: its entries.
pub open spec fn wf_config(s: Seq<char>, p: SpecPair) -> bool {
    &&& p.rule == Rule::config
    &&& span_ok(s, p)
    &&& forall|k: int| 0 <= k < p.inner.len() ==> wf_config_entry(s, #[trigger] p.inner[k])
}

/// A file: a config block or declarations as its children.
pub open spec fn wf_file(s: Seq<char>, p: SpecPair) -> bool {
    &&& p.rule == Rule::file
    &&& span_ok(s, p)
    &&& forall|k: int|
        0 <= k < p.inner.len() ==> wf_config(s, #[trigger] p.inner[k]) || wf_declaration(
            s,
            p.inner[k],
        )
}

/// The shape of a node built by rule `r`.
pub open spec fn wf_rule(s: Seq<char>, r: Rule, p: SpecPair) -> bool {
    match r {
        Rule::file => wf_file(s, p),
        Rule::config => wf_config(s, p),
        Rule::config_entry => wf_config_entry(s, p),
        Rule::declaration => wf_declaration(s, p),
        Rule::enum_declaration => wf_enum(s, p),
        Rule::enum_value => wf_enum_value(s, p),
        Rule::template_declaration => wf_template(s, p),
        Rule::entity_declaration => wf_entity(s, p),
        Rule::schema_prefix => wf_schema_prefix(s, p),
        Rule::template_usage => wf_template_usage(s, p),
        Rule::identifier_list => wf_identifier_list(s, p),
        Rule::inheritance_usage => wf_inheritance_usage(s, p),
        Rule::inheritance_list => wf_inheritance_list(s, p),
        Rule::field => wf_field(s, p),
        Rule::field_type => wf_field_type(s, p),
        Rule::type_params => wf_type_params(s, p),
        Rule::field_attribute => wf_attribute(s, p, Rule::field_attribute),
        Rule::block_attribute => wf_attribute(s, p, Rule::block_attribute),
        Rule::attribute_args => wf_attribute_args(s, p),
        Rule::argument_list => wf_argument_list(s, p),
        Rule::argument => wf_argument(s, p),
        Rule::named_argument => p.rule == Rule::named_argument && span_ok(s, p) && p.inner.len()
            == 2 && wf_ident(s, p.inner[0]) && wf_value(s, p.inner[1]),
        Rule::positional_argument => p.rule == Rule::positional_argument && span_ok(s, p)
            && p.inner.len() == 1 && wf_value(s, p.inner[0]),
        Rule::value_list => wf_value_list(s, p),
        _ => wf_value(s, p) && p.rule == r || (r == Rule::value && wf_value(s, p)),
    }
}

proof fn lemma_attribute_from(s: Seq<char>, t: Seq<Token>, r: Rule, i: int, n: int)
    requires
        tokens_ok(s, t),
        0 <= i <= n < t.len(),
        kind_at(t, n, TokenKind::Ident),
    ensures
        wf_attribute(s, attribute_from(r, t, i, n).0, r),
        n < attribute_from(r, t, i, n).1 <= t.len(),
{
    lemma_tokens_ok(s, t, n, n);
    let a = glued_args(t, n + 1);
    if crate::grammar::rules::glued(t, n) {
        lemma_argument_list(s, t, n + 2);
        if sym_at(t, n + 1, '(') {
            let al = argument_list(t, n + 2);
            let k = next_or(al, n + 2);
            if sym_at(t, k, ')') {
                lemma_span(s, t, n + 1, k + 1);
                if al is Some {
                    assert(node_of(al)[0] == al.unwrap().0);
                }
            }
        }
    }
    let j = next_or(a, n + 1);
    lemma_span(s, t, i, j);
    let x = seq![leaf(Rule::identifier, t[n])] + node_of(a);
    assert(x[0] == leaf(Rule::identifier, t[n]));
    if a is Some {
        assert(x[1] == a.unwrap().0);
    }
}

pub proof fn lemma_attributes(s: Seq<char>, t: Seq<Token>, i: int)
    requires
        tokens_ok(s, t),
        0 <= i,
    ensures
        spans(t, i, field_attribute(t, i)),
        field_attribute(t, i) matches Some((p, _)) ==> wf_attribute(s, p, Rule::field_attribute),
        spans(t, i, block_attribute(t, i)),
        block_attribute(t, i) matches Some((p, _)) ==> wf_attribute(s, p, Rule::block_attribute),
{
    if sym_at(t, i, '@') && kind_at(t, i + 1, TokenKind::Ident) && crate::grammar::rules::glued(t, i) {
        lemma_attribute_from(s, t, Rule::field_attribute, i, i + 1);
    }
    if sym_at(t, i, '@') && sym_at(t, i + 1, '@') && kind_at(t, i + 2, TokenKind::Ident) {
        lemma_attribute_from(s, t, Rule::block_attribute, i, i + 2);
    }
}

proof fn lemma_field_attributes(s: Seq<char>, t: Seq<Token>, i: int)
    requires
        tokens_ok(s, t),
        0 <= i <= t.len(),
    ensures
        i <= field_attributes(t, i).1 <= t.len(),
        forall|k: int|
            0 <= k < field_attributes(t, i).0.len() ==> wf_attribute(
                s,
                #[trigger] field_attributes(t, i).0[k],
                Rule::field_attribute,
            ),
    decreases t.len() - i,
{
    lemma_attributes(s, t, i);
    match field_attribute(t, i) {
        Some((a, j)) => if i < j <= t.len() {
            lemma_field_attributes(s, t, j);
            let r = field_attributes(t, j);
            let x = seq![a] + r.0;
            assert forall|k: int| 0 <= k < x.len() implies wf_attribute(
                s,
                #[trigger] x[k],
                Rule::field_attribute,
            ) by {
                if k > 0 {
                    assert(x[k] == r.0[k - 1]);
                }
            }
        },
        None => {},
    }
}

pub proof fn lemma_field(s: Seq<char>, t: Seq<Token>, i: int)
    requires
        tokens_ok(s, t),
        0 <= i,
    ensures
        spans(t, i, field(t, i)),
        field(t, i) matches Some((p, _)) ==> wf_field(s, p),
{
    reveal(field);
    if kind_at(t, i, TokenKind::Ident) {
        lemma_tokens_ok(s, t, i, i);
        lemma_field_type(s, t, i + 1);
        match field_type(t, i + 1) {
            Some((ft, j)) => {
                lemma_field_attributes(s, t, j);
                let r = field_attributes(t, j);
                lemma_span(s, t, i, r.1);
                let x = seq![leaf(Rule::identifier, t[i]), ft] + r.0;
                assert(x[0] == leaf(Rule::identifier, t[i]));
                assert(x[1] == ft);
                assert forall|k: int| 2 <= k < x.len() implies wf_attribute(
                    s,
                    #[trigger] x[k],
                    Rule::field_attribute,
                ) by {
                    assert(x[k] == r.0[k - 2]);
                }
            },
            None => {},
        }
    }
}

pub proof fn lemma_field_type_params(s: Seq<char>, t: Seq<Token>, i: int)
    requires
        tokens_ok(s, t),
        0 <= i,
    ensures
        spans(t, i, type_params(t, i)),
        type_params(t, i) matches Some((p, _)) ==> wf_type_params(s, p),
{
    if sym_at(t, i, '(') {
        lemma_value_list(s, t, i + 1);
        let vl = value_list(t, i + 1);
        let k = next_or(vl, i + 1);
        if sym_at(t, k, ')') {
            lemma_span(s, t, i, k + 1);
            if vl is Some {
                assert(node_of(vl)[0] == vl.unwrap().0);
            }
        }
    }
}

pub proof fn lemma_field_type(s: Seq<char>, t: Seq<Token>, i: int)
    requires
        tokens_ok(s, t),
        0 <= i,
    ensures
        spans(t, i, field_type(t, i)),
        field_type(t, i) matches Some((p, _)) ==> wf_field_type(s, p),
{
    lemma_name(s, t, i);
    match name_at(t, i) {
        Some((n, j)) => {
            lemma_field_type_params(s, t, j);
            let tp = type_params(t, j);
            let k = next_or(tp, j);
            lemma_span(s, t, i, k);
            let x = seq![n] + node_of(tp);
            assert(x[0] == n);
            if tp is Some {
                assert(x[1] == tp.unwrap().0);
            }
        },
        None => {},
    }
}


proof fn lemma_members(s: Seq<char>, t: Seq<Token>, i: int)
    requires
        tokens_ok(s, t),
        0 <= i <= t.len(),
    ensures
        i <= members(t, i).1 <= t.len(),
        forall|k: int|
            0 <= k < members(t, i).0.len() ==> wf_template_part(s, #[trigger] members(t, i).0[k])
                && wf_entity_part(s, members(t, i).0[k]),
    decreases t.len() - i,
{
    lemma_attributes(s, t, i);
    lemma_field(s, t, i);
    match alt(block_attribute(t, i), field(t, i)) {
        Some((m, j)) => if i < j <= t.len() {
            lemma_members(s, t, j);
            let r = members(t, j);
            let x = seq![m] + r.0;
            assert forall|k: int| 0 <= k < x.len() implies wf_template_part(s, #[trigger] x[k])
                && wf_entity_part(s, x[k]) by {
                if k > 0 {
                    assert(x[k] == r.0[k - 1]);
                }
            }
        },
        None => {},
    }
}

proof fn lemma_enum_members(s: Seq<char>, t: Seq<Token>, i: int)
    requires
        tokens_ok(s, t),
        0 <= i <= t.len(),
    ensures
        i <= enum_members(t, i).1 <= t.len(),
        forall|k: int|
            0 <= k < enum_members(t, i).0.len() ==> wf_enum_part(
                s,
                #[trigger] enum_members(t, i).0[k],
            ),
    decreases t.len() - i,
{
    lemma_attributes(s, t, i);
    if kind_at(t, i, TokenKind::Ident) {
        lemma_span(s, t, i, i + 1);
        lemma_tokens_ok(s, t, i, i);
    }
    match alt(block_attribute(t, i), enum_value(t, i)) {
        Some((m, j)) => if i < j <= t.len() {
            lemma_enum_members(s, t, j);
            let r = enum_members(t, j);
            let x = seq![m] + r.0;
            assert forall|k: int| 0 <= k < x.len() implies wf_enum_part(s, #[trigger] x[k]) by {
                if k > 0 {
                    assert(x[k] == r.0[k - 1]);
                }
            }
        },
        None => {},
    }
}

proof fn lemma_schema_prefix(s: Seq<char>, t: Seq<Token>, i: int)
    requires
        tokens_ok(s, t),
        0 <= i,
    ensures
        spans(t, i, schema_prefix(t, i)),
        schema_prefix(t, i) matches Some((p, _)) ==> wf_schema_prefix(s, p),
{
    if kind_at(t, i, TokenKind::Str) {
        lemma_tokens_ok(s, t, i, i);
    }
}

proof fn lemma_enum_declaration(s: Seq<char>, t: Seq<Token>, i: int)
    requires
        tokens_ok(s, t),
        0 <= i,
    ensures
        spans(t, i, enum_declaration(s, t, i)),
        enum_declaration(s, t, i) matches Some((p, _)) ==> wf_enum(s, p),
{
    lemma_schema_prefix(s, t, i);
    let sp = schema_prefix(t, i);
    let j = next_or(sp, i);
    if word_at(s, t, j, "enum"@) && kind_at(t, j + 1, TokenKind::Ident) && sym_at(t, j + 2, '{') {
        lemma_tokens_ok(s, t, j + 1, j + 1);
        lemma_enum_members(s, t, j + 3);
        let r = enum_members(t, j + 3);
        if has_enum_value_ok(r.0) && sym_at(t, r.1, '}') {
            lemma_span(s, t, i, r.1 + 1);
            let x = node_of(sp) + seq![leaf(Rule::identifier, t[j + 1])] + r.0;
            let h = node_of(sp).len();
            assert forall|k: int| 0 <= k < x.len() implies wf_enum_part(s, #[trigger] x[k]) by {
                if k < h {
                    assert(x[k] == sp.unwrap().0);
                } else if k == h {
                    assert(x[k] == leaf(Rule::identifier, t[j + 1]));
                } else {
                    assert(x[k] == r.0[k - h - 1]);
                }
            }
        }
    }
}

proof fn lemma_template_declaration(s: Seq<char>, t: Seq<Token>, i: int)
    requires
        tokens_ok(s, t),
        0 <= i,
    ensures
        spans(t, i, template_declaration(s, t, i)),
        template_declaration(s, t, i) matches Some((p, _)) ==> wf_template(s, p),
{
    if word_at(s, t, i, "template"@) && kind_at(t, i + 1, TokenKind::Ident) && sym_at(t, i + 2, '{') {
        lemma_tokens_ok(s, t, i + 1, i + 1);
        lemma_members(s, t, i + 3);
        let r = members(t, i + 3);
        if sym_at(t, r.1, '}') {
            lemma_span(s, t, i, r.1 + 1);
            let x = seq![leaf(Rule::identifier, t[i + 1])] + r.0;
            assert forall|k: int| 0 <= k < x.len() implies wf_template_part(s, #[trigger] x[k]) by {
                if k > 0 {
                    assert(x[k] == r.0[k - 1]);
                }
            }
        }
    }
}

#[verifier::rlimit(40)]
proof fn lemma_entity_declaration(s: Seq<char>, t: Seq<Token>, i: int)
    requires
        tokens_ok(s, t),
        0 <= i,
    ensures
        spans(t, i, entity_declaration(s, t, i)),
        entity_declaration(s, t, i) matches Some((p, _)) ==> wf_entity(s, p),
{
    lemma_schema_prefix(s, t, i);
    let sp = schema_prefix(t, i);
    let j = next_or(sp, i);
    if word_at(s, t, j, "entity"@) && kind_at(t, j + 1, TokenKind::Ident) {
        lemma_tokens_ok(s, t, j + 1, j + 1);
        lemma_usages(s, t, j + 2);
        let tu = template_usage(t, j + 2);
        let k1 = next_or(tu, j + 2);
        lemma_usages(s, t, k1);
        let iu = inheritance_usage(s, t, k1);
        let k2 = next_or(iu, k1);
        if sym_at(t, k2, '{') {
            lemma_members(s, t, k2 + 1);
            let r = members(t, k2 + 1);
            if sym_at(t, r.1, '}') {
                lemma_span(s, t, i, r.1 + 1);
                let a = node_of(sp);
                let b = seq![leaf(Rule::identifier, t[j + 1])];
                let c = node_of(tu);
                let d = node_of(iu);
                let x = a + b + c + d + r.0;
                assert forall|k: int| 0 <= k < x.len() implies wf_entity_part(s, #[trigger] x[k]) by {
                    if k < a.len() {
                        assert(x[k] == sp.unwrap().0);
                    } else if k < a.len() + 1 {
                        assert(x[k] == b[0]);
                    } else if k < a.len() + 1 + c.len() {
                        assert(x[k] == tu.unwrap().0);
                    } else if k < a.len() + 1 + c.len() + d.len() {
                        assert(x[k] == iu.unwrap().0);
                    } else {
                        assert(x[k] == r.0[k - a.len() - 1 - c.len() - d.len()]);
                    }
                }
            }
        }
    }
}

pub proof fn lemma_declaration(s: Seq<char>, t: Seq<Token>, i: int)
    requires
        tokens_ok(s, t),
        0 <= i,
    ensures
        spans(t, i, enum_declaration(s, t, i)),
        enum_declaration(s, t, i) matches Some((p, _)) ==> wf_enum(s, p),
        spans(t, i, template_declaration(s, t, i)),
        template_declaration(s, t, i) matches Some((p, _)) ==> wf_template(s, p),
        spans(t, i, entity_declaration(s, t, i)),
        entity_declaration(s, t, i) matches Some((p, _)) ==> wf_entity(s, p),
        spans(t, i, declaration(s, t, i)),
        declaration(s, t, i) matches Some((p, _)) ==> wf_declaration(s, p),
{
    lemma_enum_declaration(s, t, i);
    lemma_template_declaration(s, t, i);
    lemma_entity_declaration(s, t, i);
    match alt(
        enum_declaration(s, t, i),
        alt(template_declaration(s, t, i), entity_declaration(s, t, i)),
    ) {
        Some((dd, jj)) => {
            lemma_span(s, t, i, jj);
        },
        None => {},
    }
}

spec fn has_enum_value_ok(items: Seq<SpecPair>) -> bool {
    crate::grammar::rules::has_enum_value(items)
}

proof fn lemma_identifiers_tail(s: Seq<char>, t: Seq<Token>, i: int)
    requires
        tokens_ok(s, t),
        0 <= i <= t.len(),
    ensures
        i <= identifiers_tail(t, i).1 <= t.len(),
        forall|k: int|
            0 <= k < identifiers_tail(t, i).0.len() ==> wf_ident(
                s,
                #[trigger] identifiers_tail(t, i).0[k],
            ),
    decreases t.len() - i,
{
    if sym_at(t, i, ',') && kind_at(t, i + 1, TokenKind::Ident) {
        lemma_tokens_ok(s, t, i + 1, i + 1);
        lemma_identifiers_tail(s, t, i + 2);
        let r = identifiers_tail(t, i + 2);
        let x = seq![leaf(Rule::identifier, t[i + 1])] + r.0;
        assert forall|k: int| 0 <= k < x.len() implies wf_ident(s, #[trigger] x[k]) by {
            if k > 0 {
                assert(x[k] == r.0[k - 1]);
            }
        }
    }
}

proof fn lemma_parents_tail(s: Seq<char>, t: Seq<Token>, i: int)
    requires
        tokens_ok(s, t),
        0 <= i <= t.len(),
    ensures
        i <= parents_tail(t, i).1 <= t.len(),
        forall|k: int|
            0 <= k < parents_tail(t, i).0.len() ==> wf_name(s, #[trigger] parents_tail(t, i).0[k]),
    decreases t.len() - i,
{
    if sym_at(t, i, ',') {
        lemma_name(s, t, i + 1);
        match name_at(t, i + 1) {
            Some((n, j)) => if i < j <= t.len() {
                lemma_parents_tail(s, t, j);
                let r = parents_tail(t, j);
                let x = seq![n] + r.0;
                assert forall|k: int| 0 <= k < x.len() implies wf_name(s, #[trigger] x[k]) by {
                    if k > 0 {
                        assert(x[k] == r.0[k - 1]);
                    }
                }
            },
            None => {},
        }
    }
}

pub proof fn lemma_usages(s: Seq<char>, t: Seq<Token>, i: int)
    requires
        tokens_ok(s, t),
        0 <= i,
    ensures
        spans(t, i, identifier_list(t, i)),
        identifier_list(t, i) matches Some((p, _)) ==> wf_identifier_list(s, p),
        spans(t, i, template_usage(t, i)),
        template_usage(t, i) matches Some((p, _)) ==> wf_template_usage(s, p),
        spans(t, i, inheritance_list(t, i)),
        inheritance_list(t, i) matches Some((p, _)) ==> wf_inheritance_list(s, p),
        spans(t, i, inheritance_usage(s, t, i)),
        inheritance_usage(s, t, i) matches Some((p, _)) ==> wf_inheritance_usage(s, p),
{
    lemma_identifier_list(s, t, i);
    lemma_identifier_list(s, t, i + 1);
    if sym_at(t, i, ':') {
        match identifier_list(t, i + 1) {
            Some((l, j)) => {
                lemma_span(s, t, i, j);
            },
            None => {},
        }
    }
    lemma_inheritance_list(s, t, i);
    lemma_inheritance_list(s, t, i + 2);
    if word_at(s, t, i, "inherits"@) && sym_at(t, i + 1, '(') {
        match inheritance_list(t, i + 2) {
            Some((l, j)) => if sym_at(t, j, ')') {
                lemma_span(s, t, i, j + 1);
            },
            None => {},
        }
    }
}

proof fn lemma_identifier_list(s: Seq<char>, t: Seq<Token>, i: int)
    requires
        tokens_ok(s, t),
        0 <= i,
    ensures
        spans(t, i, identifier_list(t, i)),
        identifier_list(t, i) matches Some((p, _)) ==> wf_identifier_list(s, p),
{
    if kind_at(t, i, TokenKind::Ident) {
        lemma_tokens_ok(s, t, i, i);
        lemma_identifiers_tail(s, t, i + 1);
        let r = identifiers_tail(t, i + 1);
        let e = skip_comma(t, r.1);
        lemma_span(s, t, i, e);
        let x = seq![leaf(Rule::identifier, t[i])] + r.0;
        assert forall|k: int| 0 <= k < x.len() implies wf_ident(s, #[trigger] x[k]) by {
            if k > 0 {
                assert(x[k] == r.0[k - 1]);
            }
        }
    }
}

proof fn lemma_inheritance_list(s: Seq<char>, t: Seq<Token>, i: int)
    requires
        tokens_ok(s, t),
        0 <= i,
    ensures
        spans(t, i, inheritance_list(t, i)),
        inheritance_list(t, i) matches Some((p, _)) ==> wf_inheritance_list(s, p),
{
    lemma_name(s, t, i);
    match name_at(t, i) {
        Some((n, j)) => if i < j <= t.len() {
            lemma_parents_tail(s, t, j);
            let r = parents_tail(t, j);
            let e = skip_comma(t, r.1);
            lemma_span(s, t, i, e);
            let x = seq![n] + r.0;
            assert forall|k: int| 0 <= k < x.len() implies wf_name(s, #[trigger] x[k]) by {
                if k > 0 {
                    assert(x[k] == r.0[k - 1]);
                }
            }
        },
        None => {},
    }
}

proof fn lemma_declarations(s: Seq<char>, t: Seq<Token>, i: int)
    requires
        tokens_ok(s, t),
        0 <= i <= t.len(),
    ensures
        i <= declarations(s, t, i).1 <= t.len(),
        forall|k: int|
            0 <= k < declarations(s, t, i).0.len() ==> wf_declaration(
                s,
                #[trigger] declarations(s, t, i).0[k],
            ),
    decreases t.len() - i,
{
    lemma_declaration(s, t, i);
    match declaration(s, t, i) {
        Some((d, j)) => if i < j <= t.len() {
            lemma_declarations(s, t, j);
            let r = declarations(s, t, j);
            let x = seq![d] + r.0;
            assert forall|k: int| 0 <= k < x.len() implies wf_declaration(s, #[trigger] x[k]) by {
                if k > 0 {
                    assert(x[k] == r.0[k - 1]);
                }
            }
        },
        None => {},
    }
}

pub proof fn lemma_config(s: Seq<char>, t: Seq<Token>, i: int)
    requires
        tokens_ok(s, t),
        0 <= i,
    ensures
        spans(t, i, config_entry(t, i)),
        config_entry(t, i) matches Some((p, _)) ==> wf_config_entry(s, p),
        spans(t, i, config(s, t, i)),
        config(s, t, i) matches Some((p, _)) ==> wf_config(s, p),
{
    lemma_config_entry(s, t, i);
    if word_at(s, t, i, "config"@) && sym_at(t, i + 1, '{') {
        lemma_config_entries(s, t, i + 2);
        let r = config_entries(t, i + 2);
        if sym_at(t, r.1, '}') {
            lemma_span(s, t, i, r.1 + 1);
        }
    }
}

proof fn lemma_config_entry(s: Seq<char>, t: Seq<Token>, i: int)
    requires
        tokens_ok(s, t),
        0 <= i,
    ensures
        spans(t, i, config_entry(t, i)),
        config_entry(t, i) matches Some((p, _)) ==> wf_config_entry(s, p),
{
    if kind_at(t, i, TokenKind::Ident) && sym_at(t, i + 1, ':') {
        lemma_tokens_ok(s, t, i, i);
        lemma_value(s, t, i + 2);
        match value(t, i + 2) {
            Some((v, j)) => {
                lemma_span(s, t, i, j);
            },
            None => {},
        }
    }
}

proof fn lemma_config_entries(s: Seq<char>, t: Seq<Token>, i: int)
    requires
        tokens_ok(s, t),
        0 <= i <= t.len(),
    ensures
        i <= config_entries(t, i).1 <= t.len(),
        forall|k: int|
            0 <= k < config_entries(t, i).0.len() ==> wf_config_entry(
                s,
                #[trigger] config_entries(t, i).0[k],
            ),
    decreases t.len() - i,
{
    lemma_config_entry(s, t, i);
    match config_entry(t, i) {
        Some((e, j)) => if i < j <= t.len() {
            lemma_config_entries(s, t, j);
            let r = config_entries(t, j);
            let x = seq![e] + r.0;
            assert forall|k: int| 0 <= k < x.len() implies wf_config_entry(s, #[trigger] x[k]) by {
                if k > 0 {
                    assert(x[k] == r.0[k - 1]);
                }
            }
        },
        None => {},
    }
}

pub proof fn lemma_file(s: Seq<char>, t: Seq<Token>)
    requires
        tokens_ok(s, t),
    ensures
        file_rule(s, t) matches Ok(p) ==> wf_file(s, p),
{
    reveal(file_rule);
    lemma_config(s, t, 0);
    let c = config(s, t, 0);
    let j = next_or(c, 0);
    lemma_declarations(s, t, j);
    let r = declarations(s, t, j);
    let x = node_of(c) + r.0;
    let h = node_of(c).len();
    assert forall|k: int| 0 <= k < x.len() implies wf_config(s, #[trigger] x[k]) || wf_declaration(
        s,
        x[k],
    ) by {
        if k < h {
            assert(x[k] == c.unwrap().0);
        } else {
            assert(x[k] == r.0[k - h]);
        }
    }
}

proof fn lemma_attribute_args(s: Seq<char>, t: Seq<Token>, i: int)
    requires
        tokens_ok(s, t),
        0 <= i,
    ensures
        attribute_args(t, i) matches Some((p, _)) ==> wf_attribute_args(s, p),
{
    if sym_at(t, i, '(') {
        lemma_argument_list(s, t, i + 1);
        let al = argument_list(t, i + 1);
        let k = next_or(al, i + 1);
        if sym_at(t, k, ')') {
            lemma_span(s, t, i, k + 1);
            if al is Some {
                assert(node_of(al)[0] == al.unwrap().0);
            }
        }
    }
}

proof fn lemma_enum_value(s: Seq<char>, t: Seq<Token>, i: int)
    requires
        tokens_ok(s, t),
        0 <= i,
    ensures
        enum_value(t, i) matches Some((p, _)) ==> wf_enum_value(s, p),
{
    if kind_at(t, i, TokenKind::Ident) {
        lemma_span(s, t, i, i + 1);
        lemma_tokens_ok(s, t, i, i);
    }
}

/// Every node the grammar builds for rule `r` has the shape of `r`.
pub proof fn lemma_rule_at(s: Seq<char>, t: Seq<Token>, r: Rule, i: int)
    requires
        tokens_ok(s, t),
        0 <= i,
    ensures
        rule_at(s, t, r, i) matches Some((p, _)) ==> wf_rule(s, r, p),
{
    reveal(rule_at);
    match r {
        Rule::file => lemma_file(s, t),
        Rule::config => lemma_config(s, t, i),
        Rule::config_entry => lemma_config(s, t, i),
        Rule::declaration => lemma_declaration(s, t, i),
        Rule::enum_declaration => lemma_declaration(s, t, i),
        Rule::enum_value => lemma_enum_value(s, t, i),
        Rule::template_declaration => lemma_declaration(s, t, i),
        Rule::entity_declaration => lemma_declaration(s, t, i),
        Rule::schema_prefix => lemma_schema_prefix(s, t, i),
        Rule::template_usage => lemma_usages(s, t, i),
        Rule::identifier_list => lemma_usages(s, t, i),
        Rule::inheritance_usage => lemma_usages(s, t, i),
        Rule::inheritance_list => lemma_usages(s, t, i),
        Rule::field => lemma_field(s, t, i),
        Rule::field_type => lemma_field_type(s, t, i),
        Rule::type_params => lemma_field_type_params(s, t, i),
        Rule::field_attribute => lemma_attributes(s, t, i),
        Rule::block_attribute => lemma_attributes(s, t, i),
        Rule::attribute_args => lemma_attribute_args(s, t, i),
        Rule::argument_list => lemma_argument_list(s, t, i),
        Rule::argument => lemma_argument(s, t, i),
        Rule::named_argument => lemma_named_argument(s, t, i),
        Rule::positional_argument => lemma_positional_argument(s, t, i),
        Rule::value => lemma_value(s, t, i),
        Rule::value_list => lemma_value_list(s, t, i),
        Rule::list_literal => lemma_list_literal(s, t, i),
        Rule::function_call => lemma_function_call(s, t, i),
        Rule::schema_qualified_identifier => lemma_qualified(s, t, i),
        Rule::schema_identifier => lemma_name(s, t, i),
        Rule::qualified_identifier => lemma_qualified(s, t, i),
        Rule::identifier => lemma_leaf_value(s, t, i),
        Rule::string_literal => lemma_leaf_value(s, t, i),
        Rule::integer_literal => lemma_leaf_value(s, t, i),
        Rule::float_literal => lemma_leaf_value(s, t, i),
    }
}

/// Whatever reading with rule `r` yields has the shape of `r`.
pub proof fn lemma_parse_wf(s: Seq<char>, r: Rule)
    requires
        s.len() <= usize::MAX,
    ensures
        parse_spec(s, r) matches Ok(p) ==> wf_rule(s, r, p),
{
    lemma_lex_from_ok(s, 0);
    match lex_spec(s) {
        Ok(t) => {
            lemma_file(s, t);
            lemma_rule_at(s, t, r, 0);
        },
        Err(_) => {},
    }
}

} // verus!
