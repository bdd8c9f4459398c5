//! The grammar of Conk as ordered-choice rules over tokens.
//!
//! Each rule, tried at token index `i`, either fails (`None`) or yields the node
//! it built and the index of the first token it did not consume. Alternatives are
//! tried in order and the first that succeeds wins; repetitions are greedy.
use vstd::prelude::*;
use crate::grammar::lexer::{lex_spec, Token, TokenKind};
use crate::grammar::tree::{Rule, SpecPair};

verus! {

pub open spec fn kind_at(t: Seq<Token>, i: int, k: TokenKind) -> bool {
    0 <= i < t.len() && t[i].kind == k
}

pub open spec fn sym_at(t: Seq<Token>, i: int, c: char) -> bool {
    kind_at(t, i, TokenKind::Sym(c))
}

/// Tokens `i` and `i + 1` touch: no whitespace stands between them.
pub open spec fn glued(t: Seq<Token>, i: int) -> bool {
    0 <= i && i + 1 < t.len() && t[i].end == t[i + 1].start
}

/// Token `i` is the identifier `w`.
pub open spec fn word_at(s: Seq<char>, t: Seq<Token>, i: int, w: Seq<char>) -> bool {
    kind_at(t, i, TokenKind::Ident) && s.subrange(t[i].start as int, t[i].end as int) == w
}

pub open spec fn leaf(r: Rule, tok: Token) -> SpecPair {
    SpecPair { rule: r, start: tok.start as int, end: tok.end as int, inner: Seq::empty() }
}

/// A node for rule `r` covering tokens `i..j`.
pub open spec fn spanned(r: Rule, t: Seq<Token>, i: int, j: int, inner: Seq<SpecPair>) -> SpecPair {
    SpecPair { rule: r, start: t[i].start as int, end: t[j - 1].end as int, inner }
}

pub open spec fn alt(a: Option<(SpecPair, int)>, b: Option<(SpecPair, int)>) -> Option<(SpecPair, int)> {
    if a is Some { a } else { b }
}

pub open spec fn node_of(o: Option<(SpecPair, int)>) -> Seq<SpecPair> {
    match o {
        Some((p, _)) => seq![p],
        None => Seq::empty(),
    }
}

pub open spec fn next_or(o: Option<(SpecPair, int)>, i: int) -> int {
    match o {
        Some((_, j)) => j,
        None => i,
    }
}

/// A trailing comma at `i` is consumed.
pub open spec fn skip_comma(t: Seq<Token>, i: int) -> int {
    if sym_at(t, i, ',') { i + 1 } else { i }
}

pub open spec fn token_rule(t: Seq<Token>, i: int, k: TokenKind, r: Rule) -> Option<(SpecPair, int)> {
    if kind_at(t, i, k) { Some((leaf(r, t[i]), i + 1)) } else { None }
}

pub open spec fn identifier(t: Seq<Token>, i: int) -> Option<(SpecPair, int)> {
    token_rule(t, i, TokenKind::Ident, Rule::identifier)
}

pub open spec fn string_literal(t: Seq<Token>, i: int) -> Option<(SpecPair, int)> {
    token_rule(t, i, TokenKind::Str, Rule::string_literal)
}

pub open spec fn integer_literal(t: Seq<Token>, i: int) -> Option<(SpecPair, int)> {
    token_rule(t, i, TokenKind::Int, Rule::integer_literal)
}

pub open spec fn float_literal(t: Seq<Token>, i: int) -> Option<(SpecPair, int)> {
    token_rule(t, i, TokenKind::Float, Rule::float_literal)
}

/// `"schema".name`, with nothing between the three tokens.
pub open spec fn schema_head(t: Seq<Token>, i: int) -> bool {
    kind_at(t, i, TokenKind::Str) && sym_at(t, i + 1, '.') && kind_at(t, i + 2, TokenKind::Ident)
        && glued(t, i) && glued(t, i + 1)
}

pub open spec fn schema_identifier(t: Seq<Token>, i: int) -> Option<(SpecPair, int)> {
    if schema_head(t, i) {
        Some(
            (
                spanned(
                    Rule::schema_identifier,
                    t,
                    i,
                    i + 3,
                    seq![leaf(Rule::string_literal, t[i]), leaf(Rule::identifier, t[i + 2])],
                ),
                i + 3,
            ),
        )
    } else {
        None
    }
}

/// The `.name` parts that follow token `i - 1` with nothing in between.
pub open spec fn dotted_tail(t: Seq<Token>, i: int) -> (Seq<SpecPair>, int)
    decreases t.len() - i,
{
    if sym_at(t, i, '.') && kind_at(t, i + 1, TokenKind::Ident) && glued(t, i - 1) && glued(t, i) {
        let r = dotted_tail(t, i + 2);
        (seq![leaf(Rule::identifier, t[i + 1])] + r.0, r.1)
    } else {
        (Seq::empty(), i)
    }
}

pub open spec fn qualified_identifier(t: Seq<Token>, i: int) -> Option<(SpecPair, int)> {
    if kind_at(t, i, TokenKind::Ident) {
        let r = dotted_tail(t, i + 1);
        if r.0.len() >= 1 {
            Some(
                (
                    spanned(
                        Rule::qualified_identifier,
                        t,
                        i,
                        r.1,
                        seq![leaf(Rule::identifier, t[i])] + r.0,
                    ),
                    r.1,
                ),
            )
        } else {
            None
        }
    } else {
        None
    }
}

pub open spec fn schema_qualified_identifier(t: Seq<Token>, i: int) -> Option<(SpecPair, int)> {
    if schema_head(t, i) {
        let r = dotted_tail(t, i + 3);
        if r.0.len() >= 1 {
            Some(
                (
                    spanned(
                        Rule::schema_qualified_identifier,
                        t,
                        i,
                        r.1,
                        seq![leaf(Rule::string_literal, t[i]), leaf(Rule::identifier, t[i + 2])]
                            + r.0,
                    ),
                    r.1,
                ),
            )
        } else {
            None
        }
    } else {
        None
    }
}

/// A name that may carry a schema: `"schema".name` or `name`.
pub open spec fn name_at(t: Seq<Token>, i: int) -> Option<(SpecPair, int)> {
    alt(schema_identifier(t, i), identifier(t, i))
}

pub open spec fn function_call(t: Seq<Token>, i: int) -> Option<(SpecPair, int)>
    decreases t.len() - i, 1nat,
{
    match name_at(t, i) {
        Some((n, j)) => if sym_at(t, j, '(') && i < j {
            let al = argument_list(t, j + 1);
            let k = next_or(al, j + 1);
            if sym_at(t, k, ')') {
                Some((spanned(Rule::function_call, t, i, k + 1, seq![n] + node_of(al)), k + 1))
            } else {
                None
            }
        } else {
            None
        },
        None => None,
    }
}

pub open spec fn list_literal(t: Seq<Token>, i: int) -> Option<(SpecPair, int)>
    decreases t.len() - i, 1nat,
{
    if sym_at(t, i, '[') {
        let vl = value_list(t, i + 1);
        let k = next_or(vl, i + 1);
        if sym_at(t, k, ']') {
            Some((spanned(Rule::list_literal, t, i, k + 1, node_of(vl)), k + 1))
        } else {
            None
        }
    } else {
        None
    }
}

/// A value: the first of these alternatives that matches.
pub open spec fn value(t: Seq<Token>, i: int) -> Option<(SpecPair, int)>
    decreases t.len() - i, 2nat,
{
    alt(
        function_call(t, i),
        alt(
            schema_qualified_identifier(t, i),
            alt(
                schema_identifier(t, i),
                alt(
                    qualified_identifier(t, i),
                    alt(
                        float_literal(t, i),
                        alt(
                            integer_literal(t, i),
                            alt(string_literal(t, i), alt(list_literal(t, i), identifier(t, i))),
                        ),
                    ),
                ),
            ),
        ),
    )
}

/// The `, value` parts of a value list.
pub open spec fn values_tail(t: Seq<Token>, i: int) -> (Seq<SpecPair>, int)
    decreases t.len() - i, 3nat,
{
    if sym_at(t, i, ',') {
        match value(t, i + 1) {
            Some((v, j)) => if i < j <= t.len() {
                let r = values_tail(t, j);
                (seq![v] + r.0, r.1)
            } else {
                (Seq::empty(), i)
            },
            None => (Seq::empty(), i),
        }
    } else {
        (Seq::empty(), i)
    }
}

/// `value (, value)* ,?`
pub open spec fn value_list(t: Seq<Token>, i: int) -> Option<(SpecPair, int)>
    decreases t.len() - i, 3nat,
{
    match value(t, i) {
        Some((v, j)) => if i < j <= t.len() {
            let r = values_tail(t, j);
            let e = skip_comma(t, r.1);
            Some((spanned(Rule::value_list, t, i, e, seq![v] + r.0), e))
        } else {
            None
        },
        None => None,
    }
}

/// `name : value`
pub open spec fn named_argument(t: Seq<Token>, i: int) -> Option<(SpecPair, int)>
    decreases t.len() - i, 3nat,
{
    if kind_at(t, i, TokenKind::Ident) && sym_at(t, i + 1, ':') {
        match value(t, i + 2) {
            Some((v, j)) => Some(
                (
                    spanned(Rule::named_argument, t, i, j, seq![leaf(Rule::identifier, t[i]), v]),
                    j,
                ),
            ),
            None => None,
        }
    } else {
        None
    }
}

pub open spec fn positional_argument(t: Seq<Token>, i: int) -> Option<(SpecPair, int)>
    decreases t.len() - i, 3nat,
{
    match value(t, i) {
        Some((v, j)) => Some((spanned(Rule::positional_argument, t, i, j, seq![v]), j)),
        None => None,
    }
}

pub open spec fn argument(t: Seq<Token>, i: int) -> Option<(SpecPair, int)>
    decreases t.len() - i, 4nat,
{
    match alt(named_argument(t, i), positional_argument(t, i)) {
        Some((a, j)) => Some((spanned(Rule::argument, t, i, j, seq![a]), j)),
        None => None,
    }
}

/// The `, argument` parts of an argument list.
pub open spec fn arguments_tail(t: Seq<Token>, i: int) -> (Seq<SpecPair>, int)
    decreases t.len() - i, 5nat,
{
    if sym_at(t, i, ',') {
        match argument(t, i + 1) {
            Some((a, j)) => if i < j <= t.len() {
                let r = arguments_tail(t, j);
                (seq![a] + r.0, r.1)
            } else {
                (Seq::empty(), i)
            },
            None => (Seq::empty(), i),
        }
    } else {
        (Seq::empty(), i)
    }
}

/// `argument (, argument)* ,?`
pub open spec fn argument_list(t: Seq<Token>, i: int) -> Option<(SpecPair, int)>
    decreases t.len() - i, 5nat,
{
    match argument(t, i) {
        Some((a, j)) => if i < j <= t.len() {
            let r = arguments_tail(t, j);
            let e = skip_comma(t, r.1);
            Some((spanned(Rule::argument_list, t, i, e, seq![a] + r.0), e))
        } else {
            None
        },
        None => None,
    }
}


/// `( argument_list? )`
pub open spec fn attribute_args(t: Seq<Token>, i: int) -> Option<(SpecPair, int)> {
    if sym_at(t, i, '(') {
        let al = argument_list(t, i + 1);
        let k = next_or(al, i + 1);
        if sym_at(t, k, ')') {
            Some((spanned(Rule::attribute_args, t, i, k + 1, node_of(al)), k + 1))
        } else {
            None
        }
    } else {
        None
    }
}

/// Arguments written right after token `i - 1`.
pub open spec fn glued_args(t: Seq<Token>, i: int) -> Option<(SpecPair, int)> {
    if glued(t, i - 1) { attribute_args(t, i) } else { None }
}

/// An attribute whose name is token `n` and whose first token is `i`.
pub open spec fn attribute_from(r: Rule, t: Seq<Token>, i: int, n: int) -> (SpecPair, int) {
    let a = glued_args(t, n + 1);
    let j = next_or(a, n + 1);
    (spanned(r, t, i, j, seq![leaf(Rule::identifier, t[n])] + node_of(a)), j)
}

/// `@name` or `@name(arguments)`, written without spaces.
pub open spec fn field_attribute(t: Seq<Token>, i: int) -> Option<(SpecPair, int)> {
    if sym_at(t, i, '@') && kind_at(t, i + 1, TokenKind::Ident) && glued(t, i) {
        Some(attribute_from(Rule::field_attribute, t, i, i + 1))
    } else {
        None
    }
}

/// `@@name` or `@@name(arguments)`, written without spaces.
pub open spec fn block_attribute(t: Seq<Token>, i: int) -> Option<(SpecPair, int)> {
    if sym_at(t, i, '@') && sym_at(t, i + 1, '@') && kind_at(t, i + 2, TokenKind::Ident) && glued(
        t,
        i,
    ) && glued(t, i + 1) {
        Some(attribute_from(Rule::block_attribute, t, i, i + 2))
    } else {
        None
    }
}

/// `( value_list? )`
pub open spec fn type_params(t: Seq<Token>, i: int) -> Option<(SpecPair, int)> {
    if sym_at(t, i, '(') {
        let vl = value_list(t, i + 1);
        let k = next_or(vl, i + 1);
        if sym_at(t, k, ')') {
            Some((spanned(Rule::type_params, t, i, k + 1, node_of(vl)), k + 1))
        } else {
            None
        }
    } else {
        None
    }
}

/// A type name with optional parameters.
pub open spec fn field_type(t: Seq<Token>, i: int) -> Option<(SpecPair, int)> {
    match name_at(t, i) {
        Some((n, j)) => {
            let tp = type_params(t, j);
            let k = next_or(tp, j);
            Some((spanned(Rule::field_type, t, i, k, seq![n] + node_of(tp)), k))
        },
        None => None,
    }
}

pub open spec fn field_attributes(t: Seq<Token>, i: int) -> (Seq<SpecPair>, int)
    decreases t.len() - i,
{
    match field_attribute(t, i) {
        Some((a, j)) => if i < j <= t.len() {
            let r = field_attributes(t, j);
            (seq![a] + r.0, r.1)
        } else {
            (Seq::empty(), i)
        },
        None => (Seq::empty(), i),
    }
}

/// `name type attribute*`
#[verifier::opaque]
pub open spec fn field(t: Seq<Token>, i: int) -> Option<(SpecPair, int)> {
    if kind_at(t, i, TokenKind::Ident) {
        match field_type(t, i + 1) {
            Some((ft, j)) => {
                let r = field_attributes(t, j);
                Some(
                    (
                        spanned(
                            Rule::field,
                            t,
                            i,
                            r.1,
                            seq![leaf(Rule::identifier, t[i]), ft] + r.0,
                        ),
                        r.1,
                    ),
                )
            },
            None => None,
        }
    } else {
        None
    }
}

/// The body of a template or an entity: block attributes and fields, in any order.
pub open spec fn members(t: Seq<Token>, i: int) -> (Seq<SpecPair>, int)
    decreases t.len() - i,
{
    match alt(block_attribute(t, i), field(t, i)) {
        Some((m, j)) => if i < j <= t.len() {
            let r = members(t, j);
            (seq![m] + r.0, r.1)
        } else {
            (Seq::empty(), i)
        },
        None => (Seq::empty(), i),
    }
}

pub open spec fn enum_value(t: Seq<Token>, i: int) -> Option<(SpecPair, int)> {
    if kind_at(t, i, TokenKind::Ident) {
        Some((spanned(Rule::enum_value, t, i, i + 1, seq![leaf(Rule::identifier, t[i])]), i + 1))
    } else {
        None
    }
}

/// The body of an enum: block attributes and values, in any order.
pub open spec fn enum_members(t: Seq<Token>, i: int) -> (Seq<SpecPair>, int)
    decreases t.len() - i,
{
    match alt(block_attribute(t, i), enum_value(t, i)) {
        Some((m, j)) => if i < j <= t.len() {
            let r = enum_members(t, j);
            (seq![m] + r.0, r.1)
        } else {
            (Seq::empty(), i)
        },
        None => (Seq::empty(), i),
    }
}

pub open spec fn has_enum_value(items: Seq<SpecPair>) -> bool {
    exists|k: int| 0 <= k < items.len() && (#[trigger] items[k]).rule == Rule::enum_value
}

/// A schema name in front of a declaration: `"schema"`.
pub open spec fn schema_prefix(t: Seq<Token>, i: int) -> Option<(SpecPair, int)> {
    if kind_at(t, i, TokenKind::Str) {
        Some(
            (
                spanned(Rule::schema_prefix, t, i, i + 1, seq![leaf(Rule::string_literal, t[i])]),
                i + 1,
            ),
        )
    } else {
        None
    }
}

/// `"schema"? enum Name { ... }` with at least one value.
pub open spec fn enum_declaration(s: Seq<char>, t: Seq<Token>, i: int) -> Option<(SpecPair, int)> {
    let sp = schema_prefix(t, i);
    let j = next_or(sp, i);
    if word_at(s, t, j, "enum"@) && kind_at(t, j + 1, TokenKind::Ident) && sym_at(t, j + 2, '{') {
        let r = enum_members(t, j + 3);
        if has_enum_value(r.0) && sym_at(t, r.1, '}') {
            Some(
                (
                    spanned(
                        Rule::enum_declaration,
                        t,
                        i,
                        r.1 + 1,
                        node_of(sp) + seq![leaf(Rule::identifier, t[j + 1])] + r.0,
                    ),
                    r.1 + 1,
                ),
            )
        } else {
            None
        }
    } else {
        None
    }
}

/// `template Name { ... }`
pub open spec fn template_declaration(s: Seq<char>, t: Seq<Token>, i: int) -> Option<
    (SpecPair, int),
> {
    if word_at(s, t, i, "template"@) && kind_at(t, i + 1, TokenKind::Ident) && sym_at(t, i + 2, '{') {
        let r = members(t, i + 3);
        if sym_at(t, r.1, '}') {
            Some(
                (
                    spanned(
                        Rule::template_declaration,
                        t,
                        i,
                        r.1 + 1,
                        seq![leaf(Rule::identifier, t[i + 1])] + r.0,
                    ),
                    r.1 + 1,
                ),
            )
        } else {
            None
        }
    } else {
        None
    }
}

/// The `, name` parts of an identifier list.
pub open spec fn identifiers_tail(t: Seq<Token>, i: int) -> (Seq<SpecPair>, int)
    decreases t.len() - i,
{
    if sym_at(t, i, ',') && kind_at(t, i + 1, TokenKind::Ident) {
        let r = identifiers_tail(t, i + 2);
        (seq![leaf(Rule::identifier, t[i + 1])] + r.0, r.1)
    } else {
        (Seq::empty(), i)
    }
}

/// `name (, name)* ,?`
pub open spec fn identifier_list(t: Seq<Token>, i: int) -> Option<(SpecPair, int)> {
    if kind_at(t, i, TokenKind::Ident) {
        let r = identifiers_tail(t, i + 1);
        let e = skip_comma(t, r.1);
        Some(
            (
                spanned(Rule::identifier_list, t, i, e, seq![leaf(Rule::identifier, t[i])] + r.0),
                e,
            ),
        )
    } else {
        None
    }
}

/// `: identifier_list`
pub open spec fn template_usage(t: Seq<Token>, i: int) -> Option<(SpecPair, int)> {
    if sym_at(t, i, ':') {
        match identifier_list(t, i + 1) {
            Some((l, j)) => Some((spanned(Rule::template_usage, t, i, j, seq![l]), j)),
            None => None,
        }
    } else {
        None
    }
}

/// The `, name` parts of an inheritance list; names may carry a schema.
pub open spec fn parents_tail(t: Seq<Token>, i: int) -> (Seq<SpecPair>, int)
    decreases t.len() - i,
{
    if sym_at(t, i, ',') {
        match name_at(t, i + 1) {
            Some((n, j)) => if i < j <= t.len() {
                let r = parents_tail(t, j);
                (seq![n] + r.0, r.1)
            } else {
                (Seq::empty(), i)
            },
            None => (Seq::empty(), i),
        }
    } else {
        (Seq::empty(), i)
    }
}

/// `name (, name)* ,?` where names may carry a schema.
pub open spec fn inheritance_list(t: Seq<Token>, i: int) -> Option<(SpecPair, int)> {
    match name_at(t, i) {
        Some((n, j)) => if i < j <= t.len() {
            let r = parents_tail(t, j);
            let e = skip_comma(t, r.1);
            Some((spanned(Rule::inheritance_list, t, i, e, seq![n] + r.0), e))
        } else {
            None
        },
        None => None,
    }
}

/// `inherits ( inheritance_list )`
pub open spec fn inheritance_usage(s: Seq<char>, t: Seq<Token>, i: int) -> Option<(SpecPair, int)> {
    if word_at(s, t, i, "inherits"@) && sym_at(t, i + 1, '(') {
        match inheritance_list(t, i + 2) {
            Some((l, j)) => if sym_at(t, j, ')') {
                Some((spanned(Rule::inheritance_usage, t, i, j + 1, seq![l]), j + 1))
            } else {
                None
            },
            None => None,
        }
    } else {
        None
    }
}

/// `"schema"? entity Name (: templates)? (inherits (parents))? { ... }`
pub open spec fn entity_declaration(s: Seq<char>, t: Seq<Token>, i: int) -> Option<(SpecPair, int)> {
    let sp = schema_prefix(t, i);
    let j = next_or(sp, i);
    if word_at(s, t, j, "entity"@) && kind_at(t, j + 1, TokenKind::Ident) {
        let tu = template_usage(t, j + 2);
        let k1 = next_or(tu, j + 2);
        let iu = inheritance_usage(s, t, k1);
        let k2 = next_or(iu, k1);
        if sym_at(t, k2, '{') {
            let r = members(t, k2 + 1);
            if sym_at(t, r.1, '}') {
                Some(
                    (
                        spanned(
                            Rule::entity_declaration,
                            t,
                            i,
                            r.1 + 1,
                            node_of(sp) + seq![leaf(Rule::identifier, t[j + 1])] + node_of(tu)
                                + node_of(iu) + r.0,
                        ),
                        r.1 + 1,
                    ),
                )
            } else {
                None
            }
        } else {
            None
        }
    } else {
        None
    }
}

pub open spec fn declaration(s: Seq<char>, t: Seq<Token>, i: int) -> Option<(SpecPair, int)> {
    match alt(
        enum_declaration(s, t, i),
        alt(template_declaration(s, t, i), entity_declaration(s, t, i)),
    ) {
        Some((d, j)) => Some((spanned(Rule::declaration, t, i, j, seq![d]), j)),
        None => None,
    }
}

pub open spec fn declarations(s: Seq<char>, t: Seq<Token>, i: int) -> (Seq<SpecPair>, int)
    decreases t.len() - i,
{
    match declaration(s, t, i) {
        Some((d, j)) => if i < j <= t.len() {
            let r = declarations(s, t, j);
            (seq![d] + r.0, r.1)
        } else {
            (Seq::empty(), i)
        },
        None => (Seq::empty(), i),
    }
}

/// `key : value`
pub open spec fn config_entry(t: Seq<Token>, i: int) -> Option<(SpecPair, int)> {
    if kind_at(t, i, TokenKind::Ident) && sym_at(t, i + 1, ':') {
        match value(t, i + 2) {
            Some((v, j)) => Some(
                (spanned(Rule::config_entry, t, i, j, seq![leaf(Rule::identifier, t[i]), v]), j),
            ),
            None => None,
        }
    } else {
        None
    }
}

pub open spec fn config_entries(t: Seq<Token>, i: int) -> (Seq<SpecPair>, int)
    decreases t.len() - i,
{
    match config_entry(t, i) {
        Some((e, j)) => if i < j <= t.len() {
            let r = config_entries(t, j);
            (seq![e] + r.0, r.1)
        } else {
            (Seq::empty(), i)
        },
        None => (Seq::empty(), i),
    }
}

/// `config { entry* }`
pub open spec fn config(s: Seq<char>, t: Seq<Token>, i: int) -> Option<(SpecPair, int)> {
    if word_at(s, t, i, "config"@) && sym_at(t, i + 1, '{') {
        let r = config_entries(t, i + 2);
        if sym_at(t, r.1, '}') {
            Some((spanned(Rule::config, t, i, r.1 + 1, r.0), r.1 + 1))
        } else {
            None
        }
    } else {
        None
    }
}

/// A whole file: an optional config block, then declarations, then the end of
/// the input. `Err(k)` when token `k` is where reading had to stop.
#[verifier::opaque]
pub open spec fn file_rule(s: Seq<char>, t: Seq<Token>) -> Result<SpecPair, int> {
    let c = config(s, t, 0);
    let r = declarations(s, t, next_or(c, 0));
    if r.1 == t.len() {
        Ok(SpecPair { rule: Rule::file, start: 0, end: s.len() as int, inner: node_of(c) + r.0 })
    } else {
        Err(r.1)
    }
}

/// The rule `r` tried at token `i`. The rule `value` is a choice and yields the
/// node of the alternative that matched.
#[verifier::opaque]
pub open spec fn rule_at(s: Seq<char>, t: Seq<Token>, r: Rule, i: int) -> Option<(SpecPair, int)> {
    match r {
        Rule::file => match file_rule(s, t) {
            Ok(p) => Some((p, t.len() as int)),
            Err(_) => None,
        },
        Rule::config => config(s, t, i),
        Rule::config_entry => config_entry(t, i),
        Rule::declaration => declaration(s, t, i),
        Rule::enum_declaration => enum_declaration(s, t, i),
        Rule::enum_value => enum_value(t, i),
        Rule::template_declaration => template_declaration(s, t, i),
        Rule::entity_declaration => entity_declaration(s, t, i),
        Rule::schema_prefix => schema_prefix(t, i),
        Rule::template_usage => template_usage(t, i),
        Rule::identifier_list => identifier_list(t, i),
        Rule::inheritance_usage => inheritance_usage(s, t, i),
        Rule::inheritance_list => inheritance_list(t, i),
        Rule::field => field(t, i),
        Rule::field_type => field_type(t, i),
        Rule::type_params => type_params(t, i),
        Rule::field_attribute => field_attribute(t, i),
        Rule::block_attribute => block_attribute(t, i),
        Rule::attribute_args => attribute_args(t, i),
        Rule::argument_list => argument_list(t, i),
        Rule::argument => argument(t, i),
        Rule::named_argument => named_argument(t, i),
        Rule::positional_argument => positional_argument(t, i),
        Rule::value => value(t, i),
        Rule::value_list => value_list(t, i),
        Rule::list_literal => list_literal(t, i),
        Rule::function_call => function_call(t, i),
        Rule::schema_qualified_identifier => schema_qualified_identifier(t, i),
        Rule::schema_identifier => schema_identifier(t, i),
        Rule::qualified_identifier => qualified_identifier(t, i),
        Rule::identifier => identifier(t, i),
        Rule::string_literal => string_literal(t, i),
        Rule::integer_literal => integer_literal(t, i),
        Rule::float_literal => float_literal(t, i),
    }
}

/// The character offset of token `k`, or the end of the input past the last token.
pub open spec fn offset_of(s: Seq<char>, t: Seq<Token>, k: int) -> int {
    if 0 <= k < t.len() { t[k].start as int } else { s.len() as int }
}

/// Reading input `s` with rule `r` from its first token: the node, or the
/// character offset where reading stopped.
pub open spec fn parse_spec(s: Seq<char>, r: Rule) -> Result<SpecPair, int> {
    match lex_spec(s) {
        Err(e) => Err(e),
        Ok(t) => if r == Rule::file {
            match file_rule(s, t) {
                Ok(p) => Ok(p),
                Err(k) => Err(offset_of(s, t, k)),
            }
        } else {
            match rule_at(s, t, r, 0) {
                Some((p, _)) => Ok(p),
                None => Err(offset_of(s, t, 0)),
            }
        },
    }
}

} // verus!
