//! Turns the parse tree of a file into `ConkFile`, checking that no config key,
//! declaration name, enum value, field name, field attribute or argument name is
//! given twice in the same place.
use vstd::prelude::*;
use crate::ast::attribute::{ArgumentList, BlockAttribute, FieldAttribute, NamedArgument};
use crate::ast::config::Config;
use crate::ast::declaration::{Declaration, Entity, Enum, Template};
use crate::ast::field::{Field, TypeExpr};
use crate::ast::file::ConkFile;
use crate::grammar::rules::parse_spec;
use crate::ast::value::Value;
use crate::grammar::tree::{lemma_children, Pair, Rule, SpecPair};
use crate::grammar::wf::{
    span_ok, text, wf_argument, wf_argument_list, wf_attribute, wf_entity, wf_entity_part,
    wf_config, wf_config_entry, wf_declaration, wf_enum, wf_enum_part, wf_field, wf_field_type,
    wf_file, wf_template, wf_template_part,
    wf_ident, wf_identifier_list, wf_inheritance_list, wf_name, wf_schema_prefix, wf_string,
    wf_value, wf_value_list,
};
use crate::parser::error::{error_is, ConvertError, Error, SemanticError};
use crate::ast::pest::{ConkParser, ParseError};
use crate::text::{
    str_eq, to_chars, chars_to_string, int_literal_result, int_literal_value, string_literal_value, string_value,
};

verus! {

/// Argument node `a` is positional.
pub open spec fn is_positional(a: SpecPair) -> bool {
    a.inner.len() > 0 && a.inner[0].rule == Rule::positional_argument
}

/// The name of a named argument node.
pub open spec fn argument_name(s: Seq<char>, a: SpecPair) -> Seq<char> {
    text(s, a.inner[0].inner[0])
}

/// Some named argument among `args[0..k]` is called `name`.
pub open spec fn named_before(s: Seq<char>, args: Seq<SpecPair>, k: int, name: Seq<char>) -> bool {
    exists|j: int| 0 <= j < k && !is_positional(#[trigger] args[j]) && argument_name(s, args[j]) == name
}

/// The value node `p` denotes `v`.
pub open spec fn value_of(s: Seq<char>, p: SpecPair, v: Value) -> bool
    decreases p,
{
    if p.rule == Rule::string_literal {
        v matches Value::String(x) && x@ == string_value(text(s, p))
    } else if p.rule == Rule::integer_literal {
        v matches Value::Integer(n) && int_literal_result(text(s, p)) == Ok::<i64, crate::text::IntOverflow>(n)
    } else if p.rule == Rule::float_literal {
        v matches Value::Float(x) && x@ == text(s, p)
    } else if p.rule == Rule::identifier {
        v matches Value::Identifier(x) && x@ == text(s, p)
    } else if p.rule == Rule::list_literal {
        v matches Value::List(items) && if p.inner.len() >= 1 {
            &&& items@.len() == p.inner[0].inner.len()
            &&& forall|k: int| 0 <= k < items@.len() ==> value_of(s, p.inner[0].inner[k], #[trigger] items@[k])
        } else {
            items@.len() == 0
        }
    } else if p.rule == Rule::function_call {
        v matches Value::FunctionCall { name, args } && name@ == text(s, p.inner[0]) && if p.inner.len() >= 2 {
            split_ok(s, p.inner[1].inner, args.positional@, args.named@)
        } else {
            args.positional@.len() == 0 && args.named@.len() == 0
        }
    } else if p.rule == Rule::schema_qualified_identifier || p.rule == Rule::schema_identifier {
        v matches Value::QualifiedIdentifier(parts) && parts@.len() == p.inner.len() && parts@[0]@
            == string_value(text(s, p.inner[0])) && forall|k: int|
            1 <= k < parts@.len() ==> (#[trigger] parts@[k])@ == text(s, p.inner[k])
    } else if p.rule == Rule::qualified_identifier {
        v matches Value::QualifiedIdentifier(parts) && parts@.len() == p.inner.len() && forall|k: int|
            0 <= k < parts@.len() ==> (#[trigger] parts@[k])@ == text(s, p.inner[k])
    } else {
        false
    }
}

/// The argument nodes `args` denote the positional arguments `pos` and the named
/// arguments `named`: each kind in the order written.
pub open spec fn split_ok(
    s: Seq<char>,
    args: Seq<SpecPair>,
    pos: Seq<Value>,
    named: Seq<NamedArgument>,
) -> bool
    decreases args,
{
    if args.len() == 0 {
        pos.len() == 0 && named.len() == 0
    } else if is_positional(args.last()) {
        &&& pos.len() > 0
        &&& args.last().inner[0].inner.len() >= 1
        &&& value_of(s, args.last().inner[0].inner[0], pos.last())
        &&& split_ok(s, args.drop_last(), pos.drop_last(), named)
    } else {
        &&& named.len() > 0
        &&& args.last().inner.len() >= 1
        &&& args.last().inner[0].inner.len() >= 2
        &&& named.last().name@ == argument_name(s, args.last())
        &&& value_of(s, args.last().inner[0].inner[1], named.last().value)
        &&& split_ok(s, args.drop_last(), pos, named.drop_last())
    }
}

/// The argument list node `q` denotes `a`.
pub open spec fn arguments_of(s: Seq<char>, q: SpecPair, a: ArgumentList) -> bool {
    split_ok(s, q.inner, a.positional@, a.named@)
}

/// The first error met converting value node `p`, if any.
pub open spec fn value_err(s: Seq<char>, p: SpecPair) -> Option<ConvertError>
    decreases p, 0int,
{
    if p.rule == Rule::integer_literal {
        match int_literal_result(text(s, p)) {
            Ok(_) => None,
            Err(k) => Some(ConvertError::ParseInt(k)),
        }
    } else if p.rule == Rule::list_literal && p.inner.len() >= 1 {
        values_err(s, p.inner[0], 0)
    } else if p.rule == Rule::function_call && p.inner.len() >= 2 {
        arguments_err(s, p.inner[1], 0)
    } else {
        None
    }
}

/// The first error met converting the children of `q` from index `k` on.
pub open spec fn values_err(s: Seq<char>, q: SpecPair, k: int) -> Option<ConvertError>
    decreases q, q.inner.len() - k,
{
    if 0 <= k < q.inner.len() {
        match value_err(s, q.inner[k]) {
            Some(e) => Some(e),
            None => values_err(s, q, k + 1),
        }
    } else {
        None
    }
}

/// The first error met converting the arguments of list `q` from index `k` on:
/// a named argument whose name came before, or an error in a value.
pub open spec fn arguments_err(s: Seq<char>, q: SpecPair, k: int) -> Option<ConvertError>
    decreases q, q.inner.len() - k,
{
    if 0 <= k < q.inner.len() {
        if is_positional(q.inner[k]) {
            if q.inner[k].inner[0].inner.len() >= 1 {
                match value_err(s, q.inner[k].inner[0].inner[0]) {
                    Some(e) => Some(e),
                    None => arguments_err(s, q, k + 1),
                }
            } else {
                None
            }
        } else if !(q.inner[k].inner.len() >= 1 && q.inner[k].inner[0].inner.len() >= 2) {
            None
        } else if named_before(s, q.inner, k, argument_name(s, q.inner[k])) {
            Some(ConvertError::DuplicateArgumentName(argument_name(s, q.inner[k])))
        } else {
            match value_err(s, q.inner[k].inner[0].inner[1]) {
                Some(e) => Some(e),
                None => arguments_err(s, q, k + 1),
            }
        }
    } else {
        None
    }
}



/// Attribute node `a` has name `name` and arguments `args`; without parentheses
/// or with empty ones the list is empty.
pub open spec fn attribute_of(s: Seq<char>, a: SpecPair, name: String, args: ArgumentList) -> bool {
    &&& name@ == text(s, a.inner[0])
    &&& if a.inner.len() >= 2 && a.inner[1].inner.len() >= 1 {
        arguments_of(s, a.inner[1].inner[0], args)
    } else {
        args.positional@.len() == 0 && args.named@.len() == 0
    }
}

/// The first error met converting the arguments of attribute node `a`, if any.
pub open spec fn attribute_err(s: Seq<char>, a: SpecPair) -> Option<ConvertError> {
    if a.inner.len() >= 2 && a.inner[1].inner.len() >= 1 {
        arguments_err(s, a.inner[1].inner[0], 0)
    } else {
        None
    }
}

/// Field type node `ft` denotes `te`: its name as written and its parameters.
pub open spec fn type_of(s: Seq<char>, ft: SpecPair, te: TypeExpr) -> bool {
    &&& te.name@ == text(s, ft.inner[0])
    &&& if ft.inner.len() >= 2 && ft.inner[1].inner.len() >= 1 {
        &&& te.params@.len() == ft.inner[1].inner[0].inner.len()
        &&& forall|k: int|
            0 <= k < te.params@.len() ==> value_of(
                s,
                ft.inner[1].inner[0].inner[k],
                #[trigger] te.params@[k],
            )
    } else {
        te.params@.len() == 0
    }
}

/// The first error met converting the parameters of field type node `ft`, if any.
pub open spec fn type_err(s: Seq<char>, ft: SpecPair) -> Option<ConvertError> {
    if ft.inner.len() >= 2 && ft.inner[1].inner.len() >= 1 {
        values_err(s, ft.inner[1].inner[0], 0)
    } else {
        None
    }
}

/// Field node `f` denotes `fl`.
pub open spec fn field_of(s: Seq<char>, f: SpecPair, fl: Field) -> bool {
    &&& fl.name@ == text(s, f.inner[0])
    &&& type_of(s, f.inner[1], fl.type_)
    &&& fl.attributes@.len() == f.inner.len() - 2
    &&& forall|k: int|
        0 <= k < fl.attributes@.len() ==> attribute_of(
            s,
            f.inner[k + 2],
            (#[trigger] fl.attributes@[k]).name,
            fl.attributes@[k].args,
        )
}

/// The first error met converting the attributes of field `f` from child `k` on.
pub open spec fn field_attributes_err(s: Seq<char>, f: SpecPair, k: int) -> Option<ConvertError>
    decreases f.inner.len() - k,
{
    if 2 <= k < f.inner.len() {
        match attribute_err(s, f.inner[k]) {
            Some(e) => Some(e),
            None => if key_before(s, f.inner, k, Rule::field_attribute) {
                Some(
                    ConvertError::DuplicateFieldAttribute(
                        text(s, f.inner[0]),
                        text(s, f.inner[k].inner[0]),
                    ),
                )
            } else {
                field_attributes_err(s, f, k + 1)
            },
        }
    } else {
        None
    }
}

/// The first error met converting field node `f`: in its type, then in its
/// attributes in order.
pub open spec fn field_err(s: Seq<char>, f: SpecPair) -> Option<ConvertError> {
    match type_err(s, f.inner[1]) {
        Some(e) => Some(e),
        None => field_attributes_err(s, f, 2),
    }
}

/// The last of the nodes `c` with rule `r`.
pub open spec fn last_with(c: Seq<SpecPair>, r: Rule) -> Option<SpecPair>
    decreases c.len(),
{
    if c.len() == 0 {
        None
    } else if c.last().rule == r {
        Some(c.last())
    } else {
        last_with(c.drop_last(), r)
    }
}

/// The name a declaration's children give it: the text of its last identifier,
/// or nothing.
pub open spec fn declared_name(s: Seq<char>, c: Seq<SpecPair>) -> Seq<char> {
    match last_with(c, Rule::identifier) {
        Some(n) => text(s, n),
        None => Seq::empty(),
    }
}

/// The schema a declaration's children give it.
pub open spec fn declared_schema(s: Seq<char>, c: Seq<SpecPair>) -> Option<Seq<char>> {
    match last_with(c, Rule::schema_prefix) {
        Some(n) => Some(string_value(text(s, n.inner[0]))),
        None => None,
    }
}

/// The schema `x` read is the schema `y` the nodes give.
pub open spec fn schema_is(x: Option<String>, y: Option<Seq<char>>) -> bool {
    match x {
        Some(a) => y == Some(a@),
        None => y is None,
    }
}

/// The enum value nodes among `c` are, in order, `vals`.
pub open spec fn enum_values_ok(s: Seq<char>, c: Seq<SpecPair>, vals: Seq<String>) -> bool
    decreases c.len(),
{
    if c.len() == 0 {
        vals.len() == 0
    } else if c.last().rule == Rule::enum_value {
        vals.len() > 0 && vals.last()@ == text(s, c.last().inner[0]) && enum_values_ok(
            s,
            c.drop_last(),
            vals.drop_last(),
        )
    } else {
        enum_values_ok(s, c.drop_last(), vals)
    }
}

/// The block attribute nodes among `c` denote, in order, `attrs`.
pub open spec fn block_attributes_ok(s: Seq<char>, c: Seq<SpecPair>, attrs: Seq<BlockAttribute>) -> bool
    decreases c.len(),
{
    if c.len() == 0 {
        attrs.len() == 0
    } else if c.last().rule == Rule::block_attribute {
        attrs.len() > 0 && attribute_of(s, c.last(), attrs.last().name, attrs.last().args)
            && block_attributes_ok(s, c.drop_last(), attrs.drop_last())
    } else {
        block_attributes_ok(s, c.drop_last(), attrs)
    }
}

/// The field nodes among `c` denote, in order, `fields`.
pub open spec fn fields_ok(s: Seq<char>, c: Seq<SpecPair>, fields: Seq<Field>) -> bool
    decreases c.len(),
{
    if c.len() == 0 {
        fields.len() == 0
    } else if c.last().rule == Rule::field {
        fields.len() > 0 && field_of(s, c.last(), fields.last()) && fields_ok(
            s,
            c.drop_last(),
            fields.drop_last(),
        )
    } else {
        fields_ok(s, c.drop_last(), fields)
    }
}

/// The children of list node `l` have, in order, the texts `names`.
pub open spec fn names_ok(s: Seq<char>, l: SpecPair, names: Seq<String>) -> bool {
    &&& names.len() == l.inner.len()
    &&& forall|k: int| 0 <= k < names.len() ==> (#[trigger] names[k])@ == text(s, l.inner[k])
}

/// The names listed in the last usage node with rule `r` among `c`.
pub open spec fn usage_names_ok(s: Seq<char>, c: Seq<SpecPair>, r: Rule, names: Seq<String>) -> bool {
    match last_with(c, r) {
        Some(u) => names_ok(s, u.inner[0], names),
        None => names.len() == 0,
    }
}

/// Enum declaration node `d` denotes `e`.
pub open spec fn enum_of(s: Seq<char>, d: SpecPair, e: Enum) -> bool {
    &&& schema_is(e.schema, declared_schema(s, d.inner))
    &&& e.name@ == declared_name(s, d.inner)
    &&& enum_values_ok(s, d.inner, e.values@)
    &&& block_attributes_ok(s, d.inner, e.attributes@)
}

/// Template declaration node `d` denotes `t`.
pub open spec fn template_of(s: Seq<char>, d: SpecPair, t: Template) -> bool {
    &&& t.name@ == declared_name(s, d.inner)
    &&& fields_ok(s, d.inner, t.fields@)
    &&& block_attributes_ok(s, d.inner, t.attributes@)
}

/// Entity declaration node `d` denotes `e`.
pub open spec fn entity_of(s: Seq<char>, d: SpecPair, e: Entity) -> bool {
    &&& schema_is(e.schema, declared_schema(s, d.inner))
    &&& e.name@ == declared_name(s, d.inner)
    &&& usage_names_ok(s, d.inner, Rule::template_usage, e.templates@)
    &&& usage_names_ok(s, d.inner, Rule::inheritance_usage, e.inherits@)
    &&& fields_ok(s, d.inner, e.fields@)
    &&& block_attributes_ok(s, d.inner, e.attributes@)
}

/// Some node of `c` before node `k` has rule `r` and the first-child text of node `k`.
pub open spec fn key_before(s: Seq<char>, c: Seq<SpecPair>, k: int, r: Rule) -> bool {
    keyed_in(s, c, k, r, text(s, c[k].inner[0]))
}

/// Some node among the first `n` of `c` has rule `r` and a first child with text `x`.
pub open spec fn keyed_in(s: Seq<char>, c: Seq<SpecPair>, n: int, r: Rule, x: Seq<char>) -> bool {
    exists|j: int| 0 <= j < n && (#[trigger] c[j]).rule == r && text(s, c[j].inner[0]) == x
}

/// The first error met converting enum declaration `d` from child `k` on.
pub open spec fn enum_err(s: Seq<char>, d: SpecPair, k: int) -> Option<ConvertError>
    decreases d.inner.len() - k,
{
    if 0 <= k < d.inner.len() {
        let q = d.inner[k];
        if q.rule == Rule::enum_value {
            if key_before(s, d.inner, k, Rule::enum_value) {
                Some(ConvertError::DuplicateEnumValue(text(s, q.inner[0])))
            } else {
                enum_err(s, d, k + 1)
            }
        } else if q.rule == Rule::block_attribute {
            match attribute_err(s, q) {
                Some(e) => Some(e),
                None => enum_err(s, d, k + 1),
            }
        } else {
            enum_err(s, d, k + 1)
        }
    } else {
        None
    }
}

/// The first error met converting the fields and block attributes of a template
/// or entity declaration `d` from child `k` on.
pub open spec fn members_err(s: Seq<char>, d: SpecPair, k: int) -> Option<ConvertError>
    decreases d.inner.len() - k,
{
    if 0 <= k < d.inner.len() {
        let q = d.inner[k];
        if q.rule == Rule::field {
            match field_err(s, q) {
                Some(e) => Some(e),
                None => if key_before(s, d.inner, k, Rule::field) {
                    Some(ConvertError::DuplicateFieldName(text(s, q.inner[0])))
                } else {
                    members_err(s, d, k + 1)
                },
            }
        } else if q.rule == Rule::block_attribute {
            match attribute_err(s, q) {
                Some(e) => Some(e),
                None => members_err(s, d, k + 1),
            }
        } else {
            members_err(s, d, k + 1)
        }
    } else {
        None
    }
}

/// Declaration node `d` denotes `decl`.
pub open spec fn declaration_of(s: Seq<char>, d: SpecPair, decl: Declaration) -> bool {
    let x = d.inner[0];
    if x.rule == Rule::enum_declaration {
        decl matches Declaration::Enum(e) && enum_of(s, x, e)
    } else if x.rule == Rule::template_declaration {
        decl matches Declaration::Template(t) && template_of(s, x, t)
    } else {
        decl matches Declaration::Entity(e) && entity_of(s, x, e)
    }
}

/// The first error met converting declaration node `d`, if any.
pub open spec fn declaration_err(s: Seq<char>, d: SpecPair) -> Option<ConvertError> {
    let x = d.inner[0];
    if x.rule == Rule::enum_declaration {
        enum_err(s, x, 0)
    } else {
        members_err(s, x, 0)
    }
}

/// The name declaration node `d` declares.
pub open spec fn declaration_name(s: Seq<char>, d: SpecPair) -> Seq<char> {
    declared_name(s, d.inner[0].inner)
}

/// Config node `c` denotes `cfg`: the entries in the order written.
pub open spec fn config_of(s: Seq<char>, c: SpecPair, cfg: Config) -> bool {
    &&& cfg.entries@.len() == c.inner.len()
    &&& forall|k: int|
        0 <= k < c.inner.len() ==> {
            &&& (#[trigger] cfg.entries@[k]).0@ == text(s, c.inner[k].inner[0])
            &&& value_of(s, c.inner[k].inner[1], cfg.entries@[k].1)
        }
}

/// The first error met converting config node `c` from entry `k` on.
pub open spec fn config_err(s: Seq<char>, c: SpecPair, k: int) -> Option<ConvertError>
    decreases c.inner.len() - k,
{
    if 0 <= k < c.inner.len() {
        match value_err(s, c.inner[k].inner[1]) {
            Some(e) => Some(e),
            None => if key_before(s, c.inner, k, Rule::config_entry) {
                Some(ConvertError::DuplicateConfigKey(text(s, c.inner[k].inner[0])))
            } else {
                config_err(s, c, k + 1)
            },
        }
    } else {
        None
    }
}

/// The declaration nodes among `c` denote, in order, `decls`.
pub open spec fn declarations_ok(s: Seq<char>, c: Seq<SpecPair>, decls: Seq<Declaration>) -> bool
    decreases c.len(),
{
    if c.len() == 0 {
        decls.len() == 0
    } else if c.last().rule == Rule::declaration {
        decls.len() > 0 && declaration_of(s, c.last(), decls.last()) && declarations_ok(
            s,
            c.drop_last(),
            decls.drop_last(),
        )
    } else {
        declarations_ok(s, c.drop_last(), decls)
    }
}

/// File node `f` denotes `cf`: the last config block, if any, and the
/// declarations in the order written.
pub open spec fn file_of(s: Seq<char>, f: SpecPair, cf: ConkFile) -> bool {
    &&& match last_with(f.inner, Rule::config) {
        Some(c) => cf.config matches Some(cfg) && config_of(s, c, cfg),
        None => cf.config is None,
    }
    &&& declarations_ok(s, f.inner, cf.declarations@)
}

/// Some declaration among the first `k` children `c` of a file declares `name`.
pub open spec fn declared_in(s: Seq<char>, c: Seq<SpecPair>, k: int, name: Seq<char>) -> bool {
    exists|j: int|
        0 <= j < k && (#[trigger] c[j]).rule == Rule::declaration && declaration_name(s, c[j]) == name
}

/// Some declaration before child `k` of the file declares the name child `k` declares.
pub open spec fn declared_before(s: Seq<char>, c: Seq<SpecPair>, k: int) -> bool {
    declared_in(s, c, k, declaration_name(s, c[k]))
}

/// The first error met converting file node `f` from child `k` on.
pub open spec fn file_err(s: Seq<char>, f: SpecPair, k: int) -> Option<ConvertError>
    decreases f.inner.len() - k,
{
    if 0 <= k < f.inner.len() {
        let q = f.inner[k];
        if q.rule == Rule::config {
            match config_err(s, q, 0) {
                Some(e) => Some(e),
                None => file_err(s, f, k + 1),
            }
        } else {
            match declaration_err(s, q) {
                Some(e) => Some(e),
                None => if declared_before(s, f.inner, k) {
                    Some(ConvertError::DuplicateDeclarationName(declaration_name(s, q)))
                } else {
                    file_err(s, f, k + 1)
                },
            }
        }
    } else {
        None
    }
}

/// Node `k` of `c` is a block attribute written without parentheses.
pub open spec fn bare_block(c: Seq<SpecPair>, k: int) -> bool {
    c[k].rule == Rule::block_attribute && c[k].inner.len() < 2
}

/// No block attribute among the nodes `c` is written without parentheses.
pub open spec fn no_bare_blocks(c: Seq<SpecPair>) -> bool {
    forall|k: int| 0 <= k < c.len() ==> !bare_block(c, k)
}

/// Where the parentheses of the first block attribute written without them,
/// among the nodes `c` from index `k` on, should open: just after its name.
pub open spec fn bare_block_in(c: Seq<SpecPair>, k: int) -> Option<int>
    decreases c.len() - k,
{
    if 0 <= k < c.len() {
        if bare_block(c, k) {
            Some(c[k].end)
        } else {
            bare_block_in(c, k + 1)
        }
    } else {
        None
    }
}

/// The same, in the declarations of file node `f` from child `k` on.
pub open spec fn bare_block_file(f: SpecPair, k: int) -> Option<int>
    decreases f.inner.len() - k,
{
    if 0 <= k < f.inner.len() {
        if f.inner[k].rule == Rule::declaration && f.inner[k].inner.len() >= 1 {
            match bare_block_in(f.inner[k].inner[0].inner, 0) {
                Some(o) => Some(o),
                None => bare_block_file(f, k + 1),
            }
        } else {
            bare_block_file(f, k + 1)
        }
    } else {
        None
    }
}

/// What reading `input` as a file gives: the syntax error, which includes a
/// block attribute written without parentheses; else the first error met
/// converting the tree; else the file the tree denotes.
pub open spec fn file_result(input: Seq<char>, r: Result<ConkFile, Error>) -> bool {
    match parse_spec(input, Rule::file) {
        Err(offset) => r matches Err(Error::Parse(e)) && e.offset == offset,
        Ok(p) => match bare_block_file(p, 0) {
            Some(offset) => r matches Err(Error::Parse(e)) && e.offset == offset,
            None => match file_err(input, p, 0) {
                Some(c) => r matches Err(e) && error_is(e, c),
                None => r matches Ok(f) && file_of(input, p, f),
            },
        },
    }
}

/// The text of node `p`.
pub fn parse_identifier(input: &[char], p: &Pair) -> (r: String)
    requires
        span_ok(input@, p@),
    ensures
        r@ == text(input@, p@),
{
    chars_to_string(input, p.start, p.end)
}

/// The value of string literal node `p`: quotes removed, `\"` read as `"`.
pub fn parse_string_literal(input: &[char], p: &Pair) -> (r: String)
    requires
        wf_string(input@, p@),
    ensures
        r@ == string_value(text(input@, p@)),
{
    string_literal_value(input, p.start, p.end)
}

/// Whether nodes `a` and `b` cover the same text.
pub fn same_text(s: &[char], a: &Pair, b: &Pair) -> (r: bool)
    requires
        span_ok(s@, a@),
        span_ok(s@, b@),
    ensures
        r == (text(s@, a@) == text(s@, b@)),
{
    assert(text(s@, a@).len() == a.end - a.start);
    assert(text(s@, b@).len() == b.end - b.start);
    if a.end - a.start != b.end - b.start {
        return false;
    }
    let n = a.end - a.start;
    let mut k: usize = 0;
    while k < n
        invariant
            n == a.end - a.start == b.end - b.start,
            span_ok(s@, a@),
            span_ok(s@, b@),
            k <= n,
            forall|m: int| 0 <= m < k ==> text(s@, a@)[m] == text(s@, b@)[m],
        decreases n - k,
    {
        if s[a.start + k] != s[b.start + k] {
            assert(text(s@, a@)[k as int] != text(s@, b@)[k as int]);
            return false;
        }
        k = k + 1;
    }
    assert(text(s@, a@) =~= text(s@, b@));
    true
}

/// Converts value node `p`.
pub fn parse_value(input: &[char], p: &Pair) -> (r: Result<Value, Error>)
    requires
        wf_value(input@, p@),
    ensures
        match r {
            Ok(v) => value_err(input@, p@) is None && value_of(input@, p@, v),
            Err(e) => value_err(input@, p@) matches Some(c) && error_is(e, c),
        },
    decreases p@,
{
    proof {
        lemma_children(p);
    }
    match p.rule {
        Rule::string_literal => Ok(Value::String(parse_string_literal(input, p))),
        Rule::integer_literal => match int_literal_value(input, p.start, p.end) {
            Ok(n) => Ok(Value::Integer(n)),
            Err(k) => Err(Error::ParseInt(k)),
        },
        Rule::float_literal => Ok(Value::Float(parse_identifier(input, p))),
        Rule::identifier => Ok(Value::Identifier(parse_identifier(input, p))),
        Rule::list_literal => {
            let mut items: Vec<Value> = Vec::new();
            if p.inner.len() >= 1 {
                let vl = &p.inner[0];
                proof {
                    lemma_children(vl);
                }
                let ghost q = vl@;
                let mut k: usize = 0;
                while k < vl.inner.len()
                    invariant
                        q == vl@,
                        p@.inner.len() >= 1,
                        p@.rule == Rule::list_literal,
                        q == p@.inner[0],
                        wf_value_list(input@, q),
                        q.inner.len() == vl.inner@.len(),
                        forall|m: int| 0 <= m < vl.inner@.len() ==> #[trigger] q.inner[m] == vl.inner@[m]@,
                        k <= q.inner.len(),
                        items@.len() == k,
                        forall|m: int| 0 <= m < k ==> value_of(input@, q.inner[m], #[trigger] items@[m]),
                        values_err(input@, q, 0) == values_err(input@, q, k as int),
                    decreases q.inner.len() - k,
                {
                    assert(wf_value(input@, q.inner[k as int]));
                    assert(decreases_to!(p@ => q.inner[k as int]));
                    match parse_value(input, &vl.inner[k]) {
                        Ok(v) => {
                            items.push(v);
                        },
                        Err(e) => {
                            assert(value_err(input@, p@) == values_err(input@, q, 0));
                            return Err(e);
                        },
                    }
                    k = k + 1;
                }
            }
            Ok(Value::List(items))
        },
        Rule::function_call => {
            let name = parse_identifier(input, &p.inner[0]);
            let args = if p.inner.len() >= 2 {
                match parse_argument_list(input, &p.inner[1]) {
                    Ok(a) => a,
                    Err(e) => {
                        return Err(e);
                    },
                }
            } else {
                ArgumentList::new()
            };
            Ok(Value::FunctionCall { name, args })
        },
        Rule::schema_qualified_identifier | Rule::schema_identifier | Rule::qualified_identifier => {
            let mut parts: Vec<String> = Vec::new();
            let mut k: usize = 0;
            if p.rule != Rule::qualified_identifier {
                parts.push(parse_string_literal(input, &p.inner[0]));
                k = 1;
            }
            while k < p.inner.len()
                invariant
                    wf_value(input@, p@),
                    p@.rule == Rule::schema_qualified_identifier || p@.rule == Rule::schema_identifier
                        || p@.rule == Rule::qualified_identifier,
                    p@.inner.len() == p.inner@.len(),
                    forall|m: int| 0 <= m < p.inner@.len() ==> #[trigger] p@.inner[m] == p.inner@[m]@,
                    p@.rule != Rule::qualified_identifier ==> k >= 1 && parts@[0]@ == string_value(
                        text(input@, p@.inner[0]),
                    ),
                    p@.rule == Rule::qualified_identifier ==> k >= 0,
                    k <= p@.inner.len(),
                    parts@.len() == k,
                    forall|m: int|
                        (if p@.rule == Rule::qualified_identifier { 0int } else { 1int }) <= m < k
                            ==> (#[trigger] parts@[m])@ == text(input@, p@.inner[m]),
                decreases p@.inner.len() - k,
            {
                proof {
                    if p@.rule == Rule::schema_identifier {
                        assert(wf_ident(input@, p@.inner[1]));
                    } else {
                        assert(wf_ident(input@, p@.inner[k as int]));
                    }
                }
                parts.push(parse_identifier(input, &p.inner[k]));
                k = k + 1;
            }
            Ok(Value::QualifiedIdentifier(parts))
        },
        _ => {
            assert(false);
            Ok(Value::Integer(0))
        },
    }
}

/// Converts argument list node `q`, refusing a named argument whose name came before.
pub fn parse_argument_list(input: &[char], q: &Pair) -> (r: Result<ArgumentList, Error>)
    requires
        wf_argument_list(input@, q@),
    ensures
        match r {
            Ok(a) => {
                &&& arguments_err(input@, q@, 0) is None
                &&& arguments_of(input@, q@, a)
                &&& forall|i: int, j: int|
                    0 <= i < j < a.named@.len() ==> a.named@[i].name@ != a.named@[j].name@
            },
            Err(e) => arguments_err(input@, q@, 0) matches Some(c) && error_is(e, c),
        },
    decreases q@,
{
    proof {
        lemma_children(q);
    }
    let ghost g = q@;
    let mut positional: Vec<Value> = Vec::new();
    let mut named: Vec<NamedArgument> = Vec::new();
    let mut k: usize = 0;
    while k < q.inner.len()
        invariant
            g == q@,
            wf_argument_list(input@, g),
            g.inner.len() == q.inner@.len(),
            forall|m: int| 0 <= m < q.inner@.len() ==> #[trigger] g.inner[m] == q.inner@[m]@,
            k <= g.inner.len(),
            split_ok(input@, g.inner.take(k as int), positional@, named@),
            arguments_err(input@, g, 0) == arguments_err(input@, g, k as int),
        decreases g.inner.len() - k,
    {
        let arg = &q.inner[k];
        assert(wf_argument(input@, g.inner[k as int]));
        proof {
            lemma_children(arg);
            assert(g.inner.take(k + 1).drop_last() =~= g.inner.take(k as int));
        }
        let node = &arg.inner[0];
        proof {
            lemma_children(node);
        }
        if node.rule == Rule::positional_argument {
            match parse_value(input, &node.inner[0]) {
                Ok(v) => {
                    let ghost before = positional@;
                    positional.push(v);
                    assert(positional@.drop_last() =~= before);
                },
                Err(e) => {
                    return Err(e);
                },
            }
        } else {
            let name_node = &node.inner[0];
            if named_before_exec(input, q, k, name_node) {
                return Err(Error::Semantic(SemanticError::DuplicateArgumentName(parse_identifier(input, name_node))));
            }
            let name = parse_identifier(input, name_node);
            match parse_value(input, &node.inner[1]) {
                Ok(value) => {
                    let ghost before = named@;
                    named.push(NamedArgument { name, value });
                    assert(named@.drop_last() =~= before);
                },
                Err(e) => {
                    return Err(e);
                },
            }
        }
        proof {
            assert(g.inner.take(k + 1).last() == g.inner[k as int]);
        }
        k = k + 1;
    }
    assert(g.inner.take(g.inner.len() as int) =~= g.inner);
    proof {
        lemma_arguments_err_none(input@, g, 0);
        lemma_named_distinct(input@, g.inner, positional@, named@);
    }
    Ok(ArgumentList { positional, named })
}

proof fn lemma_named_prefix(s: Seq<char>, args: Seq<SpecPair>, n: int, name: Seq<char>)
    requires
        0 <= n < args.len(),
    ensures
        named_before(s, args.drop_last(), n, name) == named_before(s, args, n, name),
{
    if named_before(s, args, n, name) {
        let j = choose|j: int|
            0 <= j < n && !is_positional(#[trigger] args[j]) && argument_name(s, args[j]) == name;
        assert(args.drop_last()[j] == args[j]);
    }
    if named_before(s, args.drop_last(), n, name) {
        let j = choose|j: int|
            0 <= j < n && !is_positional(#[trigger] args.drop_last()[j]) && argument_name(
                s,
                args.drop_last()[j],
            ) == name;
        assert(args.drop_last()[j] == args[j]);
    }
}

/// `arguments_err` found nothing from argument `k0` on: no name there repeats an
/// earlier one and every value converts.
pub proof fn lemma_arguments_err_none(s: Seq<char>, q: SpecPair, k0: int)
    requires
        0 <= k0,
        wf_argument_list(s, q),
        arguments_err(s, q, k0) is None,
    ensures
        forall|k: int|
            k0 <= k < q.inner.len() && !is_positional(#[trigger] q.inner[k]) ==> !named_before(
                s,
                q.inner,
                k,
                argument_name(s, q.inner[k]),
            ),
        forall|k: int|
            k0 <= k < q.inner.len() ==> if is_positional(#[trigger] q.inner[k]) {
                value_err(s, q.inner[k].inner[0].inner[0]) is None
            } else {
                value_err(s, q.inner[k].inner[0].inner[1]) is None
            },
    decreases q.inner.len() - k0,
{
    if k0 < q.inner.len() {
        assert(wf_argument(s, q.inner[k0]));
        lemma_arguments_err_none(s, q, k0 + 1);
    }
}

/// Named arguments read in order from nodes none of which repeats the name of an
/// earlier one have distinct names, and each name is that of a named node.
pub proof fn lemma_named_distinct(
    s: Seq<char>,
    args: Seq<SpecPair>,
    pos: Seq<Value>,
    named: Seq<NamedArgument>,
)
    requires
        split_ok(s, args, pos, named),
        forall|k: int|
            0 <= k < args.len() && !is_positional(#[trigger] args[k]) ==> !named_before(
                s,
                args,
                k,
                argument_name(s, args[k]),
            ),
    ensures
        forall|i: int, j: int| 0 <= i < j < named.len() ==> named[i].name@ != named[j].name@,
        forall|i: int|
            0 <= i < named.len() ==> named_before(s, args, args.len() as int, (#[trigger] named[i]).name@),
    decreases args.len(),
{
    if args.len() > 0 {
        let a2 = args.drop_last();
        let n = args.len() - 1;
        assert forall|k: int| 0 <= k < a2.len() && !is_positional(#[trigger] a2[k]) implies !named_before(
            s,
            a2,
            k,
            argument_name(s, a2[k]),
        ) by {
            assert(a2[k] == args[k]);
            lemma_named_prefix(s, args, k, argument_name(s, args[k]));
        }
        if is_positional(args.last()) {
            lemma_named_distinct(s, a2, pos.drop_last(), named);
            assert forall|i: int| 0 <= i < named.len() implies named_before(
                s,
                args,
                args.len() as int,
                (#[trigger] named[i]).name@,
            ) by {
                let j = choose|j: int|
                    0 <= j < n && !is_positional(#[trigger] a2[j]) && argument_name(s, a2[j])
                        == named[i].name@;
                assert(a2[j] == args[j]);
            }
        } else {
            let n2 = named.drop_last();
            lemma_named_distinct(s, a2, pos, n2);
            assert(!named_before(s, args, n, argument_name(s, args[n])));
            assert forall|i: int, j: int| 0 <= i < j < named.len() implies named[i].name@
                != named[j].name@ by {
                assert(named[i] == n2[i]);
                if j < named.len() - 1 {
                    assert(named[j] == n2[j]);
                } else {
                    let m = choose|m: int|
                        0 <= m < n && !is_positional(#[trigger] a2[m]) && argument_name(s, a2[m])
                            == n2[i].name@;
                    assert(a2[m] == args[m]);
                }
            }
            assert forall|i: int| 0 <= i < named.len() implies named_before(
                s,
                args,
                args.len() as int,
                (#[trigger] named[i]).name@,
            ) by {
                if i < named.len() - 1 {
                    assert(named[i] == n2[i]);
                    let m = choose|m: int|
                        0 <= m < n && !is_positional(#[trigger] a2[m]) && argument_name(s, a2[m])
                            == n2[i].name@;
                    assert(a2[m] == args[m]);
                } else {
                    assert(!is_positional(args[n]));
                }
            }
        }
    }
}

/// Whether a named argument among the first `k` arguments of `q` is called
/// like `name_node`.
fn named_before_exec(s: &[char], q: &Pair, k: usize, name_node: &Pair) -> (b: bool)
    requires
        wf_argument_list(s@, q@),
        k <= q@.inner.len(),
        span_ok(s@, name_node@),
    ensures
        b == named_before(s@, q@.inner, k as int, text(s@, name_node@)),
{
    proof {
        lemma_children(q);
    }
    let mut j: usize = 0;
    while j < k
        invariant
            wf_argument_list(s@, q@),
            span_ok(s@, name_node@),
            k <= q@.inner.len(),
            q@.inner.len() == q.inner@.len(),
            forall|m: int| 0 <= m < q.inner@.len() ==> #[trigger] q@.inner[m] == q.inner@[m]@,
            j <= k,
            forall|m: int|
                0 <= m < j ==> !(!is_positional(#[trigger] q@.inner[m]) && argument_name(s@, q@.inner[m])
                    == text(s@, name_node@)),
        decreases k - j,
    {
        let arg = &q.inner[j];
        assert(wf_argument(s@, q@.inner[j as int]));
        proof {
            lemma_children(arg);
        }
        let node = &arg.inner[0];
        proof {
            lemma_children(node);
        }
        if node.rule == Rule::named_argument {
            if same_text(s, &node.inner[0], name_node) {
                return true;
            }
        }
        j = j + 1;
    }
    false
}


/// Whether a child of `d` before child `k` has rule `r` and the text of the
/// first child of child `k` as the text of its own first child.
fn key_before_exec(s: &[char], d: &Pair, k: usize, r: Rule) -> (b: bool)
    requires
        k < d@.inner.len(),
        d@.inner[k as int].inner.len() >= 1,
        span_ok(s@, d@.inner[k as int].inner[0]),
        forall|j: int|
            0 <= j < k && (#[trigger] d@.inner[j]).rule == r ==> d@.inner[j].inner.len() >= 1
                && span_ok(s@, d@.inner[j].inner[0]),
    ensures
        b == key_before(s@, d@.inner, k as int, r),
{
    proof {
        lemma_children(d);
    }
    let node = &d.inner[k];
    proof {
        lemma_children(node);
    }
    let key = &node.inner[0];
    let mut j: usize = 0;
    while j < k
        invariant
            k < d@.inner.len(),
            d@.inner.len() == d.inner@.len(),
            forall|m: int| 0 <= m < d.inner@.len() ==> #[trigger] d@.inner[m] == d.inner@[m]@,
            key@ == d@.inner[k as int].inner[0],
            span_ok(s@, key@),
            forall|m: int|
                0 <= m < k && (#[trigger] d@.inner[m]).rule == r ==> d@.inner[m].inner.len() >= 1
                    && span_ok(s@, d@.inner[m].inner[0]),
            j <= k,
            forall|m: int|
                0 <= m < j ==> !((#[trigger] d@.inner[m]).rule == r && text(s@, d@.inner[m].inner[0])
                    == text(s@, d@.inner[k as int].inner[0])),
        decreases k - j,
    {
        let c = &d.inner[j];
        proof {
            lemma_children(c);
        }
        if c.rule == r {
            assert(d@.inner[j as int].rule == r);
            if same_text(s, &c.inner[0], key) {
                return true;
            }
        }
        j = j + 1;
    }
    false
}

/// The name and arguments of attribute node `a`, field or block attribute.
fn attribute_parts(input: &[char], a: &Pair) -> (r: Result<(String, ArgumentList), Error>)
    requires
        wf_attribute(input@, a@, Rule::field_attribute) || wf_attribute(
            input@,
            a@,
            Rule::block_attribute,
        ),
    ensures
        match r {
            Ok((n, args)) => attribute_err(input@, a@) is None && attribute_of(input@, a@, n, args),
            Err(e) => attribute_err(input@, a@) matches Some(c) && error_is(e, c),
        },
{
    proof {
        lemma_children(a);
    }
    let name = parse_identifier(input, &a.inner[0]);
    if a.inner.len() >= 2 {
        let args_node = &a.inner[1];
        proof {
            lemma_children(args_node);
        }
        if args_node.inner.len() >= 1 {
            return match parse_argument_list(input, &args_node.inner[0]) {
                Ok(args) => Ok((name, args)),
                Err(e) => Err(e),
            };
        }
    }
    Ok((name, ArgumentList::new()))
}

/// Converts field attribute node `a`: `@name` with its arguments, if any.
pub fn parse_field_attribute(input: &[char], a: &Pair) -> (r: Result<FieldAttribute, Error>)
    requires
        wf_attribute(input@, a@, Rule::field_attribute),
    ensures
        match r {
            Ok(fa) => attribute_err(input@, a@) is None && attribute_of(input@, a@, fa.name, fa.args),
            Err(e) => attribute_err(input@, a@) matches Some(c) && error_is(e, c),
        },
{
    match attribute_parts(input, a) {
        Ok((name, args)) => Ok(FieldAttribute { name, args }),
        Err(e) => Err(e),
    }
}

/// Converts block attribute node `a`: `@@name(arguments)`; the parentheses are
/// required, empty ones give no arguments.
pub fn parse_block_attribute(input: &[char], a: &Pair) -> (r: Result<BlockAttribute, Error>)
    requires
        wf_attribute(input@, a@, Rule::block_attribute),
        a@.inner.len() == 2,
    ensures
        match r {
            Ok(ba) => attribute_err(input@, a@) is None && attribute_of(input@, a@, ba.name, ba.args),
            Err(e) => attribute_err(input@, a@) matches Some(c) && error_is(e, c),
        },
{
    match attribute_parts(input, a) {
        Ok((name, args)) => Ok(BlockAttribute { name, args }),
        Err(e) => Err(e),
    }
}

/// Converts the values of value list node `q`, in order.
pub fn parse_value_list(input: &[char], q: &Pair) -> (r: Result<Vec<Value>, Error>)
    requires
        wf_value_list(input@, q@),
    ensures
        match r {
            Ok(items) => {
                &&& values_err(input@, q@, 0) is None
                &&& items@.len() == q@.inner.len()
                &&& forall|k: int|
                    0 <= k < items@.len() ==> value_of(input@, q@.inner[k], #[trigger] items@[k])
            },
            Err(e) => values_err(input@, q@, 0) matches Some(c) && error_is(e, c),
        },
{
    proof {
        lemma_children(q);
    }
    let mut items: Vec<Value> = Vec::new();
    let mut k: usize = 0;
    while k < q.inner.len()
        invariant
            wf_value_list(input@, q@),
            q@.inner.len() == q.inner@.len(),
            forall|m: int| 0 <= m < q.inner@.len() ==> #[trigger] q@.inner[m] == q.inner@[m]@,
            k <= q@.inner.len(),
            items@.len() == k,
            forall|m: int| 0 <= m < k ==> value_of(input@, q@.inner[m], #[trigger] items@[m]),
            values_err(input@, q@, 0) == values_err(input@, q@, k as int),
        decreases q@.inner.len() - k,
    {
        assert(wf_value(input@, q@.inner[k as int]));
        match parse_value(input, &q.inner[k]) {
            Ok(v) => {
                items.push(v);
            },
            Err(e) => {
                return Err(e);
            },
        }
        k = k + 1;
    }
    Ok(items)
}

/// Converts field type node `ft`: its name as written and its parameters.
pub fn parse_type_expr(input: &[char], ft: &Pair) -> (r: Result<TypeExpr, Error>)
    requires
        wf_field_type(input@, ft@),
    ensures
        match r {
            Ok(te) => type_err(input@, ft@) is None && type_of(input@, ft@, te),
            Err(e) => type_err(input@, ft@) matches Some(c) && error_is(e, c),
        },
{
    proof {
        lemma_children(ft);
    }
    let name = parse_identifier(input, &ft.inner[0]);
    if ft.inner.len() >= 2 {
        let tp = &ft.inner[1];
        proof {
            lemma_children(tp);
        }
        if tp.inner.len() >= 1 {
            return match parse_value_list(input, &tp.inner[0]) {
                Ok(params) => Ok(TypeExpr { name, params }),
                Err(e) => Err(e),
            };
        }
    }
    Ok(TypeExpr { name, params: Vec::new() })
}

/// Converts field node `f`, refusing an attribute whose name came before on the
/// same field.
pub fn parse_field(input: &[char], f: &Pair) -> (r: Result<Field, Error>)
    requires
        wf_field(input@, f@),
    ensures
        match r {
            Ok(fl) => field_err(input@, f@) is None && field_of(input@, f@, fl),
            Err(e) => field_err(input@, f@) matches Some(c) && error_is(e, c),
        },
{
    proof {
        lemma_children(f);
    }
    let name = parse_identifier(input, &f.inner[0]);
    let type_ = match parse_type_expr(input, &f.inner[1]) {
        Ok(t) => t,
        Err(e) => {
            return Err(e);
        },
    };
    let mut attributes: Vec<FieldAttribute> = Vec::new();
    let mut k: usize = 2;
    while k < f.inner.len()
        invariant
            wf_field(input@, f@),
            f@.inner.len() == f.inner@.len(),
            forall|m: int| 0 <= m < f.inner@.len() ==> #[trigger] f@.inner[m] == f.inner@[m]@,
            2 <= k <= f@.inner.len(),
            name@ == text(input@, f@.inner[0]),
            type_of(input@, f@.inner[1], type_),
            attributes@.len() == k - 2,
            forall|m: int|
                0 <= m < k - 2 ==> attribute_of(
                    input@,
                    f@.inner[m + 2],
                    (#[trigger] attributes@[m]).name,
                    attributes@[m].args,
                ),
            field_err(input@, f@) == field_attributes_err(input@, f@, k as int),
        decreases f@.inner.len() - k,
    {
        assert(wf_attribute(input@, f@.inner[k as int], Rule::field_attribute));
        let fa = match parse_field_attribute(input, &f.inner[k]) {
            Ok(a) => a,
            Err(e) => {
                return Err(e);
            },
        };
        proof {
            assert forall|j: int|
                0 <= j < k && (#[trigger] f@.inner[j]).rule == Rule::field_attribute implies f@.inner[j].inner.len()
                >= 1 && span_ok(input@, f@.inner[j].inner[0]) by {
                if j >= 2 {
                    assert(wf_attribute(input@, f@.inner[j], Rule::field_attribute));
                }
            }
        }
        if key_before_exec(input, f, k, Rule::field_attribute) {
            return Err(
                Error::Semantic(SemanticError::DuplicateFieldAttribute { field: name, attribute: fa.name }),
            );
        }
        let ghost before = attributes@;
        attributes.push(fa);
        proof {
            assert forall|m: int| 0 <= m < k + 1 - 2 implies attribute_of(
                input@,
                f@.inner[m + 2],
                (#[trigger] attributes@[m]).name,
                attributes@[m].args,
            ) by {
                if m < k - 2 {
                    assert(attributes@[m] == before[m]);
                }
            }
        }
        k = k + 1;
    }
    Ok(Field { name, type_, attributes })
}

/// The schema a schema prefix node names: its string literal's value.
pub fn parse_schema_prefix(input: &[char], p: &Pair) -> (r: String)
    requires
        wf_schema_prefix(input@, p@),
    ensures
        r@ == string_value(text(input@, p@.inner[0])),
{
    proof {
        lemma_children(p);
    }
    parse_string_literal(input, &p.inner[0])
}

/// The texts of the children of list node `l`, in order.
pub fn parse_identifier_list(input: &[char], l: &Pair) -> (r: Vec<String>)
    requires
        wf_identifier_list(input@, l@) || wf_inheritance_list(input@, l@),
    ensures
        names_ok(input@, l@, r@),
{
    proof {
        lemma_children(l);
        assert forall|m: int| 0 <= m < l@.inner.len() implies span_ok(input@, #[trigger] l@.inner[m]) by {
            if wf_identifier_list(input@, l@) {
                assert(wf_ident(input@, l@.inner[m]));
            } else {
                assert(wf_name(input@, l@.inner[m]));
            }
        }
    }
    let mut names: Vec<String> = Vec::new();
    let mut k: usize = 0;
    while k < l.inner.len()
        invariant
            l@.inner.len() == l.inner@.len(),
            forall|m: int| 0 <= m < l.inner@.len() ==> #[trigger] l@.inner[m] == l.inner@[m]@,
            forall|m: int| 0 <= m < l@.inner.len() ==> span_ok(input@, #[trigger] l@.inner[m]),
            k <= l@.inner.len(),
            names@.len() == k,
            forall|m: int| 0 <= m < k ==> (#[trigger] names@[m])@ == text(input@, l@.inner[m]),
        decreases l@.inner.len() - k,
    {
        assert(span_ok(input@, l@.inner[k as int]));
        names.push(parse_identifier(input, &l.inner[k]));
        k = k + 1;
    }
    names
}


/// Converts enum declaration node `d`, refusing a value given twice.
pub fn parse_enum_declaration(input: &[char], d: &Pair) -> (r: Result<Enum, Error>)
    requires
        wf_enum(input@, d@),
        no_bare_blocks(d@.inner),
    ensures
        match r {
            Ok(e) => enum_err(input@, d@, 0) is None && enum_of(input@, d@, e),
            Err(e) => enum_err(input@, d@, 0) matches Some(c) && error_is(e, c),
        },
{
    proof {
        lemma_children(d);
    }
    let ghost c = d@.inner;
    let mut schema: Option<String> = None;
    let mut name = String::new();
    let mut values: Vec<String> = Vec::new();
    let mut attributes: Vec<BlockAttribute> = Vec::new();
    let mut k: usize = 0;
    while k < d.inner.len()
        invariant
            c == d@.inner,
            wf_enum(input@, d@),
            no_bare_blocks(c),
            c.len() == d.inner@.len(),
            forall|m: int| 0 <= m < d.inner@.len() ==> #[trigger] c[m] == d.inner@[m]@,
            k <= c.len(),
            schema_is(schema, declared_schema(input@, c.take(k as int))),
            name@ == declared_name(input@, c.take(k as int)),
            enum_values_ok(input@, c.take(k as int), values@),
            block_attributes_ok(input@, c.take(k as int), attributes@),
            enum_err(input@, d@, 0) == enum_err(input@, d@, k as int),
        decreases c.len() - k,
    {
        let q = &d.inner[k];
        assert(wf_enum_part(input@, c[k as int]));
        proof {
            lemma_children(q);
            assert(c.take(k + 1).drop_last() =~= c.take(k as int));
            assert(c.take(k + 1).last() == c[k as int]);
        }
        if q.rule == Rule::schema_prefix {
            schema = Some(parse_schema_prefix(input, q));
        } else if q.rule == Rule::identifier {
            name = parse_identifier(input, q);
        } else if q.rule == Rule::enum_value {
            proof {
                assert forall|j: int|
                    0 <= j < k && (#[trigger] c[j]).rule == Rule::enum_value implies c[j].inner.len()
                    >= 1 && span_ok(input@, c[j].inner[0]) by {
                    assert(wf_enum_part(input@, c[j]));
                }
            }
            if key_before_exec(input, d, k, Rule::enum_value) {
                return Err(
                    Error::Semantic(SemanticError::DuplicateEnumValue(parse_identifier(input, &q.inner[0]))),
                );
            }
            let ghost before = values@;
            values.push(parse_identifier(input, &q.inner[0]));
            assert(values@.drop_last() =~= before);
        } else {
            assert(!bare_block(c, k as int));
            match parse_block_attribute(input, q) {
                Ok(a) => {
                    let ghost before = attributes@;
                    attributes.push(a);
                    assert(attributes@.drop_last() =~= before);
                },
                Err(e) => {
                    return Err(e);
                },
            }
        }
        k = k + 1;
    }
    assert(c.take(c.len() as int) =~= c);
    Ok(Enum { schema, name, values, attributes })
}


/// Converts template declaration node `d`, refusing a field name given twice.
pub fn parse_template_declaration(input: &[char], d: &Pair) -> (r: Result<Template, Error>)
    requires
        wf_template(input@, d@),
        no_bare_blocks(d@.inner),
    ensures
        match r {
            Ok(t) => members_err(input@, d@, 0) is None && template_of(input@, d@, t),
            Err(e) => members_err(input@, d@, 0) matches Some(c) && error_is(e, c),
        },
{
    proof {
        lemma_children(d);
    }
    let ghost c = d@.inner;
    let mut name = String::new();
    let mut fields: Vec<Field> = Vec::new();
    let mut attributes: Vec<BlockAttribute> = Vec::new();
    let mut k: usize = 0;
    while k < d.inner.len()
        invariant
            c == d@.inner,
            wf_template(input@, d@),
            no_bare_blocks(c),
            c.len() == d.inner@.len(),
            forall|m: int| 0 <= m < d.inner@.len() ==> #[trigger] c[m] == d.inner@[m]@,
            k <= c.len(),
            name@ == declared_name(input@, c.take(k as int)),
            fields_ok(input@, c.take(k as int), fields@),
            block_attributes_ok(input@, c.take(k as int), attributes@),
            members_err(input@, d@, 0) == members_err(input@, d@, k as int),
        decreases c.len() - k,
    {
        let q = &d.inner[k];
        assert(wf_template_part(input@, c[k as int]));
        proof {
            lemma_children(q);
            assert(c.take(k + 1).drop_last() =~= c.take(k as int));
            assert(c.take(k + 1).last() == c[k as int]);
        }
        if q.rule == Rule::identifier {
            name = parse_identifier(input, q);
        } else if q.rule == Rule::field {
            let fl = match parse_field(input, q) {
                Ok(fl) => fl,
                Err(e) => {
                    return Err(e);
                },
            };
            proof {
                assert forall|j: int|
                    0 <= j < k && (#[trigger] c[j]).rule == Rule::field implies c[j].inner.len() >= 1
                    && span_ok(input@, c[j].inner[0]) by {
                    assert(wf_template_part(input@, c[j]));
                }
            }
            if key_before_exec(input, d, k, Rule::field) {
                return Err(Error::Semantic(SemanticError::DuplicateFieldName(fl.name)));
            }
            let ghost before = fields@;
            fields.push(fl);
            assert(fields@.drop_last() =~= before);
        } else {
            assert(!bare_block(c, k as int));
            match parse_block_attribute(input, q) {
                Ok(a) => {
                    let ghost before = attributes@;
                    attributes.push(a);
                    assert(attributes@.drop_last() =~= before);
                },
                Err(e) => {
                    return Err(e);
                },
            }
        }
        k = k + 1;
    }
    assert(c.take(c.len() as int) =~= c);
    Ok(Template { name, fields, attributes })
}

/// Converts entity declaration node `d`, refusing a field name given twice.
pub fn parse_entity_declaration(input: &[char], d: &Pair) -> (r: Result<Entity, Error>)
    requires
        wf_entity(input@, d@),
        no_bare_blocks(d@.inner),
    ensures
        match r {
            Ok(e) => members_err(input@, d@, 0) is None && entity_of(input@, d@, e),
            Err(e) => members_err(input@, d@, 0) matches Some(c) && error_is(e, c),
        },
{
    proof {
        lemma_children(d);
    }
    let ghost c = d@.inner;
    let mut schema: Option<String> = None;
    let mut name = String::new();
    let mut templates: Vec<String> = Vec::new();
    let mut inherits: Vec<String> = Vec::new();
    let mut fields: Vec<Field> = Vec::new();
    let mut attributes: Vec<BlockAttribute> = Vec::new();
    let mut k: usize = 0;
    while k < d.inner.len()
        invariant
            c == d@.inner,
            wf_entity(input@, d@),
            no_bare_blocks(c),
            c.len() == d.inner@.len(),
            forall|m: int| 0 <= m < d.inner@.len() ==> #[trigger] c[m] == d.inner@[m]@,
            k <= c.len(),
            schema_is(schema, declared_schema(input@, c.take(k as int))),
            name@ == declared_name(input@, c.take(k as int)),
            usage_names_ok(input@, c.take(k as int), Rule::template_usage, templates@),
            usage_names_ok(input@, c.take(k as int), Rule::inheritance_usage, inherits@),
            fields_ok(input@, c.take(k as int), fields@),
            block_attributes_ok(input@, c.take(k as int), attributes@),
            members_err(input@, d@, 0) == members_err(input@, d@, k as int),
        decreases c.len() - k,
    {
        let q = &d.inner[k];
        assert(wf_entity_part(input@, c[k as int]));
        proof {
            lemma_children(q);
            assert(c.take(k + 1).drop_last() =~= c.take(k as int));
            assert(c.take(k + 1).last() == c[k as int]);
        }
        if q.rule == Rule::schema_prefix {
            schema = Some(parse_schema_prefix(input, q));
        } else if q.rule == Rule::identifier {
            name = parse_identifier(input, q);
        } else if q.rule == Rule::template_usage {
            templates = parse_identifier_list(input, &q.inner[0]);
        } else if q.rule == Rule::inheritance_usage {
            inherits = parse_identifier_list(input, &q.inner[0]);
        } else if q.rule == Rule::field {
            let fl = match parse_field(input, q) {
                Ok(fl) => fl,
                Err(e) => {
                    return Err(e);
                },
            };
            proof {
                assert forall|j: int|
                    0 <= j < k && (#[trigger] c[j]).rule == Rule::field implies c[j].inner.len() >= 1
                    && span_ok(input@, c[j].inner[0]) by {
                    assert(wf_entity_part(input@, c[j]));
                }
            }
            if key_before_exec(input, d, k, Rule::field) {
                return Err(Error::Semantic(SemanticError::DuplicateFieldName(fl.name)));
            }
            let ghost before = fields@;
            fields.push(fl);
            assert(fields@.drop_last() =~= before);
        } else {
            assert(!bare_block(c, k as int));
            match parse_block_attribute(input, q) {
                Ok(a) => {
                    let ghost before = attributes@;
                    attributes.push(a);
                    assert(attributes@.drop_last() =~= before);
                },
                Err(e) => {
                    return Err(e);
                },
            }
        }
        k = k + 1;
    }
    assert(c.take(c.len() as int) =~= c);
    Ok(Entity { schema, name, templates, inherits, fields, attributes })
}


/// Converts declaration node `d`.
pub fn parse_declaration(input: &[char], d: &Pair) -> (r: Result<Declaration, Error>)
    requires
        wf_declaration(input@, d@),
        no_bare_blocks(d@.inner[0].inner),
    ensures
        match r {
            Ok(decl) => {
                &&& declaration_err(input@, d@) is None
                &&& declaration_of(input@, d@, decl)
                &&& decl.spec_name()@ == declaration_name(input@, d@)
            },
            Err(e) => declaration_err(input@, d@) matches Some(c) && error_is(e, c),
        },
{
    proof {
        lemma_children(d);
    }
    let x = &d.inner[0];
    if x.rule == Rule::enum_declaration {
        match parse_enum_declaration(input, x) {
            Ok(e) => Ok(Declaration::Enum(e)),
            Err(e) => Err(e),
        }
    } else if x.rule == Rule::template_declaration {
        match parse_template_declaration(input, x) {
            Ok(t) => Ok(Declaration::Template(t)),
            Err(e) => Err(e),
        }
    } else {
        match parse_entity_declaration(input, x) {
            Ok(e) => Ok(Declaration::Entity(e)),
            Err(e) => Err(e),
        }
    }
}

/// Converts config node `c`, refusing a key given twice.
pub fn parse_config(input: &[char], c: &Pair) -> (r: Result<Config, Error>)
    requires
        wf_config(input@, c@),
    ensures
        match r {
            Ok(cfg) => config_err(input@, c@, 0) is None && config_of(input@, c@, cfg),
            Err(e) => config_err(input@, c@, 0) matches Some(x) && error_is(e, x),
        },
{
    proof {
        lemma_children(c);
    }
    let ghost q = c@.inner;
    let mut entries: Vec<(String, Value)> = Vec::new();
    let mut k: usize = 0;
    while k < c.inner.len()
        invariant
            q == c@.inner,
            wf_config(input@, c@),
            q.len() == c.inner@.len(),
            forall|m: int| 0 <= m < c.inner@.len() ==> #[trigger] q[m] == c.inner@[m]@,
            k <= q.len(),
            entries@.len() == k,
            forall|m: int|
                0 <= m < k ==> {
                    &&& (#[trigger] entries@[m]).0@ == text(input@, q[m].inner[0])
                    &&& value_of(input@, q[m].inner[1], entries@[m].1)
                },
            config_err(input@, c@, 0) == config_err(input@, c@, k as int),
        decreases q.len() - k,
    {
        let entry = &c.inner[k];
        assert(wf_config_entry(input@, q[k as int]));
        proof {
            lemma_children(entry);
        }
        let key = parse_identifier(input, &entry.inner[0]);
        let value = match parse_value(input, &entry.inner[1]) {
            Ok(v) => v,
            Err(e) => {
                return Err(e);
            },
        };
        proof {
            assert forall|j: int|
                0 <= j < k && (#[trigger] q[j]).rule == Rule::config_entry implies q[j].inner.len() >= 1
                && span_ok(input@, q[j].inner[0]) by {
                assert(wf_config_entry(input@, q[j]));
            }
        }
        if key_before_exec(input, c, k, Rule::config_entry) {
            return Err(Error::Semantic(SemanticError::DuplicateConfigKey(key)));
        }
        entries.push((key, value));
        k = k + 1;
    }
    Ok(Config { entries })
}

/// Whether one of `names` is `name`.
fn contains_name(names: &Vec<String>, name: &String) -> (b: bool)
    ensures
        b == exists|m: int| 0 <= m < names@.len() && (#[trigger] names@[m])@ == name@,
{
    let mut m: usize = 0;
    while m < names.len()
        invariant
            m <= names@.len(),
            forall|j: int| 0 <= j < m ==> (#[trigger] names@[j])@ != name@,
        decreases names@.len() - m,
    {
        if str_eq(names[m].as_str(), name.as_str()) {
            return true;
        }
        m = m + 1;
    }
    false
}

/// `bare_block_in` found nothing from node `k0` on.
proof fn lemma_bare_in_none(c: Seq<SpecPair>, k0: int)
    requires
        0 <= k0,
        bare_block_in(c, k0) is None,
    ensures
        forall|k: int| k0 <= k < c.len() ==> !bare_block(c, k),
    decreases c.len() - k0,
{
    if k0 < c.len() {
        lemma_bare_in_none(c, k0 + 1);
    }
}

/// `bare_block_file` found nothing from child `k0` on.
proof fn lemma_bare_file_none(f: SpecPair, k0: int)
    requires
        0 <= k0,
        bare_block_file(f, k0) is None,
    ensures
        forall|k: int|
            k0 <= k < f.inner.len() && (#[trigger] f.inner[k]).rule == Rule::declaration
                && f.inner[k].inner.len() >= 1 ==> no_bare_blocks(f.inner[k].inner[0].inner),
    decreases f.inner.len() - k0,
{
    if k0 < f.inner.len() {
        lemma_bare_file_none(f, k0 + 1);
        if f.inner[k0].rule == Rule::declaration && f.inner[k0].inner.len() >= 1 {
            lemma_bare_in_none(f.inner[k0].inner[0].inner, 0);
        }
    }
}

/// Where the first block attribute among the children of `x` written without
/// parentheses should have them.
fn first_bare_in(x: &Pair) -> (r: Option<usize>)
    ensures
        r matches Some(o) ==> bare_block_in(x@.inner, 0) == Some(o as int),
        r is None ==> bare_block_in(x@.inner, 0) is None,
{
    proof {
        lemma_children(x);
    }
    let ghost c = x@.inner;
    let mut j: usize = 0;
    while j < x.inner.len()
        invariant
            c == x@.inner,
            c.len() == x.inner@.len(),
            forall|m: int| 0 <= m < x.inner@.len() ==> #[trigger] c[m] == x.inner@[m]@,
            j <= c.len(),
            bare_block_in(c, 0) == bare_block_in(c, j as int),
        decreases c.len() - j,
    {
        let q = &x.inner[j];
        proof {
            lemma_children(q);
        }
        if q.rule == Rule::block_attribute && q.inner.len() < 2 {
            return Some(q.end);
        }
        j = j + 1;
    }
    None
}

/// Where the first block attribute in the declarations of file node `f` written
/// without parentheses should have them.
fn first_bare_block(f: &Pair) -> (r: Option<usize>)
    ensures
        r matches Some(o) ==> bare_block_file(f@, 0) == Some(o as int),
        r is None ==> bare_block_file(f@, 0) is None,
{
    proof {
        lemma_children(f);
    }
    let ghost c = f@.inner;
    let mut k: usize = 0;
    while k < f.inner.len()
        invariant
            c == f@.inner,
            c.len() == f.inner@.len(),
            forall|m: int| 0 <= m < f.inner@.len() ==> #[trigger] c[m] == f.inner@[m]@,
            k <= c.len(),
            bare_block_file(f@, 0) == bare_block_file(f@, k as int),
        decreases c.len() - k,
    {
        let q = &f.inner[k];
        proof {
            lemma_children(q);
        }
        if q.rule == Rule::declaration && q.inner.len() >= 1 {
            match first_bare_in(&q.inner[0]) {
                Some(o) => {
                    return Some(o);
                },
                None => {},
            }
        }
        k = k + 1;
    }
    None
}

/// Converts file node `f`: a block attribute written without parentheses is a
/// syntax error; else the last config block and the declarations, refusing a
/// declaration whose name was declared before.
pub fn parse_file(input: &[char], f: &Pair) -> (r: Result<ConkFile, Error>)
    requires
        wf_file(input@, f@),
    ensures
        match bare_block_file(f@, 0) {
            Some(offset) => r matches Err(Error::Parse(e)) && e.offset == offset,
            None => match r {
                Ok(cf) => file_err(input@, f@, 0) is None && file_of(input@, f@, cf),
                Err(e) => file_err(input@, f@, 0) matches Some(x) && error_is(e, x),
            },
        },
{
    match first_bare_block(f) {
        Some(offset) => Err(Error::Parse(ParseError { offset })),
        None => convert_file(input, f),
    }
}

/// Converts file node `f`, none of whose block attributes lacks parentheses.
fn convert_file(input: &[char], f: &Pair) -> (r: Result<ConkFile, Error>)
    requires
        wf_file(input@, f@),
        bare_block_file(f@, 0) is None,
    ensures
        match r {
            Ok(cf) => file_err(input@, f@, 0) is None && file_of(input@, f@, cf),
            Err(e) => file_err(input@, f@, 0) matches Some(x) && error_is(e, x),
        },
{
    proof {
        lemma_children(f);
    }
    let ghost c = f@.inner;
    let mut config: Option<Config> = None;
    let mut declarations: Vec<Declaration> = Vec::new();
    let mut names: Vec<String> = Vec::new();
    let mut k: usize = 0;
    proof {
        lemma_bare_file_none(f@, 0);
    }
    while k < f.inner.len()
        invariant
            c == f@.inner,
            wf_file(input@, f@),
            forall|j: int|
                0 <= j < c.len() && (#[trigger] c[j]).rule == Rule::declaration && c[j].inner.len()
                    >= 1 ==> no_bare_blocks(c[j].inner[0].inner),
            c.len() == f.inner@.len(),
            forall|m: int| 0 <= m < f.inner@.len() ==> #[trigger] c[m] == f.inner@[m]@,
            k <= c.len(),
            match last_with(c.take(k as int), Rule::config) {
                Some(cn) => config matches Some(cfg) && config_of(input@, cn, cfg),
                None => config is None,
            },
            declarations_ok(input@, c.take(k as int), declarations@),
            forall|m: int|
                0 <= m < names@.len() ==> declared_in(input@, c, k as int, (#[trigger] names@[m])@),
            forall|j: int|
                0 <= j < k && (#[trigger] c[j]).rule == Rule::declaration ==> exists|m: int|
                    0 <= m < names@.len() && (#[trigger] names@[m])@ == declaration_name(input@, c[j]),
            file_err(input@, f@, 0) == file_err(input@, f@, k as int),
        decreases c.len() - k,
    {
        let q = &f.inner[k];
        assert(wf_config(input@, c[k as int]) || wf_declaration(input@, c[k as int]));
        proof {
            assert(c.take(k + 1).drop_last() =~= c.take(k as int));
            assert(c.take(k + 1).last() == c[k as int]);
        }
        let ghost old_names = names@;
        if q.rule == Rule::config {
            match parse_config(input, q) {
                Ok(cfg) => {
                    config = Some(cfg);
                },
                Err(e) => {
                    return Err(e);
                },
            }
        } else {
            let decl = match parse_declaration(input, q) {
                Ok(d) => d,
                Err(e) => {
                    return Err(e);
                },
            };
            let name = decl.name();
            if contains_name(&names, name) {
                proof {
                    let m = choose|m: int| 0 <= m < names@.len() && (#[trigger] names@[m])@ == name@;
                    assert(declared_in(input@, c, k as int, names@[m]@));
                }
                return Err(Error::Semantic(SemanticError::DuplicateDeclarationName(name.clone())));
            }
            let n = name.clone();
            names.push(n);
            let ghost before = declarations@;
            declarations.push(decl);
            assert(declarations@.drop_last() =~= before);
        }
        proof {
            assert forall|m: int| 0 <= m < names@.len() implies declared_in(
                input@,
                c,
                k + 1,
                (#[trigger] names@[m])@,
            ) by {
                if m < old_names.len() {
                    assert(names@[m] == old_names[m]);
                    assert(declared_in(input@, c, k as int, old_names[m]@));
                    let j = choose|j: int|
                        0 <= j < k && (#[trigger] c[j]).rule == Rule::declaration && declaration_name(
                            input@,
                            c[j],
                        ) == old_names[m]@;
                    assert(c[j].rule == Rule::declaration);
                } else {
                    assert(c[k as int].rule == Rule::declaration);
                }
            }
            assert forall|j: int| 0 <= j < k + 1 && (#[trigger] c[j]).rule == Rule::declaration implies exists|
                m: int,
            | 0 <= m < names@.len() && (#[trigger] names@[m])@ == declaration_name(input@, c[j]) by {
                if j < k {
                    let m = choose|m: int|
                        0 <= m < old_names.len() && (#[trigger] old_names[m])@ == declaration_name(
                            input@,
                            c[j],
                        );
                    assert(names@[m] == old_names[m]);
                } else {
                    assert(names@[names@.len() - 1]@ == declaration_name(input@, c[j]));
                }
            }
        }
        k = k + 1;
    }
    assert(c.take(c.len() as int) =~= c);
    Ok(ConkFile { config, declarations })
}

/// Reads `input` as a Conk file: the syntax error, the first error met
/// converting the tree, or the file.
pub fn parse_ast_from_string(input: &str) -> (r: Result<ConkFile, Error>)
    ensures
        file_result(input@, r),
{
    let chars = to_chars(input);
    match ConkParser::parse(Rule::file, chars.as_slice()) {
        Ok(p) => parse_file(chars.as_slice(), &p),
        Err(e) => Err(Error::Parse(e)),
    }
}

/// Reads the contents of a file, or passes on why they could not be had.
pub fn parse_ast_from_file(contents: Result<String, std::io::Error>) -> (r: Result<ConkFile, Error>)
    ensures
        match contents {
            Ok(text) => file_result(text@, r),
            Err(e) => r == Err::<ConkFile, Error>(Error::Io(e)),
        },
{
    match contents {
        Ok(text) => parse_ast_from_string(text.as_str()),
        Err(e) => Err(Error::Io(e)),
    }
}

} // verus!
