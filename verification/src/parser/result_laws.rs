//! Reading a text has one result: two results that meet `file_result` for the
//! same text hold the same values, string for string and number for number.
use vstd::prelude::*;
use crate::ast::attribute::{ArgumentList, BlockAttribute, FieldAttribute, NamedArgument};
use crate::ast::config::Config;
use crate::ast::declaration::Declaration;
use crate::ast::field::{Field, TypeExpr};
use crate::ast::file::ConkFile;
use crate::ast::value::Value;
use crate::grammar::tree::{Rule, SpecPair};
use crate::grammar::wf::text;
use crate::parser::convert::{
    attribute_of, block_attributes_ok, config_of, declaration_of, declarations_ok, enum_values_ok,
    field_of, fields_ok, file_of, file_result, is_positional, last_with, split_ok, type_of,
    value_of,
};
use crate::parser::error::{error_is, ConvertError, Error, SemanticError};

verus! {

/// The strings `a` and `b` hold the same characters, one by one.
pub open spec fn same_strings(a: Seq<String>, b: Seq<String>) -> bool {
    &&& a.len() == b.len()
    &&& forall|k: int| 0 <= k < a.len() ==> (#[trigger] a[k])@ == b[k]@
}

/// Both absent, or both present with the same characters.
pub open spec fn same_opt(a: Option<String>, b: Option<String>) -> bool {
    match a {
        Some(x) => b matches Some(y) && x@ == y@,
        None => b is None,
    }
}

/// Values `a` and `b` are the same value.
pub open spec fn same_value(a: Value, b: Value) -> bool
    decreases a,
{
    match a {
        Value::String(x) => b matches Value::String(y) && x@ == y@,
        Value::Integer(n) => b matches Value::Integer(m) && n == m,
        Value::Float(x) => b matches Value::Float(y) && x@ == y@,
        Value::Identifier(x) => b matches Value::Identifier(y) && x@ == y@,
        Value::QualifiedIdentifier(xs) => b matches Value::QualifiedIdentifier(ys) && same_strings(
            xs@,
            ys@,
        ),
        Value::FunctionCall { name, args } => b matches Value::FunctionCall { name: n2, args: a2 }
            && name@ == n2@ && same_args(args, a2),
        Value::List(items) => b matches Value::List(i2) && items@.len() == i2@.len() && forall|k: int|
            0 <= k < items@.len() ==> same_value(#[trigger] items@[k], i2@[k]),
    }
}

/// Argument lists `a` and `b` are the same, argument for argument.
pub open spec fn same_args(a: ArgumentList, b: ArgumentList) -> bool
    decreases a,
{
    &&& a.positional@.len() == b.positional@.len()
    &&& forall|k: int|
        0 <= k < a.positional@.len() ==> same_value(#[trigger] a.positional@[k], b.positional@[k])
    &&& a.named@.len() == b.named@.len()
    &&& forall|k: int|
        0 <= k < a.named@.len() ==> (#[trigger] a.named@[k]).name@ == b.named@[k].name@ && same_value(
            a.named@[k].value,
            b.named@[k].value,
        )
}

/// Block attributes `a` and `b` are the same, attribute for attribute.
pub open spec fn same_block_attributes(a: Seq<BlockAttribute>, b: Seq<BlockAttribute>) -> bool {
    &&& a.len() == b.len()
    &&& forall|k: int|
        0 <= k < a.len() ==> (#[trigger] a[k]).name@ == b[k].name@ && same_args(a[k].args, b[k].args)
}

/// Field attributes `a` and `b` are the same, attribute for attribute.
pub open spec fn same_field_attributes(a: Seq<FieldAttribute>, b: Seq<FieldAttribute>) -> bool {
    &&& a.len() == b.len()
    &&& forall|k: int|
        0 <= k < a.len() ==> (#[trigger] a[k]).name@ == b[k].name@ && same_args(a[k].args, b[k].args)
}

/// Types `a` and `b` are the same.
pub open spec fn same_type(a: TypeExpr, b: TypeExpr) -> bool {
    &&& a.name@ == b.name@
    &&& a.params@.len() == b.params@.len()
    &&& forall|k: int| 0 <= k < a.params@.len() ==> same_value(#[trigger] a.params@[k], b.params@[k])
}

/// Fields `a` and `b` are the same.
pub open spec fn same_field(a: Field, b: Field) -> bool {
    &&& a.name@ == b.name@
    &&& same_type(a.type_, b.type_)
    &&& same_field_attributes(a.attributes@, b.attributes@)
}

/// Fields `a` and `b` are the same, field for field.
pub open spec fn same_fields(a: Seq<Field>, b: Seq<Field>) -> bool {
    &&& a.len() == b.len()
    &&& forall|k: int| 0 <= k < a.len() ==> same_field(#[trigger] a[k], b[k])
}

/// Declarations `a` and `b` are the same.
pub open spec fn same_declaration(a: Declaration, b: Declaration) -> bool {
    match a {
        Declaration::Enum(x) => b matches Declaration::Enum(y) && same_opt(x.schema, y.schema)
            && x.name@ == y.name@ && same_strings(x.values@, y.values@) && same_block_attributes(
            x.attributes@,
            y.attributes@,
        ),
        Declaration::Template(x) => b matches Declaration::Template(y) && x.name@ == y.name@
            && same_fields(x.fields@, y.fields@) && same_block_attributes(
            x.attributes@,
            y.attributes@,
        ),
        Declaration::Entity(x) => b matches Declaration::Entity(y) && same_opt(x.schema, y.schema)
            && x.name@ == y.name@ && same_strings(x.templates@, y.templates@) && same_strings(
            x.inherits@,
            y.inherits@,
        ) && same_fields(x.fields@, y.fields@) && same_block_attributes(
            x.attributes@,
            y.attributes@,
        ),
    }
}

/// Declarations `a` and `b` are the same, declaration for declaration.
pub open spec fn same_declarations(a: Seq<Declaration>, b: Seq<Declaration>) -> bool {
    &&& a.len() == b.len()
    &&& forall|k: int| 0 <= k < a.len() ==> same_declaration(#[trigger] a[k], b[k])
}

/// Config blocks `a` and `b` are the same, entry for entry.
pub open spec fn same_config(a: Config, b: Config) -> bool {
    &&& a.entries@.len() == b.entries@.len()
    &&& forall|k: int|
        0 <= k < a.entries@.len() ==> (#[trigger] a.entries@[k]).0@ == b.entries@[k].0@ && same_value(
            a.entries@[k].1,
            b.entries@[k].1,
        )
}

/// Files `a` and `b` are the same.
pub open spec fn same_file(a: ConkFile, b: ConkFile) -> bool {
    &&& match a.config {
        Some(x) => b.config matches Some(y) && same_config(x, y),
        None => b.config is None,
    }
    &&& same_declarations(a.declarations@, b.declarations@)
}

/// Semantic errors `a` and `b` are the same.
pub open spec fn same_semantic(a: SemanticError, b: SemanticError) -> bool {
    match a {
        SemanticError::DuplicateConfigKey(x) => b matches SemanticError::DuplicateConfigKey(y) && x@
            == y@,
        SemanticError::DuplicateDeclarationName(x) => b matches SemanticError::DuplicateDeclarationName(
            y,
        ) && x@ == y@,
        SemanticError::DuplicateEnumValue(x) => b matches SemanticError::DuplicateEnumValue(y) && x@
            == y@,
        SemanticError::DuplicateFieldName(x) => b matches SemanticError::DuplicateFieldName(y) && x@
            == y@,
        SemanticError::DuplicateFieldAttribute { field, attribute } => b matches SemanticError::DuplicateFieldAttribute {
            field: f2,
            attribute: a2,
        } && field@ == f2@ && attribute@ == a2@,
        SemanticError::DuplicateArgumentName(x) => b matches SemanticError::DuplicateArgumentName(y)
            && x@ == y@,
    }
}

/// Errors `a` and `b` are the same.
pub open spec fn same_error(a: Error, b: Error) -> bool {
    match a {
        Error::Io(x) => b matches Error::Io(y) && x == y,
        Error::Parse(x) => b matches Error::Parse(y) && x == y,
        Error::ParseInt(x) => b matches Error::ParseInt(y) && x == y,
        Error::Semantic(x) => b matches Error::Semantic(y) && same_semantic(x, y),
    }
}

/// Results `a` and `b` are the same file, or the same error.
pub open spec fn same_result(a: Result<ConkFile, Error>, b: Result<ConkFile, Error>) -> bool {
    match a {
        Ok(x) => b matches Ok(y) && same_file(x, y),
        Err(x) => b matches Err(y) && same_error(x, y),
    }
}

/// Two values denoted by one node are the same.
proof fn lemma_value_same(s: Seq<char>, p: SpecPair, v1: Value, v2: Value)
    requires
        value_of(s, p, v1),
        value_of(s, p, v2),
    ensures
        same_value(v1, v2),
    decreases p,
{
    if p.rule == Rule::list_literal {
        let i1 = v1->List_0;
        let i2 = v2->List_0;
        if p.inner.len() >= 1 {
            assert forall|k: int| 0 <= k < i1@.len() implies same_value(#[trigger] i1@[k], i2@[k]) by {
                assert(decreases_to!(p => p.inner[0].inner[k]));
                lemma_value_same(s, p.inner[0].inner[k], i1@[k], i2@[k]);
            }
        }
    } else if p.rule == Rule::function_call {
        let a1 = v1->args;
        let a2 = v2->args;
        if p.inner.len() >= 2 {
            assert(decreases_to!(p => p.inner[1].inner));
            lemma_split_same(s, p.inner[1].inner, a1.positional@, a1.named@, a2.positional@, a2.named@);
        }
        assert(same_args(a1, a2));
    } else if p.rule == Rule::qualified_identifier || p.rule == Rule::schema_qualified_identifier {
        let x1 = v1->QualifiedIdentifier_0;
        let x2 = v2->QualifiedIdentifier_0;
        assert forall|k: int| 0 <= k < x1@.len() implies (#[trigger] x1@[k])@ == x2@[k]@ by {
            if k > 0 || p.rule == Rule::qualified_identifier {
                assert(x1@[k]@ == text(s, p.inner[k]));
            }
        }
    }
}

/// Two readings of the same argument nodes give the same arguments.
proof fn lemma_split_same(
    s: Seq<char>,
    args: Seq<SpecPair>,
    p1: Seq<Value>,
    n1: Seq<NamedArgument>,
    p2: Seq<Value>,
    n2: Seq<NamedArgument>,
)
    requires
        split_ok(s, args, p1, n1),
        split_ok(s, args, p2, n2),
    ensures
        p1.len() == p2.len(),
        forall|k: int| 0 <= k < p1.len() ==> same_value(#[trigger] p1[k], p2[k]),
        n1.len() == n2.len(),
        forall|k: int|
            0 <= k < n1.len() ==> (#[trigger] n1[k]).name@ == n2[k].name@ && same_value(
                n1[k].value,
                n2[k].value,
            ),
    decreases args,
{
    if args.len() > 0 {
        let last = args.last();
        if is_positional(last) {
            lemma_split_same(s, args.drop_last(), p1.drop_last(), n1, p2.drop_last(), n2);
            assert(decreases_to!(args => last.inner[0].inner[0]));
            lemma_value_same(s, last.inner[0].inner[0], p1.last(), p2.last());
            assert forall|k: int| 0 <= k < p1.len() implies same_value(#[trigger] p1[k], p2[k]) by {
                if k < p1.len() - 1 {
                    assert(p1[k] == p1.drop_last()[k]);
                    assert(p2[k] == p2.drop_last()[k]);
                }
            }
        } else {
            lemma_split_same(s, args.drop_last(), p1, n1.drop_last(), p2, n2.drop_last());
            assert(decreases_to!(args => last.inner[0].inner[1]));
            lemma_value_same(s, last.inner[0].inner[1], n1.last().value, n2.last().value);
            assert forall|k: int| 0 <= k < n1.len() implies (#[trigger] n1[k]).name@ == n2[k].name@
                && same_value(n1[k].value, n2[k].value) by {
                if k < n1.len() - 1 {
                    assert(n1[k] == n1.drop_last()[k]);
                    assert(n2[k] == n2.drop_last()[k]);
                }
            }
        }
    }
}

/// Two readings of one attribute node give the same name and arguments.
proof fn lemma_attribute_same(
    s: Seq<char>,
    a: SpecPair,
    name1: String,
    args1: ArgumentList,
    name2: String,
    args2: ArgumentList,
)
    requires
        attribute_of(s, a, name1, args1),
        attribute_of(s, a, name2, args2),
    ensures
        name1@ == name2@,
        same_args(args1, args2),
{
    if a.inner.len() >= 2 && a.inner[1].inner.len() >= 1 {
        lemma_split_same(
            s,
            a.inner[1].inner[0].inner,
            args1.positional@,
            args1.named@,
            args2.positional@,
            args2.named@,
        );
    }
}

proof fn lemma_block_attributes_same(
    s: Seq<char>,
    c: Seq<SpecPair>,
    a1: Seq<BlockAttribute>,
    a2: Seq<BlockAttribute>,
)
    requires
        block_attributes_ok(s, c, a1),
        block_attributes_ok(s, c, a2),
    ensures
        same_block_attributes(a1, a2),
    decreases c.len(),
{
    if c.len() > 0 {
        if c.last().rule == Rule::block_attribute {
            lemma_block_attributes_same(s, c.drop_last(), a1.drop_last(), a2.drop_last());
            lemma_attribute_same(s, c.last(), a1.last().name, a1.last().args, a2.last().name, a2.last().args);
            assert forall|k: int| 0 <= k < a1.len() implies (#[trigger] a1[k]).name@ == a2[k].name@
                && same_args(a1[k].args, a2[k].args) by {
                if k < a1.len() - 1 {
                    assert(a1[k] == a1.drop_last()[k]);
                    assert(a2[k] == a2.drop_last()[k]);
                }
            }
        } else {
            lemma_block_attributes_same(s, c.drop_last(), a1, a2);
        }
    }
}

proof fn lemma_field_same(s: Seq<char>, f: SpecPair, x: Field, y: Field)
    requires
        field_of(s, f, x),
        field_of(s, f, y),
    ensures
        same_field(x, y),
{
    let ft = f.inner[1];
    assert(type_of(s, ft, x.type_) && type_of(s, ft, y.type_));
    if ft.inner.len() >= 2 && ft.inner[1].inner.len() >= 1 {
        assert forall|k: int| 0 <= k < x.type_.params@.len() implies same_value(
            #[trigger] x.type_.params@[k],
            y.type_.params@[k],
        ) by {
            lemma_value_same(s, ft.inner[1].inner[0].inner[k], x.type_.params@[k], y.type_.params@[k]);
        }
    }
    assert forall|k: int| 0 <= k < x.attributes@.len() implies (#[trigger] x.attributes@[k]).name@
        == y.attributes@[k].name@ && same_args(x.attributes@[k].args, y.attributes@[k].args) by {
        lemma_attribute_same(
            s,
            f.inner[k + 2],
            x.attributes@[k].name,
            x.attributes@[k].args,
            y.attributes@[k].name,
            y.attributes@[k].args,
        );
    }
}

proof fn lemma_fields_same(s: Seq<char>, c: Seq<SpecPair>, a: Seq<Field>, b: Seq<Field>)
    requires
        fields_ok(s, c, a),
        fields_ok(s, c, b),
    ensures
        same_fields(a, b),
    decreases c.len(),
{
    if c.len() > 0 {
        if c.last().rule == Rule::field {
            lemma_fields_same(s, c.drop_last(), a.drop_last(), b.drop_last());
            lemma_field_same(s, c.last(), a.last(), b.last());
            assert forall|k: int| 0 <= k < a.len() implies same_field(#[trigger] a[k], b[k]) by {
                if k < a.len() - 1 {
                    assert(a[k] == a.drop_last()[k]);
                    assert(b[k] == b.drop_last()[k]);
                }
            }
        } else {
            lemma_fields_same(s, c.drop_last(), a, b);
        }
    }
}

proof fn lemma_enum_values_same(s: Seq<char>, c: Seq<SpecPair>, a: Seq<String>, b: Seq<String>)
    requires
        enum_values_ok(s, c, a),
        enum_values_ok(s, c, b),
    ensures
        same_strings(a, b),
    decreases c.len(),
{
    if c.len() > 0 {
        if c.last().rule == Rule::enum_value {
            lemma_enum_values_same(s, c.drop_last(), a.drop_last(), b.drop_last());
            assert forall|k: int| 0 <= k < a.len() implies (#[trigger] a[k])@ == b[k]@ by {
                if k < a.len() - 1 {
                    assert(a[k] == a.drop_last()[k]);
                    assert(b[k] == b.drop_last()[k]);
                }
            }
        } else {
            lemma_enum_values_same(s, c.drop_last(), a, b);
        }
    }
}

proof fn lemma_declaration_same(s: Seq<char>, d: SpecPair, x: Declaration, y: Declaration)
    requires
        declaration_of(s, d, x),
        declaration_of(s, d, y),
    ensures
        same_declaration(x, y),
{
    let n = d.inner[0];
    match x {
        Declaration::Enum(e1) => {
            let e2 = y->Enum_0;
            lemma_enum_values_same(s, n.inner, e1.values@, e2.values@);
            lemma_block_attributes_same(s, n.inner, e1.attributes@, e2.attributes@);
        },
        Declaration::Template(t1) => {
            let t2 = y->Template_0;
            lemma_fields_same(s, n.inner, t1.fields@, t2.fields@);
            lemma_block_attributes_same(s, n.inner, t1.attributes@, t2.attributes@);
        },
        Declaration::Entity(e1) => {
            let e2 = y->Entity_0;
            lemma_fields_same(s, n.inner, e1.fields@, e2.fields@);
            lemma_block_attributes_same(s, n.inner, e1.attributes@, e2.attributes@);
        },
    }
}

proof fn lemma_declarations_same(s: Seq<char>, c: Seq<SpecPair>, a: Seq<Declaration>, b: Seq<Declaration>)
    requires
        declarations_ok(s, c, a),
        declarations_ok(s, c, b),
    ensures
        same_declarations(a, b),
    decreases c.len(),
{
    if c.len() > 0 {
        if c.last().rule == Rule::declaration {
            lemma_declarations_same(s, c.drop_last(), a.drop_last(), b.drop_last());
            lemma_declaration_same(s, c.last(), a.last(), b.last());
            assert forall|k: int| 0 <= k < a.len() implies same_declaration(#[trigger] a[k], b[k]) by {
                if k < a.len() - 1 {
                    assert(a[k] == a.drop_last()[k]);
                    assert(b[k] == b.drop_last()[k]);
                }
            }
        } else {
            lemma_declarations_same(s, c.drop_last(), a, b);
        }
    }
}

proof fn lemma_file_same(s: Seq<char>, p: SpecPair, x: ConkFile, y: ConkFile)
    requires
        file_of(s, p, x),
        file_of(s, p, y),
    ensures
        same_file(x, y),
{
    if let Some(c) = last_with(p.inner, Rule::config) {
        let c1 = x.config->Some_0;
        let c2 = y.config->Some_0;
        assert(config_of(s, c, c1) && config_of(s, c, c2));
        assert forall|k: int| 0 <= k < c1.entries@.len() implies (#[trigger] c1.entries@[k]).0@
            == c2.entries@[k].0@ && same_value(c1.entries@[k].1, c2.entries@[k].1) by {
            lemma_value_same(s, c.inner[k].inner[1], c1.entries@[k].1, c2.entries@[k].1);
        }
    }
    lemma_declarations_same(s, p.inner, x.declarations@, y.declarations@);
}

proof fn lemma_error_same(x: Error, y: Error, c: ConvertError)
    requires
        error_is(x, c),
        error_is(y, c),
    ensures
        same_error(x, y),
{
}

/// Reading a text has one result: two results that `file_result` admits for
/// the same text are the same file, string for string and number for number,
/// or the same error. So the file reader, given the contents it read, and the
/// string reader, given the same text, agree.
pub proof fn law_one_result(
    input: Seq<char>,
    r1: Result<ConkFile, Error>,
    r2: Result<ConkFile, Error>,
)
    requires
        file_result(input, r1),
        file_result(input, r2),
    ensures
        same_result(r1, r2),
{
    match crate::grammar::rules::parse_spec(input, Rule::file) {
        Err(_) => {},
        Ok(p) => {
            if crate::parser::convert::bare_block_file(p, 0) is None {
                match crate::parser::convert::file_err(input, p, 0) {
                    Some(c) => {
                        lemma_error_same(r1->Err_0, r2->Err_0, c);
                    },
                    None => {
                        lemma_file_same(input, p, r1->Ok_0, r2->Ok_0);
                    },
                }
            }
        },
    }
}

} // verus!
