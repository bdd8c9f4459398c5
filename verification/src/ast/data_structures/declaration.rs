//! Enum, template and entity declarations of a `ConkAST`, and how they are
//! read from the parse tree.
use vstd::prelude::*;
use crate::ast::data_structures::attribute::{block_attributes_of, parse_attribute, BlockAttribute};
use crate::ast::data_structures::field::{field_of, parse_field, Field};
use crate::ast::data_structures::value::{
    int_err, ints_err, lemma_flat, lemma_ints_none,
};
use crate::ast::error::Error;
use crate::grammar::tree::{lemma_children, Pair, Rule, SpecPair};
use crate::grammar::wf::{
    span_ok, text, wf_entity, wf_entity_part, wf_enum, wf_enum_part, wf_ident, wf_identifier_list,
    wf_inheritance_list, wf_inheritance_usage, wf_name, wf_template, wf_template_part,
    wf_template_usage,
};
use crate::parser::convert::{declared_name, declared_schema, enum_values_ok, schema_is};
use crate::text::{chars_to_string, push_char, push_chars, string_literal_value, string_value};

verus! {

/// `"schema"? enum Name { values and block attributes }`
#[derive(Debug)]
pub struct EnumDeclaration {
    pub schema: Option<String>,
    pub name: String,
    pub values: Vec<String>,
    pub block_attributes: Vec<BlockAttribute>,
}

/// `template Name { fields and block attributes }`
#[derive(Debug)]
pub struct TemplateDeclaration {
    pub name: String,
    pub fields: Vec<Field>,
    pub block_attributes: Vec<BlockAttribute>,
}

/// `"schema"? entity Name : templates inherits (parents) { fields and block attributes }`
#[derive(Debug)]
pub struct EntityDeclaration {
    pub schema: Option<String>,
    pub name: String,
    pub templates: Vec<String>,
    pub inherits: Vec<String>,
    pub fields: Vec<Field>,
    pub block_attributes: Vec<BlockAttribute>,
}

/// The texts of strings.
pub open spec fn views(v: Seq<String>) -> Seq<Seq<char>> {
    v.map_values(|x: String| x@)
}

/// The texts of the children of list node `l`, in order.
pub open spec fn list_texts(s: Seq<char>, l: SpecPair) -> Seq<Seq<char>> {
    Seq::new(l.inner.len(), |k: int| text(s, l.inner[k]))
}

/// How a parent of an entity is recorded: `"schema".Name` with the schema's
/// value between the quotes, or the name as written.
pub open spec fn inherit_text(s: Seq<char>, n: SpecPair) -> Seq<char> {
    if n.rule == Rule::schema_identifier {
        seq!['"'] + string_value(text(s, n.inner[0])) + seq!['"', '.'] + text(s, n.inner[1])
    } else {
        text(s, n)
    }
}

/// How the parents listed in node `l` are recorded, in order.
pub open spec fn inherit_texts(s: Seq<char>, l: SpecPair) -> Seq<Seq<char>> {
    Seq::new(l.inner.len(), |k: int| inherit_text(s, l.inner[k]))
}

/// The templates that the usage nodes among `c` list, one usage after another.
pub open spec fn templates_in(s: Seq<char>, c: Seq<SpecPair>) -> Seq<Seq<char>>
    decreases c.len(),
{
    if c.len() == 0 {
        Seq::empty()
    } else if c.last().rule == Rule::template_usage {
        templates_in(s, c.drop_last()) + list_texts(s, c.last().inner[0])
    } else {
        templates_in(s, c.drop_last())
    }
}

/// The parents that the inheritance nodes among `c` list, one after another.
pub open spec fn inherits_in(s: Seq<char>, c: Seq<SpecPair>) -> Seq<Seq<char>>
    decreases c.len(),
{
    if c.len() == 0 {
        Seq::empty()
    } else if c.last().rule == Rule::inheritance_usage {
        inherits_in(s, c.drop_last()) + inherit_texts(s, c.last().inner[0])
    } else {
        inherits_in(s, c.drop_last())
    }
}

/// The field nodes among `c` denote, in order, `fields`.
pub open spec fn fields_of(s: Seq<char>, c: Seq<SpecPair>, fields: Seq<Field>) -> bool
    decreases c.len(),
{
    if c.len() == 0 {
        fields.len() == 0
    } else if c.last().rule == Rule::field {
        &&& fields.len() > 0
        &&& field_of(s, c.last(), fields.last())
        &&& fields_of(s, c.drop_last(), fields.drop_last())
    } else {
        fields_of(s, c.drop_last(), fields)
    }
}

/// Enum declaration node `d` denotes `e`.
pub open spec fn enum_of(s: Seq<char>, d: SpecPair, e: EnumDeclaration) -> bool {
    &&& schema_is(e.schema, declared_schema(s, d.inner))
    &&& e.name@ == declared_name(s, d.inner)
    &&& enum_values_ok(s, d.inner, e.values@)
    &&& block_attributes_of(s, d.inner, e.block_attributes@)
}

/// Template declaration node `d` denotes `t`.
pub open spec fn template_of(s: Seq<char>, d: SpecPair, t: TemplateDeclaration) -> bool {
    &&& t.name@ == declared_name(s, d.inner)
    &&& fields_of(s, d.inner, t.fields@)
    &&& block_attributes_of(s, d.inner, t.block_attributes@)
}

/// Entity declaration node `d` denotes `e`.
pub open spec fn entity_of(s: Seq<char>, d: SpecPair, e: EntityDeclaration) -> bool {
    &&& schema_is(e.schema, declared_schema(s, d.inner))
    &&& e.name@ == declared_name(s, d.inner)
    &&& views(e.templates@) == templates_in(s, d.inner)
    &&& views(e.inherits@) == inherits_in(s, d.inner)
    &&& fields_of(s, d.inner, e.fields@)
    &&& block_attributes_of(s, d.inner, e.block_attributes@)
}

/// The value of the string literal that node `p` covers: quotes removed, `\"`
/// read as `"`.
pub fn parse_schema(input: &[char], p: &Pair) -> (r: String)
    requires
        span_ok(input@, p@),
        p@.end - p@.start >= 2,
    ensures
        r@ == string_value(text(input@, p@)),
{
    string_literal_value(input, p.start, p.end)
}

/// Appends the texts of the children of identifier list node `l`.
fn push_list_texts(input: &[char], out: &mut Vec<String>, l: &Pair)
    requires
        wf_identifier_list(input@, l@),
    ensures
        views(final(out)@) == views(old(out)@) + list_texts(input@, l@),
{
    proof {
        lemma_children(l);
    }
    let ghost t = list_texts(input@, l@);
    let mut k: usize = 0;
    while k < l.inner.len()
        invariant
            wf_identifier_list(input@, l@),
            t == list_texts(input@, l@),
            l@.inner.len() == l.inner@.len(),
            forall|m: int| 0 <= m < l.inner@.len() ==> #[trigger] l@.inner[m] == l.inner@[m]@,
            k <= l@.inner.len(),
            views(out@) == views(old(out)@) + t.take(k as int),
        decreases l@.inner.len() - k,
    {
        let n = &l.inner[k];
        assert(wf_ident(input@, l@.inner[k as int]));
        let x = chars_to_string(input, n.start, n.end);
        let ghost before = out@;
        out.push(x);
        assert(views(out@) =~= views(before).push(x@));
        assert(t.take(k as int).push(t[k as int]) =~= t.take(k + 1));
        assert((views(old(out)@) + t.take(k as int)).push(t[k as int]) =~= views(old(out)@) + t.take(
            k + 1,
        ));
        k = k + 1;
    }
    assert(t.take(t.len() as int) =~= t);
}

/// How parent node `n` is recorded.
fn inherit_string(input: &[char], n: &Pair) -> (r: String)
    requires
        wf_name(input@, n@),
    ensures
        r@ == inherit_text(input@, n@),
{
    proof {
        lemma_children(n);
    }
    if n.rule == Rule::schema_identifier {
        let sc = parse_schema(input, &n.inner[0]);
        let id = &n.inner[1];
        let name = chars_to_string(input, id.start, id.end);
        let mut out = String::new();
        push_char(&mut out, '"');
        push_chars(&mut out, sc.as_str());
        push_char(&mut out, '"');
        push_char(&mut out, '.');
        push_chars(&mut out, name.as_str());
        assert(out@ =~= seq!['"'] + sc@ + seq!['"', '.'] + name@);
        out
    } else {
        chars_to_string(input, n.start, n.end)
    }
}

/// Appends how the parents listed in node `l` are recorded.
fn push_inherit_texts(input: &[char], out: &mut Vec<String>, l: &Pair)
    requires
        wf_inheritance_list(input@, l@),
    ensures
        views(final(out)@) == views(old(out)@) + inherit_texts(input@, l@),
{
    proof {
        lemma_children(l);
    }
    let ghost t = inherit_texts(input@, l@);
    let mut k: usize = 0;
    while k < l.inner.len()
        invariant
            wf_inheritance_list(input@, l@),
            t == inherit_texts(input@, l@),
            l@.inner.len() == l.inner@.len(),
            forall|m: int| 0 <= m < l.inner@.len() ==> #[trigger] l@.inner[m] == l.inner@[m]@,
            k <= l@.inner.len(),
            views(out@) == views(old(out)@) + t.take(k as int),
        decreases l@.inner.len() - k,
    {
        assert(wf_name(input@, l@.inner[k as int]));
        let x = inherit_string(input, &l.inner[k]);
        let ghost before = out@;
        out.push(x);
        assert(views(out@) =~= views(before).push(x@));
        assert(t.take(k as int).push(t[k as int]) =~= t.take(k + 1));
        assert((views(old(out)@) + t.take(k as int)).push(t[k as int]) =~= views(old(out)@) + t.take(
            k + 1,
        ));
        k = k + 1;
    }
    assert(t.take(t.len() as int) =~= t);
}


/// Converts enum declaration node `d`.
pub fn parse_enum_declaration(input: &[char], d: &Pair) -> (r: Result<EnumDeclaration, Error>)
    requires
        wf_enum(input@, d@),
    ensures
        match r {
            Ok(e) => int_err(input@, d@) is None && enum_of(input@, d@, e),
            Err(e) => int_err(input@, d@) matches Some(k) && e == Error::ParseInt(k),
        },
{
    proof {
        lemma_children(d);
    }
    let ghost c = d@.inner;
    let mut schema: Option<String> = None;
    let mut name = String::new();
    let mut values: Vec<String> = Vec::new();
    let mut block_attributes: Vec<BlockAttribute> = Vec::new();
    let mut k: usize = 0;
    while k < d.inner.len()
        invariant
            c == d@.inner,
            wf_enum(input@, d@),
            c.len() == d.inner@.len(),
            forall|m: int| 0 <= m < d.inner@.len() ==> #[trigger] c[m] == d.inner@[m]@,
            k <= c.len(),
            schema_is(schema, declared_schema(input@, c.take(k as int))),
            name@ == declared_name(input@, c.take(k as int)),
            enum_values_ok(input@, c.take(k as int), values@),
            block_attributes_of(input@, c.take(k as int), block_attributes@),
            int_err(input@, d@) == ints_err(input@, d@, k as int),
        decreases c.len() - k,
    {
        let q = &d.inner[k];
        assert(wf_enum_part(input@, c[k as int]));
        proof {
            lemma_children(q);
            assert(c.take(k + 1).drop_last() =~= c.take(k as int));
            assert(c.take(k + 1).last() == c[k as int]);
        }
        if q.rule == Rule::block_attribute {
            match parse_attribute(input, q) {
                Ok(a) => {
                    let ghost before = block_attributes@;
                    block_attributes.push(a);
                    assert(block_attributes@.drop_last() =~= before);
                },
                Err(e) => {
                    return Err(e);
                },
            }
        } else {
            proof {
                lemma_flat(input@, c[k as int]);
            }
            if q.rule == Rule::schema_prefix {
                assert(text(input@, q@) == text(input@, q@.inner[0]));
                schema = Some(parse_schema(input, q));
            } else if q.rule == Rule::identifier {
                name = chars_to_string(input, q.start, q.end);
            } else {
                let v = &q.inner[0];
                let ghost before = values@;
                values.push(chars_to_string(input, v.start, v.end));
                assert(values@.drop_last() =~= before);
            }
        }
        k = k + 1;
    }
    assert(c.take(c.len() as int) =~= c);
    Ok(EnumDeclaration { schema, name, values, block_attributes })
}

/// Converts template declaration node `d`.
pub fn parse_template_declaration(input: &[char], d: &Pair) -> (r: Result<
    TemplateDeclaration,
    Error,
>)
    requires
        wf_template(input@, d@),
    ensures
        match r {
            Ok(t) => int_err(input@, d@) is None && template_of(input@, d@, t),
            Err(e) => int_err(input@, d@) matches Some(k) && e == Error::ParseInt(k),
        },
{
    proof {
        lemma_children(d);
    }
    let ghost c = d@.inner;
    let mut name = String::new();
    let mut fields: Vec<Field> = Vec::new();
    let mut block_attributes: Vec<BlockAttribute> = Vec::new();
    let mut k: usize = 0;
    while k < d.inner.len()
        invariant
            c == d@.inner,
            wf_template(input@, d@),
            c.len() == d.inner@.len(),
            forall|m: int| 0 <= m < d.inner@.len() ==> #[trigger] c[m] == d.inner@[m]@,
            k <= c.len(),
            name@ == declared_name(input@, c.take(k as int)),
            fields_of(input@, c.take(k as int), fields@),
            block_attributes_of(input@, c.take(k as int), block_attributes@),
            int_err(input@, d@) == ints_err(input@, d@, k as int),
        decreases c.len() - k,
    {
        let q = &d.inner[k];
        assert(wf_template_part(input@, c[k as int]));
        proof {
            lemma_children(q);
            assert(c.take(k + 1).drop_last() =~= c.take(k as int));
            assert(c.take(k + 1).last() == c[k as int]);
        }
        if q.rule == Rule::identifier {
            proof {
                lemma_flat(input@, c[k as int]);
            }
            name = chars_to_string(input, q.start, q.end);
        } else if q.rule == Rule::field {
            match parse_field(input, q) {
                Ok(fl) => {
                    let ghost before = fields@;
                    fields.push(fl);
                    assert(fields@.drop_last() =~= before);
                },
                Err(e) => {
                    return Err(e);
                },
            }
        } else {
            match parse_attribute(input, q) {
                Ok(a) => {
                    let ghost before = block_attributes@;
                    block_attributes.push(a);
                    assert(block_attributes@.drop_last() =~= before);
                },
                Err(e) => {
                    return Err(e);
                },
            }
        }
        k = k + 1;
    }
    assert(c.take(c.len() as int) =~= c);
    Ok(TemplateDeclaration { name, fields, block_attributes })
}

/// Converts entity declaration node `d`.
pub fn parse_entity_declaration(input: &[char], d: &Pair) -> (r: Result<EntityDeclaration, Error>)
    requires
        wf_entity(input@, d@),
    ensures
        match r {
            Ok(e) => int_err(input@, d@) is None && entity_of(input@, d@, e),
            Err(e) => int_err(input@, d@) matches Some(k) && e == Error::ParseInt(k),
        },
{
    proof {
        lemma_children(d);
    }
    let ghost c = d@.inner;
    let mut schema: Option<String> = None;
    let mut name = String::new();
    let mut templates: Vec<String> = Vec::new();
    let mut inherits: Vec<String> = Vec::new();
    let mut fields: Vec<Field> = Vec::new();
    let mut block_attributes: Vec<BlockAttribute> = Vec::new();
    let mut k: usize = 0;
    assert(views(templates@) =~= Seq::<Seq<char>>::empty());
    assert(views(inherits@) =~= Seq::<Seq<char>>::empty());
    while k < d.inner.len()
        invariant
            c == d@.inner,
            wf_entity(input@, d@),
            c.len() == d.inner@.len(),
            forall|m: int| 0 <= m < d.inner@.len() ==> #[trigger] c[m] == d.inner@[m]@,
            k <= c.len(),
            schema_is(schema, declared_schema(input@, c.take(k as int))),
            name@ == declared_name(input@, c.take(k as int)),
            views(templates@) == templates_in(input@, c.take(k as int)),
            views(inherits@) == inherits_in(input@, c.take(k as int)),
            fields_of(input@, c.take(k as int), fields@),
            block_attributes_of(input@, c.take(k as int), block_attributes@),
            int_err(input@, d@) == ints_err(input@, d@, k as int),
        decreases c.len() - k,
    {
        let q = &d.inner[k];
        assert(wf_entity_part(input@, c[k as int]));
        proof {
            lemma_children(q);
            assert(c.take(k + 1).drop_last() =~= c.take(k as int));
            assert(c.take(k + 1).last() == c[k as int]);
        }
        if q.rule == Rule::field {
            match parse_field(input, q) {
                Ok(fl) => {
                    let ghost before = fields@;
                    fields.push(fl);
                    assert(fields@.drop_last() =~= before);
                },
                Err(e) => {
                    return Err(e);
                },
            }
        } else if q.rule == Rule::block_attribute {
            match parse_attribute(input, q) {
                Ok(a) => {
                    let ghost before = block_attributes@;
                    block_attributes.push(a);
                    assert(block_attributes@.drop_last() =~= before);
                },
                Err(e) => {
                    return Err(e);
                },
            }
        } else if q.rule == Rule::schema_prefix {
            proof {
                lemma_flat(input@, c[k as int]);
            }
            assert(text(input@, q@) == text(input@, q@.inner[0]));
            schema = Some(parse_schema(input, q));
        } else if q.rule == Rule::identifier {
            proof {
                lemma_flat(input@, c[k as int]);
            }
            name = chars_to_string(input, q.start, q.end);
        } else if q.rule == Rule::template_usage {
            proof {
                lemma_usage_no_int(input@, c[k as int]);
            }
            push_list_texts(input, &mut templates, &q.inner[0]);
        } else {
            proof {
                lemma_usage_no_int(input@, c[k as int]);
            }
            push_inherit_texts(input, &mut inherits, &q.inner[0]);
        }
        k = k + 1;
    }
    assert(c.take(c.len() as int) =~= c);
    Ok(EntityDeclaration { schema, name, templates, inherits, fields, block_attributes })
}

/// A template or inheritance usage holds no integer literal.
pub proof fn lemma_usage_no_int(s: Seq<char>, u: SpecPair)
    requires
        wf_template_usage(s, u) || wf_inheritance_usage(s, u),
    ensures
        int_err(s, u) is None,
{
    let l = u.inner[0];
    assert forall|j: int| 0 <= j < l.inner.len() implies int_err(s, #[trigger] l.inner[j]) is None by {
        if wf_template_usage(s, u) {
            assert(wf_ident(s, l.inner[j]));
        } else {
            assert(wf_name(s, l.inner[j]));
        }
        lemma_flat(s, l.inner[j]);
    }
    lemma_ints_none(s, l);
    lemma_ints_none(s, u);
}

} // verus!
