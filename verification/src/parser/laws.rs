//! What every file that reads without error guarantees: nothing in it is stated
//! twice where the reader refuses that.
use vstd::prelude::*;
use crate::ast::data_structures::declaration::lemma_usage_no_int;
use crate::ast::data_structures::value::{
    int_err, ints_err, lemma_flat, lemma_ints_none, lemma_last_child, lemma_name_no_int,
};
use crate::ast::data_structures::declaration::{
    EntityDeclaration, EnumDeclaration, TemplateDeclaration,
};
use crate::ast::data_structures::{
    ast_result, declares, entities_of, enums_of, templates_of, ConkAST,
};
use crate::ast::attribute::{ArgumentList, BlockAttribute, NamedArgument};
use crate::ast::declaration::Declaration;
use crate::ast::field::Field;
use crate::ast::value::Value;
use crate::ast::file::ConkFile;
use crate::grammar::rules::parse_spec;
use crate::grammar::tree::{Rule, SpecPair};
use crate::grammar::wf::{
    lemma_parse_wf, text, wf_argument, wf_argument_list, wf_attribute, wf_config,
    wf_config_entry, wf_declaration, wf_entity, wf_entity_part, wf_enum_part, wf_field, wf_file,
    wf_ident, wf_string, wf_template, wf_template_part, wf_value, wf_value_list,
};
use crate::parser::convert::{
    bare_block_file,
    arguments_err, attribute_err, attribute_of, block_attributes_ok, is_positional,
    lemma_arguments_err_none, lemma_named_distinct, split_ok, value_err, value_of, values_err,
    config_err, config_of, declaration_err, declaration_name, declaration_of, declarations_ok,
    declared_in, enum_err, enum_values_ok, field_attributes_err, field_err, field_of, fields_ok,
    file_err, file_of, file_result, key_before, keyed_in, last_with, members_err,
};

verus! {

/// Dropping the last node of `c` keeps what comes before node `k`.
proof fn lemma_keyed_prefix(s: Seq<char>, c: Seq<SpecPair>, n: int, r: Rule, x: Seq<char>)
    requires
        0 <= n < c.len(),
    ensures
        keyed_in(s, c.drop_last(), n, r, x) == keyed_in(s, c, n, r, x),
{
    if keyed_in(s, c, n, r, x) {
        let j = choose|j: int| 0 <= j < n && (#[trigger] c[j]).rule == r && text(s, c[j].inner[0]) == x;
        assert(c.drop_last()[j] == c[j]);
    }
    if keyed_in(s, c.drop_last(), n, r, x) {
        let j = choose|j: int|
            0 <= j < n && (#[trigger] c.drop_last()[j]).rule == r && text(s, c.drop_last()[j].inner[0])
                == x;
        assert(c.drop_last()[j] == c[j]);
    }
}

/// A name keyed among the first `n` nodes is keyed among more of them.
proof fn lemma_keyed_grow(s: Seq<char>, c: Seq<SpecPair>, n: int, m: int, r: Rule, x: Seq<char>)
    requires
        n <= m,
        keyed_in(s, c, n, r, x),
    ensures
        keyed_in(s, c, m, r, x),
{
    let j = choose|j: int| 0 <= j < n && (#[trigger] c[j]).rule == r && text(s, c[j].inner[0]) == x;
    assert(c[j].rule == r);
}

/// No node of `c` with rule `r` repeats the first-child text of an earlier one.
pub open spec fn no_key_repeats(s: Seq<char>, c: Seq<SpecPair>, r: Rule) -> bool {
    forall|k: int| 0 <= k < c.len() && (#[trigger] c[k]).rule == r ==> !key_before(s, c, k, r)
}

proof fn lemma_no_key_repeats_prefix(s: Seq<char>, c: Seq<SpecPair>, r: Rule)
    requires
        c.len() > 0,
        no_key_repeats(s, c, r),
    ensures
        no_key_repeats(s, c.drop_last(), r),
{
    let c2 = c.drop_last();
    assert forall|k: int| 0 <= k < c2.len() && (#[trigger] c2[k]).rule == r implies !key_before(
        s,
        c2,
        k,
        r,
    ) by {
        assert(c2[k] == c[k]);
        lemma_keyed_prefix(s, c, k, r, text(s, c[k].inner[0]));
        assert(!key_before(s, c, k, r));
    }
}

/// Enum values read in order from nodes in which no value repeats an earlier one
/// are distinct, and each is the text of a value node.
proof fn lemma_enum_values_distinct(s: Seq<char>, c: Seq<SpecPair>, vals: Seq<String>)
    requires
        enum_values_ok(s, c, vals),
        no_key_repeats(s, c, Rule::enum_value),
    ensures
        forall|i: int, j: int| 0 <= i < j < vals.len() ==> vals[i]@ != vals[j]@,
        forall|i: int|
            0 <= i < vals.len() ==> keyed_in(s, c, c.len() as int, Rule::enum_value, (#[trigger] vals[i])@),
    decreases c.len(),
{
    if c.len() > 0 {
        let c2 = c.drop_last();
        let n = c.len() - 1;
        lemma_no_key_repeats_prefix(s, c, Rule::enum_value);
        if c.last().rule == Rule::enum_value {
            let v2 = vals.drop_last();
            lemma_enum_values_distinct(s, c2, v2);
            assert(!key_before(s, c, n, Rule::enum_value));
            assert forall|i: int, j: int| 0 <= i < j < vals.len() implies vals[i]@ != vals[j]@ by {
                assert(vals[i] == v2[i]);
                if j < vals.len() - 1 {
                    assert(vals[j] == v2[j]);
                } else {
                    assert(keyed_in(s, c2, n, Rule::enum_value, v2[i]@));
                    lemma_keyed_prefix(s, c, n, Rule::enum_value, v2[i]@);
                }
            }
            assert forall|i: int| 0 <= i < vals.len() implies keyed_in(
                s,
                c,
                c.len() as int,
                Rule::enum_value,
                (#[trigger] vals[i])@,
            ) by {
                if i < vals.len() - 1 {
                    assert(vals[i] == v2[i]);
                    assert(keyed_in(s, c2, n, Rule::enum_value, v2[i]@));
                    lemma_keyed_prefix(s, c, n, Rule::enum_value, v2[i]@);
                    lemma_keyed_grow(s, c, n, c.len() as int, Rule::enum_value, v2[i]@);
                } else {
                    assert(c[n].rule == Rule::enum_value);
                }
            }
        } else {
            lemma_enum_values_distinct(s, c2, vals);
            assert forall|i: int| 0 <= i < vals.len() implies keyed_in(
                s,
                c,
                c.len() as int,
                Rule::enum_value,
                (#[trigger] vals[i])@,
            ) by {
                lemma_keyed_prefix(s, c, n, Rule::enum_value, vals[i]@);
                lemma_keyed_grow(s, c, n, c.len() as int, Rule::enum_value, vals[i]@);
            }
        }
    }
}

/// Some field node of `c` denotes `fl`.
pub open spec fn field_node_in(s: Seq<char>, c: Seq<SpecPair>, fl: Field) -> bool {
    exists|k: int| 0 <= k < c.len() && (#[trigger] c[k]).rule == Rule::field && field_of(s, c[k], fl)
}

/// Fields read in order from nodes in which no field name repeats an earlier
/// one have distinct names, and each is read from a field node of `c`.
proof fn lemma_fields_distinct(s: Seq<char>, c: Seq<SpecPair>, fields: Seq<Field>)
    requires
        fields_ok(s, c, fields),
        no_key_repeats(s, c, Rule::field),
    ensures
        forall|i: int, j: int| 0 <= i < j < fields.len() ==> fields[i].name@ != fields[j].name@,
        forall|i: int| 0 <= i < fields.len() ==> field_node_in(s, c, #[trigger] fields[i]),
    decreases c.len(),
{
    if c.len() > 0 {
        let c2 = c.drop_last();
        let n = c.len() - 1;
        lemma_no_key_repeats_prefix(s, c, Rule::field);
        if c.last().rule == Rule::field {
            let f2 = fields.drop_last();
            lemma_fields_distinct(s, c2, f2);
            assert(!key_before(s, c, n, Rule::field));
            assert forall|i: int, j: int| 0 <= i < j < fields.len() implies fields[i].name@
                != fields[j].name@ by {
                assert(fields[i] == f2[i]);
                if j < fields.len() - 1 {
                    assert(fields[j] == f2[j]);
                } else {
                    let k = choose|k: int|
                        0 <= k < c2.len() && (#[trigger] c2[k]).rule == Rule::field && field_of(s, c2[k], f2[i]);
                    assert(c2[k] == c[k]);
                    if fields[i].name@ == fields[j].name@ {
                        assert(keyed_in(s, c, n, Rule::field, text(s, c[n].inner[0])));
                    }
                }
            }
            assert forall|i: int| 0 <= i < fields.len() implies field_node_in(s, c, #[trigger] fields[i]) by {
                if i < fields.len() - 1 {
                    assert(fields[i] == f2[i]);
                    let k = choose|k: int|
                        0 <= k < c2.len() && (#[trigger] c2[k]).rule == Rule::field && field_of(s, c2[k], f2[i]);
                    assert(c2[k] == c[k]);
                } else {
                    assert(c[n].rule == Rule::field);
                }
            }
        } else {
            lemma_fields_distinct(s, c2, fields);
            assert forall|i: int| 0 <= i < fields.len() implies field_node_in(s, c, #[trigger] fields[i]) by {
                let k = choose|k: int|
                    0 <= k < c2.len() && (#[trigger] c2[k]).rule == Rule::field && field_of(s, c2[k], fields[i]);
                assert(c2[k] == c[k]);
            }
        }
    }
}


proof fn lemma_enum_err_none(s: Seq<char>, d: SpecPair, k0: int)
    requires
        0 <= k0,
        enum_err(s, d, k0) is None,
    ensures
        forall|k: int|
            k0 <= k < d.inner.len() && (#[trigger] d.inner[k]).rule == Rule::enum_value ==> !key_before(
                s,
                d.inner,
                k,
                Rule::enum_value,
            ),
        forall|k: int|
            k0 <= k < d.inner.len() && (#[trigger] d.inner[k]).rule == Rule::block_attribute
                ==> attribute_err(s, d.inner[k]) is None,
    decreases d.inner.len() - k0,
{
    if k0 < d.inner.len() {
        lemma_enum_err_none(s, d, k0 + 1);
    }
}

proof fn lemma_members_err_none(s: Seq<char>, d: SpecPair, k0: int)
    requires
        0 <= k0,
        members_err(s, d, k0) is None,
    ensures
        forall|k: int|
            k0 <= k < d.inner.len() && (#[trigger] d.inner[k]).rule == Rule::field ==> {
                &&& field_err(s, d.inner[k]) is None
                &&& !key_before(s, d.inner, k, Rule::field)
            },
        forall|k: int|
            k0 <= k < d.inner.len() && (#[trigger] d.inner[k]).rule == Rule::block_attribute
                ==> attribute_err(s, d.inner[k]) is None,
    decreases d.inner.len() - k0,
{
    if k0 < d.inner.len() {
        lemma_members_err_none(s, d, k0 + 1);
    }
}

proof fn lemma_field_attributes_err_none(s: Seq<char>, f: SpecPair, k0: int)
    requires
        2 <= k0,
        field_attributes_err(s, f, k0) is None,
    ensures
        forall|k: int|
            k0 <= k < f.inner.len() ==> !key_before(s, f.inner, k, Rule::field_attribute),
        forall|k: int| k0 <= k < f.inner.len() ==> attribute_err(s, #[trigger] f.inner[k]) is None,
    decreases f.inner.len() - k0,
{
    if k0 < f.inner.len() {
        lemma_field_attributes_err_none(s, f, k0 + 1);
    }
}

proof fn lemma_config_err_none(s: Seq<char>, c: SpecPair, k0: int)
    requires
        0 <= k0,
        config_err(s, c, k0) is None,
    ensures
        forall|k: int| k0 <= k < c.inner.len() ==> !key_before(s, c.inner, k, Rule::config_entry),
        forall|k: int|
            k0 <= k < c.inner.len() ==> value_err(s, (#[trigger] c.inner[k]).inner[1]) is None,
    decreases c.inner.len() - k0,
{
    if k0 < c.inner.len() {
        lemma_config_err_none(s, c, k0 + 1);
    }
}

proof fn lemma_file_err_none(s: Seq<char>, f: SpecPair, k0: int)
    requires
        0 <= k0,
        file_err(s, f, k0) is None,
    ensures
        forall|k: int|
            k0 <= k < f.inner.len() ==> if (#[trigger] f.inner[k]).rule == Rule::config {
                config_err(s, f.inner[k], 0) is None
            } else {
                &&& declaration_err(s, f.inner[k]) is None
                &&& !declared_in(s, f.inner, k, declaration_name(s, f.inner[k]))
            },
    decreases f.inner.len() - k0,
{
    if k0 < f.inner.len() {
        lemma_file_err_none(s, f, k0 + 1);
    }
}

/// The name a declaration node gives is the name of the declaration it denotes.
proof fn lemma_declaration_name(s: Seq<char>, d: SpecPair, decl: Declaration)
    requires
        declaration_of(s, d, decl),
    ensures
        decl.spec_name()@ == declaration_name(s, d),
{
}

/// Some declaration node of `c` denotes `decl`.
pub open spec fn declaration_node_in(s: Seq<char>, c: Seq<SpecPair>, decl: Declaration) -> bool {
    exists|k: int|
        0 <= k < c.len() && (#[trigger] c[k]).rule == Rule::declaration && declaration_of(s, c[k], decl)
}

proof fn lemma_declared_prefix(s: Seq<char>, c: Seq<SpecPair>, n: int, x: Seq<char>)
    requires
        0 <= n < c.len(),
    ensures
        declared_in(s, c.drop_last(), n, x) == declared_in(s, c, n, x),
{
    if declared_in(s, c, n, x) {
        let j = choose|j: int|
            0 <= j < n && (#[trigger] c[j]).rule == Rule::declaration && declaration_name(s, c[j]) == x;
        assert(c.drop_last()[j] == c[j]);
    }
    if declared_in(s, c.drop_last(), n, x) {
        let j = choose|j: int|
            0 <= j < n && (#[trigger] c.drop_last()[j]).rule == Rule::declaration && declaration_name(
                s,
                c.drop_last()[j],
            ) == x;
        assert(c.drop_last()[j] == c[j]);
    }
}

/// Declarations read in order from nodes none of which repeats the name of an
/// earlier one have distinct names, and each is denoted by a node of `c`.
proof fn lemma_declarations_distinct(s: Seq<char>, c: Seq<SpecPair>, ds: Seq<Declaration>)
    requires
        declarations_ok(s, c, ds),
        forall|k: int|
            0 <= k < c.len() && (#[trigger] c[k]).rule == Rule::declaration ==> !declared_in(
                s,
                c,
                k,
                declaration_name(s, c[k]),
            ),
    ensures
        forall|i: int, j: int|
            0 <= i < j < ds.len() ==> ds[i].spec_name()@ != ds[j].spec_name()@,
        forall|i: int| 0 <= i < ds.len() ==> declaration_node_in(s, c, #[trigger] ds[i]),
    decreases c.len(),
{
    if c.len() > 0 {
        let c2 = c.drop_last();
        let n = c.len() - 1;
        assert forall|k: int| 0 <= k < c2.len() && (#[trigger] c2[k]).rule == Rule::declaration implies !declared_in(
            s,
            c2,
            k,
            declaration_name(s, c2[k]),
        ) by {
            assert(c2[k] == c[k]);
            lemma_declared_prefix(s, c, k, declaration_name(s, c[k]));
        }
        if c.last().rule == Rule::declaration {
            let d2 = ds.drop_last();
            lemma_declarations_distinct(s, c2, d2);
            lemma_declaration_name(s, c[n], ds.last());
            assert forall|i: int, j: int| 0 <= i < j < ds.len() implies ds[i].spec_name()@
                != ds[j].spec_name()@ by {
                assert(ds[i] == d2[i]);
                if j < ds.len() - 1 {
                    assert(ds[j] == d2[j]);
                } else {
                    let k = choose|k: int|
                        0 <= k < c2.len() && (#[trigger] c2[k]).rule == Rule::declaration
                            && declaration_of(s, c2[k], d2[i]);
                    assert(c2[k] == c[k]);
                    lemma_declaration_name(s, c[k], d2[i]);
                    if ds[i].spec_name()@ == ds[j].spec_name()@ {
                        assert(declared_in(s, c, n, declaration_name(s, c[n])));
                    }
                }
            }
            assert forall|i: int| 0 <= i < ds.len() implies declaration_node_in(
                s,
                c,
                #[trigger] ds[i],
            ) by {
                if i < ds.len() - 1 {
                    assert(ds[i] == d2[i]);
                    let k = choose|k: int|
                        0 <= k < c2.len() && (#[trigger] c2[k]).rule == Rule::declaration
                            && declaration_of(s, c2[k], d2[i]);
                    assert(c2[k] == c[k]);
                } else {
                    assert(c[n].rule == Rule::declaration);
                }
            }
        } else {
            lemma_declarations_distinct(s, c2, ds);
            assert forall|i: int| 0 <= i < ds.len() implies declaration_node_in(
                s,
                c,
                #[trigger] ds[i],
            ) by {
                let k = choose|k: int|
                    0 <= k < c2.len() && (#[trigger] c2[k]).rule == Rule::declaration && declaration_of(
                        s,
                        c2[k],
                        ds[i],
                    );
                assert(c2[k] == c[k]);
            }
        }
    }
}

/// A file read without error has the tree `p`, to which no error applies, and
/// `f` is what that tree denotes.
proof fn lemma_read_ok(input: Seq<char>, f: ConkFile) -> (p: SpecPair)
    requires
        file_result(input, Ok(f)),
    ensures
        parse_spec(input, Rule::file) == Ok::<SpecPair, int>(p),
        file_err(input, p, 0) is None,
        file_of(input, p, f),
        forall|k: int|
            0 <= k < p.inner.len() ==> if (#[trigger] p.inner[k]).rule == Rule::config {
                config_err(input, p.inner[k], 0) is None
            } else {
                &&& declaration_err(input, p.inner[k]) is None
                &&& !declared_in(input, p.inner, k, declaration_name(input, p.inner[k]))
            },
        forall|i: int|
            0 <= i < f.declarations@.len() ==> declaration_node_in(
                input,
                p.inner,
                #[trigger] f.declarations@[i],
            ),
        forall|i: int, j: int|
            0 <= i < j < f.declarations@.len() ==> f.declarations@[i].spec_name()@
                != f.declarations@[j].spec_name()@,
{
    let p = parse_spec(input, Rule::file)->Ok_0;
    lemma_file_err_none(input, p, 0);
    assert forall|k: int|
        0 <= k < p.inner.len() && (#[trigger] p.inner[k]).rule == Rule::declaration implies !declared_in(
        input,
        p.inner,
        k,
        declaration_name(input, p.inner[k]),
    ) by {
        assert(p.inner[k].rule != Rule::config);
    }
    lemma_declarations_distinct(input, p.inner, f.declarations@);
    p
}

/// In a file read without error, no two declarations have the same name.
pub proof fn law_declaration_names_unique(input: Seq<char>, f: ConkFile)
    requires
        file_result(input, Ok(f)),
    ensures
        forall|i: int, j: int|
            0 <= i < j < f.declarations@.len() ==> f.declarations@[i].spec_name()@
                != f.declarations@[j].spec_name()@,
{
    lemma_read_ok(input, f);
}

/// The fields a declaration holds: none for an enum.
pub open spec fn declaration_fields(d: Declaration) -> Seq<Field> {
    match d {
        Declaration::Enum(_) => Seq::empty(),
        Declaration::Template(t) => t.fields@,
        Declaration::Entity(e) => e.fields@,
    }
}

/// In a file read without error, no enum has the same value twice.
pub proof fn law_enum_values_unique(input: Seq<char>, f: ConkFile)
    requires
        file_result(input, Ok(f)),
    ensures
        forall|i: int|
            0 <= i < f.declarations@.len() ==> (#[trigger] f.declarations@[i] matches Declaration::Enum(e)
                ==> forall|a: int, b: int| 0 <= a < b < e.values@.len() ==> e.values@[a]@ != e.values@[b]@),
{
    let p = lemma_read_ok(input, f);
    assert forall|i: int| 0 <= i < f.declarations@.len() implies (#[trigger] f.declarations@[i] matches Declaration::Enum(
        e,
    ) ==> forall|a: int, b: int| 0 <= a < b < e.values@.len() ==> e.values@[a]@ != e.values@[b]@) by {
        let d = f.declarations@[i];
        if let Declaration::Enum(e) = d {
            let k = choose|k: int|
                0 <= k < p.inner.len() && (#[trigger] p.inner[k]).rule == Rule::declaration
                    && declaration_of(input, p.inner[k], d);
            let x = p.inner[k].inner[0];
            lemma_enum_err_none(input, x, 0);
            lemma_enum_values_distinct(input, x.inner, e.values@);
        }
    }
}

/// No two of the fields `fs` have the same name.
pub open spec fn field_names_distinct(fs: Seq<Field>) -> bool {
    forall|a: int, b: int| 0 <= a < b < fs.len() ==> fs[a].name@ != fs[b].name@
}

/// No two attributes of field `fl` have the same name.
pub open spec fn attribute_names_distinct(fl: Field) -> bool {
    forall|a: int, b: int|
        0 <= a < b < fl.attributes@.len() ==> fl.attributes@[a].name@ != fl.attributes@[b].name@
}

/// No field among `fs` has two attributes with the same name.
pub open spec fn fields_attribute_names_distinct(fs: Seq<Field>) -> bool {
    forall|m: int| 0 <= m < fs.len() ==> attribute_names_distinct(#[trigger] fs[m])
}

/// In a file read without error, no template or entity has two fields with the
/// same name.
pub proof fn law_field_names_unique(input: Seq<char>, f: ConkFile)
    requires
        file_result(input, Ok(f)),
    ensures
        forall|i: int|
            0 <= i < f.declarations@.len() ==> field_names_distinct(
                declaration_fields(#[trigger] f.declarations@[i]),
            ),
{
    let p = lemma_read_ok(input, f);
    assert forall|i: int| 0 <= i < f.declarations@.len() implies field_names_distinct(
        declaration_fields(#[trigger] f.declarations@[i]),
    ) by {
        let d = f.declarations@[i];
        let k = choose|k: int|
            0 <= k < p.inner.len() && (#[trigger] p.inner[k]).rule == Rule::declaration
                && declaration_of(input, p.inner[k], d);
        let x = p.inner[k].inner[0];
        if x.rule != Rule::enum_declaration {
            lemma_members_err_none(input, x, 0);
            lemma_fields_distinct(input, x.inner, declaration_fields(d));
        }
    }
}

/// The tree of a file read without error has the shape the grammar gives it.
proof fn lemma_read_wf(input: Seq<char>, p: SpecPair)
    requires
        input.len() <= usize::MAX,
        parse_spec(input, Rule::file) == Ok::<SpecPair, int>(p),
    ensures
        wf_file(input, p),
{
    lemma_parse_wf(input, Rule::file);
}

/// A field node none of whose attributes repeats the name of an earlier one
/// gives a field with distinct attribute names.
proof fn lemma_field_attributes_distinct(s: Seq<char>, q: SpecPair, fl: Field)
    requires
        wf_field(s, q),
        field_err(s, q) is None,
        field_of(s, q, fl),
    ensures
        attribute_names_distinct(fl),
{
    lemma_field_attributes_err_none(s, q, 2);
    assert forall|a: int, b: int| 0 <= a < b < fl.attributes@.len() implies fl.attributes@[a].name@
        != fl.attributes@[b].name@ by {
        assert(!key_before(s, q.inner, b + 2, Rule::field_attribute));
        assert(q.inner[a + 2].rule == Rule::field_attribute);
        if fl.attributes@[a].name@ == fl.attributes@[b].name@ {
            assert(keyed_in(
                s,
                q.inner,
                b + 2,
                Rule::field_attribute,
                text(s, q.inner[b + 2].inner[0]),
            ));
        }
    }
}

/// In a file read without error, no field has two attributes with the same name.
pub proof fn law_field_attributes_unique(input: Seq<char>, f: ConkFile)
    requires
        input.len() <= usize::MAX,
        file_result(input, Ok(f)),
    ensures
        forall|i: int|
            0 <= i < f.declarations@.len() ==> fields_attribute_names_distinct(
                declaration_fields(#[trigger] f.declarations@[i]),
            ),
{
    let p = lemma_read_ok(input, f);
    lemma_read_wf(input, p);
    assert forall|i: int| 0 <= i < f.declarations@.len() implies fields_attribute_names_distinct(
        declaration_fields(#[trigger] f.declarations@[i]),
    ) by {
        let d = f.declarations@[i];
        let k = choose|k: int|
            0 <= k < p.inner.len() && (#[trigger] p.inner[k]).rule == Rule::declaration
                && declaration_of(input, p.inner[k], d);
        assert(wf_config(input, p.inner[k]) || wf_declaration(input, p.inner[k]));
        let x = p.inner[k].inner[0];
        if x.rule != Rule::enum_declaration {
            lemma_members_err_none(input, x, 0);
            lemma_fields_distinct(input, x.inner, declaration_fields(d));
            assert forall|m: int| 0 <= m < declaration_fields(d).len() implies attribute_names_distinct(
                #[trigger] declaration_fields(d)[m],
            ) by {
                let fl = declaration_fields(d)[m];
                assert(field_node_in(input, x.inner, fl));
                let j = choose|j: int|
                    0 <= j < x.inner.len() && (#[trigger] x.inner[j]).rule == Rule::field && field_of(
                        input,
                        x.inner[j],
                        fl,
                    );
                if x.rule == Rule::template_declaration {
                    assert(wf_template(input, x));
                    assert(wf_template_part(input, x.inner[j]));
                } else {
                    assert(wf_entity(input, x));
                    assert(wf_entity_part(input, x.inner[j]));
                }
                lemma_field_attributes_distinct(input, x.inner[j], fl);
            }
        }
    }
}

/// The last node of `c` with rule `r`, if any, is one of them.
proof fn lemma_last_with_in(c: Seq<SpecPair>, r: Rule)
    ensures
        last_with(c, r) matches Some(n) ==> exists|k: int| 0 <= k < c.len() && #[trigger] c[k] == n && n.rule == r,
    decreases c.len(),
{
    if c.len() > 0 && c.last().rule != r {
        lemma_last_with_in(c.drop_last(), r);
        if let Some(n) = last_with(c.drop_last(), r) {
            let k = choose|k: int| 0 <= k < c.drop_last().len() && #[trigger] c.drop_last()[k] == n && n.rule == r;
            assert(c[k] == c.drop_last()[k]);
        }
    } else if c.len() > 0 {
        assert(c[c.len() - 1] == c.last());
    }
}

/// In a file read without error, the config block has no key twice.
pub proof fn law_config_keys_unique(input: Seq<char>, f: ConkFile)
    requires
        input.len() <= usize::MAX,
        file_result(input, Ok(f)),
    ensures
        f.config matches Some(cfg) ==> forall|a: int, b: int|
            0 <= a < b < cfg.entries@.len() ==> cfg.entries@[a].0@ != cfg.entries@[b].0@,
{
    let p = lemma_read_ok(input, f);
    lemma_read_wf(input, p);
    lemma_last_with_in(p.inner, Rule::config);
    if let Some(cn) = last_with(p.inner, Rule::config) {
        let cfg = f.config->Some_0;
        let k = choose|k: int| 0 <= k < p.inner.len() && #[trigger] p.inner[k] == cn && cn.rule == Rule::config;
        assert(p.inner[k].rule == Rule::config);
        assert(wf_config(input, cn)) by {
            assert(wf_config(input, p.inner[k]) || wf_declaration(input, p.inner[k]));
        }
        lemma_config_err_none(input, cn, 0);
        assert(config_of(input, cn, cfg));
        assert forall|a: int, b: int| 0 <= a < b < cfg.entries@.len() implies cfg.entries@[a].0@
            != cfg.entries@[b].0@ by {
            assert(!key_before(input, cn.inner, b, Rule::config_entry));
            assert(cn.inner[a].rule == Rule::config_entry);
            assert(cfg.entries@[a].0@ == text(input, cn.inner[a].inner[0]));
            assert(cfg.entries@[b].0@ == text(input, cn.inner[b].inner[0]));
            if cfg.entries@[a].0@ == cfg.entries@[b].0@ {
                assert(keyed_in(input, cn.inner, b, Rule::config_entry, text(input, cn.inner[b].inner[0])));
            }
        }
    }
}


/// A value the checked reader converts without error holds no integer literal
/// without an `i64` value.
proof fn lemma_value_ints(s: Seq<char>, p: SpecPair)
    requires
        wf_value(s, p),
        value_err(s, p) is None,
    ensures
        int_err(s, p) is None,
    decreases p, 0int,
{
    if p.rule == Rule::integer_literal {
    } else if p.rule == Rule::list_literal {
        if p.inner.len() >= 1 {
            lemma_values_ints(s, p.inner[0], 0);
            lemma_last_child(s, p);
        } else {
            lemma_ints_none(s, p);
        }
    } else if p.rule == Rule::function_call {
        lemma_name_no_int(s, p.inner[0]);
        if p.inner.len() >= 2 {
            lemma_arguments_ints(s, p.inner[1], 0);
            lemma_last_child(s, p);
        } else {
            lemma_ints_none(s, p);
        }
    } else {
        assert forall|j: int| 0 <= j < p.inner.len() implies (#[trigger] p.inner[j]).inner.len() == 0
            && p.inner[j].rule != Rule::integer_literal by {
            if p.rule == Rule::schema_qualified_identifier && j == 0 {
                assert(wf_string(s, p.inner[0]));
            } else if p.rule == Rule::schema_identifier {
                if j == 0 {
                    assert(wf_string(s, p.inner[0]));
                } else {
                    assert(wf_ident(s, p.inner[1]));
                }
            } else {
                assert(wf_ident(s, p.inner[j]));
            }
        }
        lemma_flat(s, p);
    }
}

proof fn lemma_values_ints(s: Seq<char>, q: SpecPair, k: int)
    requires
        wf_value_list(s, q),
        0 <= k,
        values_err(s, q, k) is None,
    ensures
        ints_err(s, q, k) is None,
        k == 0 ==> int_err(s, q) is None,
    decreases q, q.inner.len() - k,
{
    if k < q.inner.len() {
        assert(wf_value(s, q.inner[k]));
        lemma_value_ints(s, q.inner[k]);
        lemma_values_ints(s, q, k + 1);
    }
}

proof fn lemma_arguments_ints(s: Seq<char>, q: SpecPair, k: int)
    requires
        wf_argument_list(s, q),
        0 <= k,
        arguments_err(s, q, k) is None,
    ensures
        ints_err(s, q, k) is None,
        k == 0 ==> int_err(s, q) is None,
    decreases q, q.inner.len() - k,
{
    if k < q.inner.len() {
        let a = q.inner[k];
        assert(wf_argument(s, a));
        let node = a.inner[0];
        if is_positional(a) {
            lemma_value_ints(s, node.inner[0]);
        } else {
            lemma_value_ints(s, node.inner[1]);
            lemma_flat(s, node.inner[0]);
        }
        lemma_last_child(s, node);
        lemma_last_child(s, a);
        lemma_arguments_ints(s, q, k + 1);
    }
}

/// An attribute the checked reader converts without error holds no integer
/// literal without an `i64` value.
proof fn lemma_attribute_ints(s: Seq<char>, a: SpecPair, r: Rule)
    requires
        r == Rule::field_attribute || r == Rule::block_attribute,
        wf_attribute(s, a, r),
        attribute_err(s, a) is None,
    ensures
        int_err(s, a) is None,
{
    lemma_flat(s, a.inner[0]);
    if a.inner.len() >= 2 {
        let g = a.inner[1];
        if g.inner.len() >= 1 {
            lemma_arguments_ints(s, g.inner[0], 0);
            lemma_last_child(s, g);
        } else {
            lemma_ints_none(s, g);
        }
        lemma_last_child(s, a);
    } else {
        lemma_ints_none(s, a);
    }
}

/// A field the checked reader converts without error holds no integer literal
/// without an `i64` value.
proof fn lemma_field_ints(s: Seq<char>, f: SpecPair)
    requires
        wf_field(s, f),
        field_err(s, f) is None,
    ensures
        int_err(s, f) is None,
{
    let ft = f.inner[1];
    lemma_name_no_int(s, ft.inner[0]);
    if ft.inner.len() >= 2 {
        let tp = ft.inner[1];
        if tp.inner.len() >= 1 {
            lemma_values_ints(s, tp.inner[0], 0);
            lemma_last_child(s, tp);
        } else {
            lemma_ints_none(s, tp);
        }
        lemma_last_child(s, ft);
    } else {
        lemma_ints_none(s, ft);
    }
    lemma_field_attributes_err_none(s, f, 2);
    assert forall|j: int| 0 <= j < f.inner.len() implies int_err(s, #[trigger] f.inner[j]) is None by {
        if j == 0 {
            lemma_flat(s, f.inner[0]);
        } else if j >= 2 {
            lemma_attribute_ints(s, f.inner[j], Rule::field_attribute);
        }
    }
    lemma_ints_none(s, f);
}

/// A declaration the checked reader converts without error holds no integer
/// literal without an `i64` value.
proof fn lemma_declaration_ints(s: Seq<char>, d: SpecPair)
    requires
        wf_declaration(s, d),
        declaration_err(s, d) is None,
    ensures
        int_err(s, d) is None,
{
    let x = d.inner[0];
    if x.rule == Rule::enum_declaration {
        lemma_enum_err_none(s, x, 0);
        assert forall|j: int| 0 <= j < x.inner.len() implies int_err(s, #[trigger] x.inner[j]) is None by {
            assert(wf_enum_part(s, x.inner[j]));
            if x.inner[j].rule == Rule::block_attribute {
                lemma_attribute_ints(s, x.inner[j], Rule::block_attribute);
            } else {
                lemma_flat(s, x.inner[j]);
            }
        }
    } else {
        lemma_members_err_none(s, x, 0);
        assert forall|j: int| 0 <= j < x.inner.len() implies int_err(s, #[trigger] x.inner[j]) is None by {
            let q = x.inner[j];
            if x.rule == Rule::template_declaration {
                assert(wf_template_part(s, q));
            } else {
                assert(wf_entity_part(s, q));
            }
            if q.rule == Rule::block_attribute {
                lemma_attribute_ints(s, q, Rule::block_attribute);
            } else if q.rule == Rule::field {
                lemma_field_ints(s, q);
            } else if q.rule == Rule::template_usage || q.rule == Rule::inheritance_usage {
                lemma_usage_no_int(s, q);
            } else {
                lemma_flat(s, q);
            }
        }
    }
    lemma_ints_none(s, x);
    lemma_last_child(s, d);
}

/// Every text the checked reader reads without error, the flat reader reads
/// without error too.
pub proof fn law_checked_ok_flat_ok(
    input: Seq<char>,
    f: ConkFile,
    r: Result<ConkAST, crate::ast::error::Error>,
)
    requires
        input.len() <= usize::MAX,
        file_result(input, Ok(f)),
        ast_result(input, r),
    ensures
        r is Ok,
{
    let p = lemma_read_ok(input, f);
    lemma_read_wf(input, p);
    assert forall|k: int| 0 <= k < p.inner.len() implies int_err(input, #[trigger] p.inner[k]) is None by {
        let q = p.inner[k];
        assert(wf_config(input, q) || wf_declaration(input, q));
        if q.rule == Rule::config {
            lemma_config_err_none(input, q, 0);
            assert forall|j: int| 0 <= j < q.inner.len() implies int_err(input, #[trigger] q.inner[j])
                is None by {
                assert(wf_config_entry(input, q.inner[j]));
                lemma_flat(input, q.inner[j].inner[0]);
                lemma_value_ints(input, q.inner[j].inner[1]);
                lemma_last_child(input, q.inner[j]);
            }
            lemma_ints_none(input, q);
        } else {
            lemma_declaration_ints(input, q);
        }
    }
    lemma_ints_none(input, p);
}

/// Every text the flat reader refuses as ill-formed, the checking reader refuses
/// too, at the same offset. The checking reader refuses besides, as ill-formed,
/// exactly the texts that fit the grammar but write a block attribute without
/// parentheses, at the first such attribute.
pub proof fn law_syntax_errors_agree(
    input: Seq<char>,
    r1: Result<ConkFile, crate::parser::error::Error>,
    r2: Result<ConkAST, crate::ast::error::Error>,
)
    requires
        file_result(input, r1),
        ast_result(input, r2),
    ensures
        r2 matches Err(crate::ast::error::Error::Parse(e2)) ==> r1 matches Err(
            crate::parser::error::Error::Parse(e1),
        ) && e1 == e2,
        r1 matches Err(crate::parser::error::Error::Parse(e1)) ==> {
            ||| r2 matches Err(crate::ast::error::Error::Parse(e2)) && e1 == e2
            ||| parse_spec(input, Rule::file) matches Ok(p) && bare_block_file(p, 0) == Some(
                e1.offset as int,
            )
        },
        (parse_spec(input, Rule::file) matches Ok(p) && bare_block_file(p, 0) is Some) ==> ((r1 matches Err(
            crate::parser::error::Error::Parse(_),
        )) && !(r2 matches Err(crate::ast::error::Error::Parse(_)))),
{
}


/// The number of declaration nodes among `c`.
pub open spec fn count_declarations(c: Seq<SpecPair>) -> nat
    decreases c.len(),
{
    if c.len() == 0 {
        0
    } else {
        count_declarations(c.drop_last()) + if c.last().rule == Rule::declaration {
            1nat
        } else {
            0nat
        }
    }
}

/// The number of declaration nodes among `c` of the kind `r` names.
pub open spec fn count_kind(c: Seq<SpecPair>, r: Rule) -> nat
    decreases c.len(),
{
    if c.len() == 0 {
        0
    } else {
        count_kind(c.drop_last(), r) + if declares(c.last(), r) {
            1nat
        } else {
            0nat
        }
    }
}

proof fn lemma_count_declarations(s: Seq<char>, c: Seq<SpecPair>, ds: Seq<Declaration>)
    requires
        declarations_ok(s, c, ds),
    ensures
        ds.len() == count_declarations(c),
    decreases c.len(),
{
    if c.len() > 0 {
        if c.last().rule == Rule::declaration {
            lemma_count_declarations(s, c.drop_last(), ds.drop_last());
        } else {
            lemma_count_declarations(s, c.drop_last(), ds);
        }
    }
}

proof fn lemma_count_kinds_seq(
    s: Seq<char>,
    c: Seq<SpecPair>,
    es: Seq<EnumDeclaration>,
    ts: Seq<TemplateDeclaration>,
    ns: Seq<EntityDeclaration>,
)
    requires
        enums_of(s, c, es),
        templates_of(s, c, ts),
        entities_of(s, c, ns),
        forall|k: int|
            0 <= k < c.len() && (#[trigger] c[k]).rule == Rule::declaration ==> wf_declaration(s, c[k]),
    ensures
        es.len() + ts.len() + ns.len() == count_declarations(c),
    decreases c.len(),
{
    if c.len() > 0 {
        let x = c.last();
        let c2 = c.drop_last();
        assert forall|k: int| 0 <= k < c2.len() && (#[trigger] c2[k]).rule == Rule::declaration implies wf_declaration(
            s,
            c2[k],
        ) by {
            assert(c2[k] == c[k]);
        }
        if x.rule == Rule::declaration {
            assert(x == c[c.len() - 1]);
            assert(wf_declaration(s, x));
        }
        let es2 = if declares(x, Rule::enum_declaration) {
            es.drop_last()
        } else {
            es
        };
        let ts2 = if declares(x, Rule::template_declaration) {
            ts.drop_last()
        } else {
            ts
        };
        let ns2 = if declares(x, Rule::entity_declaration) {
            ns.drop_last()
        } else {
            ns
        };
        lemma_count_kinds_seq(s, c2, es2, ts2, ns2);
    }
}

/// When both readers read a text without error they find the same number of
/// declarations, and a config block in the same case, with as many entries.
pub proof fn law_readers_agree(input: Seq<char>, f: ConkFile, a: ConkAST)
    requires
        input.len() <= usize::MAX,
        file_result(input, Ok(f)),
        ast_result(input, Ok(a)),
    ensures
        f.declarations@.len() == a.enum_declarations@.len() + a.template_declarations@.len()
            + a.entity_declarations@.len(),
        f.config is Some <==> a.config is Some,
        f.config matches Some(c1) ==> a.config matches Some(c2) && c1.entries@.len()
            == c2.entries@.len(),
{
    let p = lemma_read_ok(input, f);
    lemma_read_wf(input, p);
    lemma_count_declarations(input, p.inner, f.declarations@);
    assert forall|k: int|
        0 <= k < p.inner.len() && (#[trigger] p.inner[k]).rule == Rule::declaration implies wf_declaration(
        input,
        p.inner[k],
    ) by {
        assert(wf_config(input, p.inner[k]) || wf_declaration(input, p.inner[k]));
    }
    lemma_count_kinds_seq(
        input,
        p.inner,
        a.enum_declarations@,
        a.template_declarations@,
        a.entity_declarations@,
    );
}


/// No argument list in value `v`, at any depth, names an argument twice.
pub open spec fn value_args_distinct(v: Value) -> bool
    decreases v,
{
    match v {
        Value::List(items) => forall|k: int|
            0 <= k < items@.len() ==> value_args_distinct(#[trigger] items@[k]),
        Value::FunctionCall { args, .. } => args_distinct(args),
        _ => true,
    }
}

/// No two named arguments of `a` have the same name, and no argument list in
/// its values does either.
pub open spec fn args_distinct(a: ArgumentList) -> bool
    decreases a,
{
    &&& forall|i: int, j: int|
        0 <= i < j < a.named@.len() ==> a.named@[i].name@ != a.named@[j].name@
    &&& forall|k: int|
        0 <= k < a.positional@.len() ==> value_args_distinct(#[trigger] a.positional@[k])
    &&& forall|k: int|
        0 <= k < a.named@.len() ==> value_args_distinct((#[trigger] a.named@[k]).value)
}

/// No argument list in the type parameters or the attributes of `fl` names an
/// argument twice.
pub open spec fn field_args_distinct(fl: Field) -> bool {
    &&& forall|k: int|
        0 <= k < fl.type_.params@.len() ==> value_args_distinct(#[trigger] fl.type_.params@[k])
    &&& forall|k: int| 0 <= k < fl.attributes@.len() ==> args_distinct((#[trigger] fl.attributes@[k]).args)
}

/// No argument list of the block attributes `attrs` names an argument twice.
pub open spec fn block_args_distinct(attrs: Seq<BlockAttribute>) -> bool {
    forall|k: int| 0 <= k < attrs.len() ==> args_distinct((#[trigger] attrs[k]).args)
}

/// No argument list anywhere in declaration `d` names an argument twice.
pub open spec fn declaration_args_distinct(d: Declaration) -> bool {
    match d {
        Declaration::Enum(e) => block_args_distinct(e.attributes@),
        Declaration::Template(t) => block_args_distinct(t.attributes@) && forall|k: int|
            0 <= k < t.fields@.len() ==> field_args_distinct(#[trigger] t.fields@[k]),
        Declaration::Entity(e) => block_args_distinct(e.attributes@) && forall|k: int|
            0 <= k < e.fields@.len() ==> field_args_distinct(#[trigger] e.fields@[k]),
    }
}

/// Some positional argument node among `args` holds a value node denoting `v`.
pub open spec fn positional_node_in(s: Seq<char>, args: Seq<SpecPair>, v: Value) -> bool {
    exists|j: int|
        0 <= j < args.len() && is_positional(#[trigger] args[j]) && args[j].inner[0].inner.len() >= 1
            && value_of(s, args[j].inner[0].inner[0], v)
}

/// Some named argument node among `args` holds a value node denoting `v`.
pub open spec fn named_node_in(s: Seq<char>, args: Seq<SpecPair>, v: Value) -> bool {
    exists|j: int|
        0 <= j < args.len() && !is_positional(#[trigger] args[j]) && args[j].inner.len() >= 1
            && args[j].inner[0].inner.len() >= 2 && value_of(s, args[j].inner[0].inner[1], v)
}

/// Each argument read from the nodes `args` comes from one of them.
proof fn lemma_split_nodes(
    s: Seq<char>,
    args: Seq<SpecPair>,
    pos: Seq<Value>,
    named: Seq<NamedArgument>,
)
    requires
        split_ok(s, args, pos, named),
    ensures
        forall|k: int| 0 <= k < pos.len() ==> positional_node_in(s, args, #[trigger] pos[k]),
        forall|k: int| 0 <= k < named.len() ==> named_node_in(s, args, (#[trigger] named[k]).value),
    decreases args.len(),
{
    if args.len() > 0 {
        let a2 = args.drop_last();
        let n = args.len() - 1;
        let (p2, n2) = if is_positional(args.last()) {
            (pos.drop_last(), named)
        } else {
            (pos, named.drop_last())
        };
        lemma_split_nodes(s, a2, p2, n2);
        assert forall|k: int| 0 <= k < pos.len() implies positional_node_in(s, args, #[trigger] pos[k]) by {
            if k < p2.len() {
                assert(pos[k] == p2[k]);
                let j = choose|j: int|
                    0 <= j < a2.len() && is_positional(#[trigger] a2[j]) && a2[j].inner[0].inner.len()
                        >= 1 && value_of(s, a2[j].inner[0].inner[0], p2[k]);
                assert(a2[j] == args[j]);
            } else {
                assert(is_positional(args[n]));
            }
        }
        assert forall|k: int| 0 <= k < named.len() implies named_node_in(
            s,
            args,
            (#[trigger] named[k]).value,
        ) by {
            if k < n2.len() {
                assert(named[k] == n2[k]);
                let j = choose|j: int|
                    0 <= j < a2.len() && !is_positional(#[trigger] a2[j]) && a2[j].inner.len() >= 1
                        && a2[j].inner[0].inner.len() >= 2 && value_of(s, a2[j].inner[0].inner[1], n2[k].value);
                assert(a2[j] == args[j]);
            } else {
                assert(!is_positional(args[n]));
            }
        }
    }
}

proof fn lemma_values_err_none(s: Seq<char>, q: SpecPair, k0: int)
    requires
        0 <= k0,
        values_err(s, q, k0) is None,
    ensures
        forall|k: int| k0 <= k < q.inner.len() ==> value_err(s, #[trigger] q.inner[k]) is None,
    decreases q.inner.len() - k0,
{
    if k0 < q.inner.len() {
        lemma_values_err_none(s, q, k0 + 1);
    }
}

/// A value the checked reader converts without error names no argument twice
/// in any of its argument lists.
proof fn lemma_value_args(s: Seq<char>, p: SpecPair, v: Value)
    requires
        wf_value(s, p),
        value_err(s, p) is None,
        value_of(s, p, v),
    ensures
        value_args_distinct(v),
    decreases p,
{
    if p.rule == Rule::list_literal {
        let items = v->List_0;
        if p.inner.len() >= 1 {
            let q = p.inner[0];
            assert(value_err(s, p) == values_err(s, q, 0));
            lemma_values_err_none(s, q, 0);
            assert forall|k: int| 0 <= k < items@.len() implies value_args_distinct(
                #[trigger] items@[k],
            ) by {
                assert(wf_value(s, q.inner[k]));
                assert(decreases_to!(p => q.inner[k]));
                lemma_value_args(s, q.inner[k], items@[k]);
            }
        }
        assert(value_args_distinct(v));
    } else if p.rule == Rule::function_call {
        let args = v->args;
        if p.inner.len() >= 2 {
            assert(value_err(s, p) == arguments_err(s, p.inner[1], 0));
            lemma_split_args(s, p.inner[1], args);
        }
        assert(args_distinct(args));
        assert(value_args_distinct(v));
    } else {
        assert(!(v is List) && !(v is FunctionCall));
    }
}

/// An argument list the checked reader converts without error names no argument
/// twice, at any depth.
proof fn lemma_split_args(s: Seq<char>, q: SpecPair, a: ArgumentList)
    requires
        wf_argument_list(s, q),
        arguments_err(s, q, 0) is None,
        split_ok(s, q.inner, a.positional@, a.named@),
    ensures
        args_distinct(a),
    decreases q,
{
    lemma_arguments_err_none(s, q, 0);
    lemma_named_distinct(s, q.inner, a.positional@, a.named@);
    lemma_split_nodes(s, q.inner, a.positional@, a.named@);
    assert forall|k: int| 0 <= k < a.positional@.len() implies value_args_distinct(
        #[trigger] a.positional@[k],
    ) by {
        let j = choose|j: int|
            0 <= j < q.inner.len() && is_positional(#[trigger] q.inner[j]) && q.inner[j].inner[0].inner.len()
                >= 1 && value_of(s, q.inner[j].inner[0].inner[0], a.positional@[k]);
        assert(wf_argument(s, q.inner[j]));
        let vn = q.inner[j].inner[0].inner[0];
        assert(decreases_to!(q => vn));
        lemma_value_args(s, vn, a.positional@[k]);
    }
    assert forall|k: int| 0 <= k < a.named@.len() implies value_args_distinct(
        (#[trigger] a.named@[k]).value,
    ) by {
        let j = choose|j: int|
            0 <= j < q.inner.len() && !is_positional(#[trigger] q.inner[j]) && q.inner[j].inner.len() >= 1
                && q.inner[j].inner[0].inner.len() >= 2 && value_of(
                s,
                q.inner[j].inner[0].inner[1],
                a.named@[k].value,
            );
        assert(wf_argument(s, q.inner[j]));
        let vn = q.inner[j].inner[0].inner[1];
        assert(decreases_to!(q => vn));
        lemma_value_args(s, vn, a.named@[k].value);
    }
}

/// An attribute the checked reader converts without error names no argument
/// twice, at any depth.
proof fn lemma_attribute_args(s: Seq<char>, a: SpecPair, r: Rule, name: String, args: ArgumentList)
    requires
        r == Rule::field_attribute || r == Rule::block_attribute,
        wf_attribute(s, a, r),
        attribute_err(s, a) is None,
        attribute_of(s, a, name, args),
    ensures
        args_distinct(args),
{
    if a.inner.len() >= 2 && a.inner[1].inner.len() >= 1 {
        lemma_split_args(s, a.inner[1].inner[0], args);
    }
}

/// Some block attribute node of `c` denotes `a`.
pub open spec fn block_node_in(s: Seq<char>, c: Seq<SpecPair>, a: BlockAttribute) -> bool {
    exists|k: int|
        0 <= k < c.len() && (#[trigger] c[k]).rule == Rule::block_attribute && attribute_of(
            s,
            c[k],
            a.name,
            a.args,
        )
}

proof fn lemma_block_nodes(s: Seq<char>, c: Seq<SpecPair>, attrs: Seq<BlockAttribute>)
    requires
        block_attributes_ok(s, c, attrs),
    ensures
        forall|i: int| 0 <= i < attrs.len() ==> block_node_in(s, c, #[trigger] attrs[i]),
    decreases c.len(),
{
    if c.len() > 0 {
        let c2 = c.drop_last();
        let a2 = if c.last().rule == Rule::block_attribute {
            attrs.drop_last()
        } else {
            attrs
        };
        lemma_block_nodes(s, c2, a2);
        assert forall|i: int| 0 <= i < attrs.len() implies block_node_in(s, c, #[trigger] attrs[i]) by {
            if i < a2.len() {
                assert(attrs[i] == a2[i]);
                let k = choose|k: int|
                    0 <= k < c2.len() && (#[trigger] c2[k]).rule == Rule::block_attribute && attribute_of(
                        s,
                        c2[k],
                        a2[i].name,
                        a2[i].args,
                    );
                assert(c2[k] == c[k]);
            } else {
                assert(c[c.len() - 1].rule == Rule::block_attribute);
            }
        }
    }
}

/// A field the checked reader converts without error names no argument twice.
proof fn lemma_field_args(s: Seq<char>, f: SpecPair, fl: Field)
    requires
        wf_field(s, f),
        field_err(s, f) is None,
        field_of(s, f, fl),
    ensures
        field_args_distinct(fl),
{
    let ft = f.inner[1];
    if ft.inner.len() >= 2 && ft.inner[1].inner.len() >= 1 {
        let vl = ft.inner[1].inner[0];
        lemma_values_err_none(s, vl, 0);
        assert forall|k: int| 0 <= k < fl.type_.params@.len() implies value_args_distinct(
            #[trigger] fl.type_.params@[k],
        ) by {
            assert(wf_value(s, vl.inner[k]));
            lemma_value_args(s, vl.inner[k], fl.type_.params@[k]);
        }
    }
    lemma_field_attributes_err_none(s, f, 2);
    assert forall|k: int| 0 <= k < fl.attributes@.len() implies args_distinct(
        (#[trigger] fl.attributes@[k]).args,
    ) by {
        assert(wf_attribute(s, f.inner[k + 2], Rule::field_attribute));
        assert(attribute_err(s, f.inner[k + 2]) is None);
        lemma_attribute_args(
            s,
            f.inner[k + 2],
            Rule::field_attribute,
            fl.attributes@[k].name,
            fl.attributes@[k].args,
        );
    }
}

/// In a file read without error, no argument list, in the config block or in a
/// declaration, at any depth, names an argument twice.
pub proof fn law_argument_names_unique(input: Seq<char>, f: ConkFile)
    requires
        input.len() <= usize::MAX,
        file_result(input, Ok(f)),
    ensures
        f.config matches Some(cfg) ==> forall|k: int|
            0 <= k < cfg.entries@.len() ==> value_args_distinct((#[trigger] cfg.entries@[k]).1),
        forall|i: int|
            0 <= i < f.declarations@.len() ==> declaration_args_distinct(#[trigger] f.declarations@[i]),
{
    let p = lemma_read_ok(input, f);
    lemma_read_wf(input, p);
    lemma_last_with_in(p.inner, Rule::config);
    if let Some(cn) = last_with(p.inner, Rule::config) {
        let cfg = f.config->Some_0;
        let k = choose|k: int| 0 <= k < p.inner.len() && #[trigger] p.inner[k] == cn && cn.rule == Rule::config;
        assert(p.inner[k].rule == Rule::config);
        assert(wf_config(input, cn)) by {
            assert(wf_config(input, p.inner[k]) || wf_declaration(input, p.inner[k]));
        }
        lemma_config_err_none(input, cn, 0);
        assert forall|m: int| 0 <= m < cfg.entries@.len() implies value_args_distinct(
            (#[trigger] cfg.entries@[m]).1,
        ) by {
            assert(wf_config_entry(input, cn.inner[m]));
            assert(value_of(input, cn.inner[m].inner[1], cfg.entries@[m].1));
            lemma_value_args(input, cn.inner[m].inner[1], cfg.entries@[m].1);
        }
    }
    assert forall|i: int| 0 <= i < f.declarations@.len() implies declaration_args_distinct(
        #[trigger] f.declarations@[i],
    ) by {
        let d = f.declarations@[i];
        let k = choose|k: int|
            0 <= k < p.inner.len() && (#[trigger] p.inner[k]).rule == Rule::declaration
                && declaration_of(input, p.inner[k], d);
        assert(wf_config(input, p.inner[k]) || wf_declaration(input, p.inner[k]));
        let x = p.inner[k].inner[0];
        let attrs = match d {
            Declaration::Enum(e) => e.attributes@,
            Declaration::Template(t) => t.attributes@,
            Declaration::Entity(e) => e.attributes@,
        };
        lemma_block_nodes(input, x.inner, attrs);
        if x.rule == Rule::enum_declaration {
            lemma_enum_err_none(input, x, 0);
        } else {
            lemma_members_err_none(input, x, 0);
            lemma_fields_distinct(input, x.inner, declaration_fields(d));
            assert forall|m: int| 0 <= m < declaration_fields(d).len() implies field_args_distinct(
                #[trigger] declaration_fields(d)[m],
            ) by {
                let fl = declaration_fields(d)[m];
                assert(field_node_in(input, x.inner, fl));
                let j = choose|j: int|
                    0 <= j < x.inner.len() && (#[trigger] x.inner[j]).rule == Rule::field && field_of(
                        input,
                        x.inner[j],
                        fl,
                    );
                if x.rule == Rule::template_declaration {
                    assert(wf_template_part(input, x.inner[j]));
                } else {
                    assert(wf_entity_part(input, x.inner[j]));
                }
                lemma_field_args(input, x.inner[j], fl);
            }
        }
        assert forall|m: int| 0 <= m < attrs.len() implies args_distinct((#[trigger] attrs[m]).args) by {
            let j = choose|j: int|
                0 <= j < x.inner.len() && (#[trigger] x.inner[j]).rule == Rule::block_attribute
                    && attribute_of(input, x.inner[j], attrs[m].name, attrs[m].args);
            if x.rule == Rule::enum_declaration {
                assert(wf_enum_part(input, x.inner[j]));
            } else if x.rule == Rule::template_declaration {
                assert(wf_template_part(input, x.inner[j]));
            } else {
                assert(wf_entity_part(input, x.inner[j]));
            }
            lemma_attribute_args(input, x.inner[j], Rule::block_attribute, attrs[m].name, attrs[m].args);
        }
    }
}

} // verus!
