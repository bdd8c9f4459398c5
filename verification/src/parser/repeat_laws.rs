//! When every part of a node converts on its own, the checking reader succeeds
//! on the node exactly when no name there repeats an earlier one; otherwise it
//! reports the first name that does.
use vstd::prelude::*;
use crate::ast::attribute::ArgumentList;
use crate::ast::config::Config;
use crate::ast::declaration::{Entity, Enum, Template};
use crate::ast::field::Field;
use crate::ast::file::ConkFile;
use crate::grammar::rules::parse_spec;
use crate::grammar::tree::{Rule, SpecPair};
use crate::grammar::wf::{
    lemma_parse_wf, text, wf_argument, wf_argument_list, wf_config, wf_config_entry,
    wf_declaration, wf_field, wf_file,
};
use crate::parser::convert::{
    argument_name, arguments_err, arguments_of, attribute_err, bare_block_file, config_err,
    config_of, declaration_err, declaration_name, declared_before, declared_in, entity_of,
    enum_err, enum_of, field_attributes_err, field_err, field_of, file_err, file_of, file_result,
    is_positional, key_before, members_err, named_before, template_of, type_err, value_err,
};
use crate::parser::error::{error_is, ConvertError, Error};

verus! {

/// No two nodes of `c` with rule `r` have first children with the same text.
pub open spec fn keys_distinct(s: Seq<char>, c: Seq<SpecPair>, r: Rule) -> bool {
    forall|i: int, j: int|
        0 <= i < j < c.len() && (#[trigger] c[i]).rule == r && (#[trigger] c[j]).rule == r ==> text(
            s,
            c[i].inner[0],
        ) != text(s, c[j].inner[0])
}

/// Node `j` of `c`, from node `k0` on, is the first with rule `r` whose first
/// child has the text of an earlier one's.
pub open spec fn key_repeat_from(s: Seq<char>, c: Seq<SpecPair>, r: Rule, k0: int, j: int) -> bool {
    &&& k0 <= j < c.len()
    &&& c[j].rule == r
    &&& key_before(s, c, j, r)
    &&& forall|i: int| k0 <= i < j && (#[trigger] c[i]).rule == r ==> !key_before(s, c, i, r)
}

/// Keys are distinct exactly when none repeats an earlier one.
proof fn lemma_keys_distinct(s: Seq<char>, c: Seq<SpecPair>, r: Rule)
    ensures
        keys_distinct(s, c, r) == (forall|k: int|
            0 <= k < c.len() && (#[trigger] c[k]).rule == r ==> !key_before(s, c, k, r)),
{
    if keys_distinct(s, c, r) {
        assert forall|k: int| 0 <= k < c.len() && (#[trigger] c[k]).rule == r implies !key_before(
            s,
            c,
            k,
            r,
        ) by {
            if key_before(s, c, k, r) {
                let j = choose|j: int|
                    0 <= j < k && (#[trigger] c[j]).rule == r && text(s, c[j].inner[0]) == text(
                        s,
                        c[k].inner[0],
                    );
                assert(c[j].rule == r && c[k].rule == r);
            }
        }
    }
    if forall|k: int| 0 <= k < c.len() && (#[trigger] c[k]).rule == r ==> !key_before(s, c, k, r) {
        assert forall|i: int, j: int|
            0 <= i < j < c.len() && (#[trigger] c[i]).rule == r && (#[trigger] c[j]).rule == r implies text(
            s,
            c[i].inner[0],
        ) != text(s, c[j].inner[0]) by {
            assert(!key_before(s, c, j, r));
        }
    }
}

proof fn lemma_enum_first(s: Seq<char>, d: SpecPair, k0: int)
    requires
        0 <= k0,
        forall|k: int|
            k0 <= k < d.inner.len() && (#[trigger] d.inner[k]).rule == Rule::block_attribute
                ==> attribute_err(s, d.inner[k]) is None,
    ensures
        (enum_err(s, d, k0) is None) == (forall|k: int|
            k0 <= k < d.inner.len() && (#[trigger] d.inner[k]).rule == Rule::enum_value ==> !key_before(
                s,
                d.inner,
                k,
                Rule::enum_value,
            )),
        enum_err(s, d, k0) matches Some(x) ==> exists|j: int|
            #[trigger] key_repeat_from(s, d.inner, Rule::enum_value, k0, j) && x
                == ConvertError::DuplicateEnumValue(text(s, d.inner[j].inner[0])),
    decreases d.inner.len() - k0,
{
    if k0 < d.inner.len() {
        lemma_enum_first(s, d, k0 + 1);
        if let Some(x) = enum_err(s, d, k0 + 1) {
            let j = choose|j: int|
                #[trigger] key_repeat_from(s, d.inner, Rule::enum_value, k0 + 1, j) && x
                    == ConvertError::DuplicateEnumValue(text(s, d.inner[j].inner[0]));
            if !(d.inner[k0].rule == Rule::enum_value && key_before(s, d.inner, k0, Rule::enum_value)) {
                assert(key_repeat_from(s, d.inner, Rule::enum_value, k0, j));
            }
        }
        if d.inner[k0].rule == Rule::enum_value && key_before(s, d.inner, k0, Rule::enum_value) {
            assert(key_repeat_from(s, d.inner, Rule::enum_value, k0, k0));
        }
    }
}

/// When the block attributes of an enum convert, the enum converts exactly when
/// its values are distinct; they then come out in the order written; otherwise
/// the error names the first value equal to an earlier one.
pub proof fn law_enum_values_iff(s: Seq<char>, d: SpecPair, r: Result<Enum, Error>)
    requires
        match r {
            Ok(e) => enum_err(s, d, 0) is None && enum_of(s, d, e),
            Err(e) => enum_err(s, d, 0) matches Some(c) && error_is(e, c),
        },
        forall|k: int|
            0 <= k < d.inner.len() && (#[trigger] d.inner[k]).rule == Rule::block_attribute
                ==> attribute_err(s, d.inner[k]) is None,
    ensures
        (r is Ok) == keys_distinct(s, d.inner, Rule::enum_value),
        r matches Ok(e) ==> enum_of(s, d, e),
        r matches Err(e) ==> exists|j: int|
            #[trigger] key_repeat_from(s, d.inner, Rule::enum_value, 0, j) && error_is(
                e,
                ConvertError::DuplicateEnumValue(text(s, d.inner[j].inner[0])),
            ),
{
    lemma_enum_first(s, d, 0);
    lemma_keys_distinct(s, d.inner, Rule::enum_value);
}

proof fn lemma_members_first(s: Seq<char>, d: SpecPair, k0: int)
    requires
        0 <= k0,
        forall|k: int|
            k0 <= k < d.inner.len() && (#[trigger] d.inner[k]).rule == Rule::block_attribute
                ==> attribute_err(s, d.inner[k]) is None,
        forall|k: int|
            k0 <= k < d.inner.len() && (#[trigger] d.inner[k]).rule == Rule::field ==> field_err(
                s,
                d.inner[k],
            ) is None,
    ensures
        (members_err(s, d, k0) is None) == (forall|k: int|
            k0 <= k < d.inner.len() && (#[trigger] d.inner[k]).rule == Rule::field ==> !key_before(
                s,
                d.inner,
                k,
                Rule::field,
            )),
        members_err(s, d, k0) matches Some(x) ==> exists|j: int|
            #[trigger] key_repeat_from(s, d.inner, Rule::field, k0, j) && x
                == ConvertError::DuplicateFieldName(text(s, d.inner[j].inner[0])),
    decreases d.inner.len() - k0,
{
    if k0 < d.inner.len() {
        lemma_members_first(s, d, k0 + 1);
        if let Some(x) = members_err(s, d, k0 + 1) {
            let j = choose|j: int|
                #[trigger] key_repeat_from(s, d.inner, Rule::field, k0 + 1, j) && x
                    == ConvertError::DuplicateFieldName(text(s, d.inner[j].inner[0]));
            if !(d.inner[k0].rule == Rule::field && key_before(s, d.inner, k0, Rule::field)) {
                assert(key_repeat_from(s, d.inner, Rule::field, k0, j));
            }
        }
        if d.inner[k0].rule == Rule::field && key_before(s, d.inner, k0, Rule::field) {
            assert(key_repeat_from(s, d.inner, Rule::field, k0, k0));
        }
    }
}

/// When the fields and block attributes of an entity convert on their own, the
/// entity converts exactly when its field names are distinct; its fields then
/// come out in the order written; otherwise the error names the first field
/// name equal to an earlier one.
pub proof fn law_entity_fields_iff(s: Seq<char>, d: SpecPair, r: Result<Entity, Error>)
    requires
        match r {
            Ok(e) => members_err(s, d, 0) is None && entity_of(s, d, e),
            Err(e) => members_err(s, d, 0) matches Some(c) && error_is(e, c),
        },
        forall|k: int|
            0 <= k < d.inner.len() && (#[trigger] d.inner[k]).rule == Rule::block_attribute
                ==> attribute_err(s, d.inner[k]) is None,
        forall|k: int|
            0 <= k < d.inner.len() && (#[trigger] d.inner[k]).rule == Rule::field ==> field_err(
                s,
                d.inner[k],
            ) is None,
    ensures
        (r is Ok) == keys_distinct(s, d.inner, Rule::field),
        r matches Ok(e) ==> entity_of(s, d, e),
        r matches Err(e) ==> exists|j: int|
            #[trigger] key_repeat_from(s, d.inner, Rule::field, 0, j) && error_is(
                e,
                ConvertError::DuplicateFieldName(text(s, d.inner[j].inner[0])),
            ),
{
    lemma_members_first(s, d, 0);
    lemma_keys_distinct(s, d.inner, Rule::field);
}

/// The same for a template.
pub proof fn law_template_fields_iff(s: Seq<char>, d: SpecPair, r: Result<Template, Error>)
    requires
        match r {
            Ok(t) => members_err(s, d, 0) is None && template_of(s, d, t),
            Err(e) => members_err(s, d, 0) matches Some(c) && error_is(e, c),
        },
        forall|k: int|
            0 <= k < d.inner.len() && (#[trigger] d.inner[k]).rule == Rule::block_attribute
                ==> attribute_err(s, d.inner[k]) is None,
        forall|k: int|
            0 <= k < d.inner.len() && (#[trigger] d.inner[k]).rule == Rule::field ==> field_err(
                s,
                d.inner[k],
            ) is None,
    ensures
        (r is Ok) == keys_distinct(s, d.inner, Rule::field),
        r matches Ok(t) ==> template_of(s, d, t),
        r matches Err(e) ==> exists|j: int|
            #[trigger] key_repeat_from(s, d.inner, Rule::field, 0, j) && error_is(
                e,
                ConvertError::DuplicateFieldName(text(s, d.inner[j].inner[0])),
            ),
{
    lemma_members_first(s, d, 0);
    lemma_keys_distinct(s, d.inner, Rule::field);
}

proof fn lemma_field_attributes_first(s: Seq<char>, f: SpecPair, k0: int)
    requires
        2 <= k0,
        forall|k: int| 2 <= k < f.inner.len() ==> (#[trigger] f.inner[k]).rule == Rule::field_attribute,
        forall|k: int| k0 <= k < f.inner.len() ==> attribute_err(s, #[trigger] f.inner[k]) is None,
    ensures
        (field_attributes_err(s, f, k0) is None) == (forall|k: int|
            k0 <= k < f.inner.len() && (#[trigger] f.inner[k]).rule == Rule::field_attribute
                ==> !key_before(s, f.inner, k, Rule::field_attribute)),
        field_attributes_err(s, f, k0) matches Some(x) ==> exists|j: int|
            #[trigger] key_repeat_from(s, f.inner, Rule::field_attribute, k0, j) && x
                == ConvertError::DuplicateFieldAttribute(
                text(s, f.inner[0]),
                text(s, f.inner[j].inner[0]),
            ),
    decreases f.inner.len() - k0,
{
    if k0 < f.inner.len() {
        lemma_field_attributes_first(s, f, k0 + 1);
        assert(f.inner[k0].rule == Rule::field_attribute);
        if let Some(x) = field_attributes_err(s, f, k0 + 1) {
            let j = choose|j: int|
                #[trigger] key_repeat_from(s, f.inner, Rule::field_attribute, k0 + 1, j) && x
                    == ConvertError::DuplicateFieldAttribute(
                    text(s, f.inner[0]),
                    text(s, f.inner[j].inner[0]),
                );
            if !key_before(s, f.inner, k0, Rule::field_attribute) {
                assert(key_repeat_from(s, f.inner, Rule::field_attribute, k0, j));
            }
        }
        if key_before(s, f.inner, k0, Rule::field_attribute) {
            assert(key_repeat_from(s, f.inner, Rule::field_attribute, k0, k0));
        }
    }
}

/// When the type and the attributes of a field convert on their own, the field
/// converts exactly when its attribute names are distinct; it then has its name
/// and its attributes in the order written; otherwise the error names the field
/// and the first attribute name equal to an earlier one.
pub proof fn law_field_attributes_iff(s: Seq<char>, f: SpecPair, r: Result<Field, Error>)
    requires
        wf_field(s, f),
        match r {
            Ok(fl) => field_err(s, f) is None && field_of(s, f, fl),
            Err(e) => field_err(s, f) matches Some(c) && error_is(e, c),
        },
        type_err(s, f.inner[1]) is None,
        forall|k: int| 2 <= k < f.inner.len() ==> attribute_err(s, #[trigger] f.inner[k]) is None,
    ensures
        (r is Ok) == keys_distinct(s, f.inner, Rule::field_attribute),
        r matches Ok(fl) ==> field_of(s, f, fl),
        r matches Err(e) ==> exists|j: int|
            #[trigger] key_repeat_from(s, f.inner, Rule::field_attribute, 2, j) && error_is(
                e,
                ConvertError::DuplicateFieldAttribute(
                    text(s, f.inner[0]),
                    text(s, f.inner[j].inner[0]),
                ),
            ),
{
    assert forall|k: int| 2 <= k < f.inner.len() implies (#[trigger] f.inner[k]).rule
        == Rule::field_attribute by {
        assert(crate::grammar::wf::wf_attribute(s, f.inner[k], Rule::field_attribute));
    }
    lemma_field_attributes_first(s, f, 2);
    lemma_keys_distinct(s, f.inner, Rule::field_attribute);
    assert(f.inner[0].rule == Rule::identifier);
    assert(f.inner[1].rule == Rule::field_type);
    if let Err(e) = r {
        let j = choose|j: int|
            #[trigger] key_repeat_from(s, f.inner, Rule::field_attribute, 2, j) && field_err(s, f)
                == Some(
                ConvertError::DuplicateFieldAttribute(
                    text(s, f.inner[0]),
                    text(s, f.inner[j].inner[0]),
                ),
            );
        assert(key_repeat_from(s, f.inner, Rule::field_attribute, 2, j));
    }
}

proof fn lemma_config_first(s: Seq<char>, c: SpecPair, k0: int)
    requires
        0 <= k0,
        forall|k: int| 0 <= k < c.inner.len() ==> (#[trigger] c.inner[k]).rule == Rule::config_entry,
        forall|k: int| k0 <= k < c.inner.len() ==> value_err(s, (#[trigger] c.inner[k]).inner[1]) is None,
    ensures
        (config_err(s, c, k0) is None) == (forall|k: int|
            k0 <= k < c.inner.len() && (#[trigger] c.inner[k]).rule == Rule::config_entry
                ==> !key_before(s, c.inner, k, Rule::config_entry)),
        config_err(s, c, k0) matches Some(x) ==> exists|j: int|
            #[trigger] key_repeat_from(s, c.inner, Rule::config_entry, k0, j) && x
                == ConvertError::DuplicateConfigKey(text(s, c.inner[j].inner[0])),
    decreases c.inner.len() - k0,
{
    if k0 < c.inner.len() {
        lemma_config_first(s, c, k0 + 1);
        assert(c.inner[k0].rule == Rule::config_entry);
        if let Some(x) = config_err(s, c, k0 + 1) {
            let j = choose|j: int|
                #[trigger] key_repeat_from(s, c.inner, Rule::config_entry, k0 + 1, j) && x
                    == ConvertError::DuplicateConfigKey(text(s, c.inner[j].inner[0]));
            if !key_before(s, c.inner, k0, Rule::config_entry) {
                assert(key_repeat_from(s, c.inner, Rule::config_entry, k0, j));
            }
        }
        if key_before(s, c.inner, k0, Rule::config_entry) {
            assert(key_repeat_from(s, c.inner, Rule::config_entry, k0, k0));
        }
    }
}

/// When every value of a config block converts, the block converts exactly
/// when its keys are distinct; it then holds every entry in the order written;
/// otherwise the error names the first key equal to an earlier one.
pub proof fn law_config_keys_iff(s: Seq<char>, c: SpecPair, r: Result<Config, Error>)
    requires
        wf_config(s, c),
        match r {
            Ok(cfg) => config_err(s, c, 0) is None && config_of(s, c, cfg),
            Err(e) => config_err(s, c, 0) matches Some(x) && error_is(e, x),
        },
        forall|k: int| 0 <= k < c.inner.len() ==> value_err(s, (#[trigger] c.inner[k]).inner[1]) is None,
    ensures
        (r is Ok) == keys_distinct(s, c.inner, Rule::config_entry),
        r matches Ok(cfg) ==> cfg.entries@.len() == c.inner.len() && config_of(s, c, cfg),
        r matches Err(e) ==> exists|j: int|
            #[trigger] key_repeat_from(s, c.inner, Rule::config_entry, 0, j) && error_is(
                e,
                ConvertError::DuplicateConfigKey(text(s, c.inner[j].inner[0])),
            ),
{
    assert forall|k: int| 0 <= k < c.inner.len() implies (#[trigger] c.inner[k]).rule
        == Rule::config_entry by {
        assert(wf_config_entry(s, c.inner[k]));
    }
    lemma_config_first(s, c, 0);
    lemma_keys_distinct(s, c.inner, Rule::config_entry);
}

/// No two named arguments among `args` have the same name.
pub open spec fn argument_names_distinct(s: Seq<char>, args: Seq<SpecPair>) -> bool {
    forall|i: int, j: int|
        0 <= i < j < args.len() && !is_positional(#[trigger] args[i]) && !is_positional(
            #[trigger] args[j],
        ) ==> argument_name(s, args[i]) != argument_name(s, args[j])
}

/// Argument `j` of `args`, from argument `k0` on, is the first named one whose
/// name is that of an earlier named one.
pub open spec fn name_repeat_from(s: Seq<char>, args: Seq<SpecPair>, k0: int, j: int) -> bool {
    &&& k0 <= j < args.len()
    &&& !is_positional(args[j])
    &&& named_before(s, args, j, argument_name(s, args[j]))
    &&& forall|i: int|
        k0 <= i < j && !is_positional(#[trigger] args[i]) ==> !named_before(
            s,
            args,
            i,
            argument_name(s, args[i]),
        )
}

proof fn lemma_names_distinct(s: Seq<char>, args: Seq<SpecPair>)
    ensures
        argument_names_distinct(s, args) == (forall|k: int|
            0 <= k < args.len() && !is_positional(#[trigger] args[k]) ==> !named_before(
                s,
                args,
                k,
                argument_name(s, args[k]),
            )),
{
    if argument_names_distinct(s, args) {
        assert forall|k: int| 0 <= k < args.len() && !is_positional(#[trigger] args[k]) implies !named_before(
            s,
            args,
            k,
            argument_name(s, args[k]),
        ) by {
            if named_before(s, args, k, argument_name(s, args[k])) {
                let j = choose|j: int|
                    0 <= j < k && !is_positional(#[trigger] args[j]) && argument_name(s, args[j])
                        == argument_name(s, args[k]);
                assert(!is_positional(args[j]) && !is_positional(args[k]));
            }
        }
    }
    if forall|k: int|
        0 <= k < args.len() && !is_positional(#[trigger] args[k]) ==> !named_before(
            s,
            args,
            k,
            argument_name(s, args[k]),
        ) {
        assert forall|i: int, j: int|
            0 <= i < j < args.len() && !is_positional(#[trigger] args[i]) && !is_positional(
                #[trigger] args[j],
            ) implies argument_name(s, args[i]) != argument_name(s, args[j]) by {
            assert(!named_before(s, args, j, argument_name(s, args[j])));
        }
    }
}

proof fn lemma_arguments_first(s: Seq<char>, q: SpecPair, k0: int)
    requires
        0 <= k0,
        wf_argument_list(s, q),
        forall|k: int|
            k0 <= k < q.inner.len() ==> if is_positional(#[trigger] q.inner[k]) {
                value_err(s, q.inner[k].inner[0].inner[0]) is None
            } else {
                value_err(s, q.inner[k].inner[0].inner[1]) is None
            },
    ensures
        (arguments_err(s, q, k0) is None) == (forall|k: int|
            k0 <= k < q.inner.len() && !is_positional(#[trigger] q.inner[k]) ==> !named_before(
                s,
                q.inner,
                k,
                argument_name(s, q.inner[k]),
            )),
        arguments_err(s, q, k0) matches Some(x) ==> exists|j: int|
            #[trigger] name_repeat_from(s, q.inner, k0, j) && x == ConvertError::DuplicateArgumentName(
                argument_name(s, q.inner[j]),
            ),
    decreases q.inner.len() - k0,
{
    if k0 < q.inner.len() {
        assert(wf_argument(s, q.inner[k0]));
        lemma_arguments_first(s, q, k0 + 1);
        let a = q.inner[k0];
        let dup = !is_positional(a) && named_before(s, q.inner, k0, argument_name(s, a));
        if let Some(x) = arguments_err(s, q, k0 + 1) {
            let j = choose|j: int|
                #[trigger] name_repeat_from(s, q.inner, k0 + 1, j) && x
                    == ConvertError::DuplicateArgumentName(argument_name(s, q.inner[j]));
            if !dup {
                assert(name_repeat_from(s, q.inner, k0, j));
            }
        }
        if dup {
            assert(name_repeat_from(s, q.inner, k0, k0));
        }
    }
}

/// When every value of an argument list converts, the list converts exactly
/// when the names of its named arguments are distinct; it then holds the
/// positional and the named arguments, each in the order written, as many in
/// all as the list has; otherwise the error names the first name equal to an
/// earlier one.
pub proof fn law_argument_names_iff(s: Seq<char>, q: SpecPair, r: Result<ArgumentList, Error>)
    requires
        wf_argument_list(s, q),
        match r {
            Ok(a) => arguments_err(s, q, 0) is None && arguments_of(s, q, a),
            Err(e) => arguments_err(s, q, 0) matches Some(c) && error_is(e, c),
        },
        forall|k: int|
            0 <= k < q.inner.len() ==> if is_positional(#[trigger] q.inner[k]) {
                value_err(s, q.inner[k].inner[0].inner[0]) is None
            } else {
                value_err(s, q.inner[k].inner[0].inner[1]) is None
            },
    ensures
        (r is Ok) == argument_names_distinct(s, q.inner),
        r matches Ok(a) ==> arguments_of(s, q, a) && a.positional@.len() + a.named@.len()
            == q.inner.len(),
        r matches Err(e) ==> exists|j: int|
            #[trigger] name_repeat_from(s, q.inner, 0, j) && error_is(
                e,
                ConvertError::DuplicateArgumentName(argument_name(s, q.inner[j])),
            ),
{
    lemma_arguments_first(s, q, 0);
    lemma_names_distinct(s, q.inner);
    if let Ok(a) = r {
        lemma_split_len(s, q.inner, a.positional@, a.named@);
    }
}

/// Reading argument nodes gives one argument for each.
proof fn lemma_split_len(
    s: Seq<char>,
    args: Seq<SpecPair>,
    pos: Seq<crate::ast::value::Value>,
    named: Seq<crate::ast::attribute::NamedArgument>,
)
    requires
        crate::parser::convert::split_ok(s, args, pos, named),
    ensures
        pos.len() + named.len() == args.len(),
    decreases args.len(),
{
    if args.len() > 0 {
        if is_positional(args.last()) {
            lemma_split_len(s, args.drop_last(), pos.drop_last(), named);
        } else {
            lemma_split_len(s, args.drop_last(), pos, named.drop_last());
        }
    }
}

/// No two declaration nodes among `c` declare the same name.
pub open spec fn declaration_names_distinct(s: Seq<char>, c: Seq<SpecPair>) -> bool {
    forall|i: int, j: int|
        0 <= i < j < c.len() && (#[trigger] c[i]).rule == Rule::declaration && (#[trigger] c[j]).rule
            == Rule::declaration ==> declaration_name(s, c[i]) != declaration_name(s, c[j])
}

/// Child `j` of file node `f`, from child `k0` on, is the first declaration
/// whose name was declared before it.
pub open spec fn declaration_repeat_from(s: Seq<char>, f: SpecPair, k0: int, j: int) -> bool {
    &&& k0 <= j < f.inner.len()
    &&& f.inner[j].rule == Rule::declaration
    &&& declared_before(s, f.inner, j)
    &&& forall|i: int|
        k0 <= i < j && (#[trigger] f.inner[i]).rule == Rule::declaration ==> !declared_before(
            s,
            f.inner,
            i,
        )
}

proof fn lemma_declaration_names_distinct(s: Seq<char>, c: Seq<SpecPair>)
    ensures
        declaration_names_distinct(s, c) == (forall|k: int|
            0 <= k < c.len() && (#[trigger] c[k]).rule == Rule::declaration ==> !declared_before(
                s,
                c,
                k,
            )),
{
    if declaration_names_distinct(s, c) {
        assert forall|k: int| 0 <= k < c.len() && (#[trigger] c[k]).rule == Rule::declaration implies !declared_before(
            s,
            c,
            k,
        ) by {
            if declared_before(s, c, k) {
                let j = choose|j: int|
                    0 <= j < k && (#[trigger] c[j]).rule == Rule::declaration && declaration_name(s, c[j])
                        == declaration_name(s, c[k]);
                assert(c[j].rule == Rule::declaration && c[k].rule == Rule::declaration);
            }
        }
    }
    if forall|k: int|
        0 <= k < c.len() && (#[trigger] c[k]).rule == Rule::declaration ==> !declared_before(s, c, k) {
        assert forall|i: int, j: int|
            0 <= i < j < c.len() && (#[trigger] c[i]).rule == Rule::declaration && (#[trigger] c[j]).rule
                == Rule::declaration implies declaration_name(s, c[i]) != declaration_name(s, c[j]) by {
            assert(!declared_before(s, c, j));
            assert(declared_in(s, c, j, declaration_name(s, c[i])));
        }
    }
}

proof fn lemma_file_first(s: Seq<char>, f: SpecPair, k0: int)
    requires
        0 <= k0,
        forall|k: int|
            0 <= k < f.inner.len() ==> (#[trigger] f.inner[k]).rule == Rule::config || f.inner[k].rule
                == Rule::declaration,
        forall|k: int|
            k0 <= k < f.inner.len() ==> if (#[trigger] f.inner[k]).rule == Rule::config {
                config_err(s, f.inner[k], 0) is None
            } else {
                declaration_err(s, f.inner[k]) is None
            },
    ensures
        (file_err(s, f, k0) is None) == (forall|k: int|
            k0 <= k < f.inner.len() && (#[trigger] f.inner[k]).rule == Rule::declaration
                ==> !declared_before(s, f.inner, k)),
        file_err(s, f, k0) matches Some(x) ==> exists|j: int|
            #[trigger] declaration_repeat_from(s, f, k0, j) && x
                == ConvertError::DuplicateDeclarationName(declaration_name(s, f.inner[j])),
    decreases f.inner.len() - k0,
{
    if k0 < f.inner.len() {
        lemma_file_first(s, f, k0 + 1);
        let dup = f.inner[k0].rule == Rule::declaration && declared_before(s, f.inner, k0);
        if let Some(x) = file_err(s, f, k0 + 1) {
            let j = choose|j: int|
                #[trigger] declaration_repeat_from(s, f, k0 + 1, j) && x
                    == ConvertError::DuplicateDeclarationName(declaration_name(s, f.inner[j]));
            if !dup {
                assert(declaration_repeat_from(s, f, k0, j));
            }
        }
        if dup {
            assert(declaration_repeat_from(s, f, k0, k0));
        }
    }
}

/// When the grammar accepts a text, every block attribute has its parentheses,
/// and the config block and each declaration convert on their own, the
/// checking reader succeeds exactly when the declaration names are distinct;
/// it then lists every declaration in the order written; otherwise the error
/// names the first declaration whose name was declared before.
pub proof fn law_declaration_names_iff(input: Seq<char>, p: SpecPair, r: Result<ConkFile, Error>)
    requires
        input.len() <= usize::MAX,
        file_result(input, r),
        parse_spec(input, Rule::file) == Ok::<SpecPair, int>(p),
        bare_block_file(p, 0) is None,
        forall|k: int|
            0 <= k < p.inner.len() ==> if (#[trigger] p.inner[k]).rule == Rule::config {
                config_err(input, p.inner[k], 0) is None
            } else {
                declaration_err(input, p.inner[k]) is None
            },
    ensures
        (r is Ok) == declaration_names_distinct(input, p.inner),
        r matches Ok(f) ==> file_of(input, p, f),
        r matches Err(e) ==> exists|j: int|
            #[trigger] declaration_repeat_from(input, p, 0, j) && error_is(
                e,
                ConvertError::DuplicateDeclarationName(declaration_name(input, p.inner[j])),
            ),
{
    lemma_parse_wf(input, Rule::file);
    assert(wf_file(input, p));
    assert forall|k: int| 0 <= k < p.inner.len() implies (#[trigger] p.inner[k]).rule == Rule::config
        || p.inner[k].rule == Rule::declaration by {
        assert(wf_config(input, p.inner[k]) || wf_declaration(input, p.inner[k]));
    }
    lemma_file_first(input, p, 0);
    lemma_declaration_names_distinct(input, p.inner);
}

} // verus!
