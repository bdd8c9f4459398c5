//! The flat syntax tree `ConkAST`: declarations sorted by kind, integer
//! literals checked, nothing else refused.
pub mod attribute;
pub mod config;
pub mod declaration;
pub mod field;
pub mod laws;
pub mod shape_laws;
pub mod value;

use vstd::prelude::*;
use crate::ast::data_structures::config::{config_of, parse_config, Config};
use crate::ast::data_structures::declaration::{
    entity_of, enum_of, parse_entity_declaration, parse_enum_declaration,
    parse_template_declaration, template_of, EntityDeclaration, EnumDeclaration,
    TemplateDeclaration,
};
use crate::ast::data_structures::value::{int_err, ints_err, lemma_last_child};
use crate::ast::error::Error;
use crate::ast::pest::ConkParser;
use crate::grammar::rules::parse_spec;
use crate::grammar::tree::{lemma_children, Pair, Rule, SpecPair};
use crate::grammar::wf::{wf_config, wf_declaration, wf_file};
use crate::parser::convert::last_with;
use crate::text::to_chars;

verus! {

/// A file: its last config block, if any, and its declarations sorted by kind,
/// each kind in the order written.
#[derive(Debug)]
pub struct ConkAST {
    pub config: Option<Config>,
    pub enum_declarations: Vec<EnumDeclaration>,
    pub template_declarations: Vec<TemplateDeclaration>,
    pub entity_declarations: Vec<EntityDeclaration>,
}

/// Node `d` is a declaration of the kind `r` names.
pub open spec fn declares(d: SpecPair, r: Rule) -> bool {
    d.rule == Rule::declaration && d.inner.len() >= 1 && d.inner[0].rule == r
}

/// The enum declarations among the nodes `c` denote, in order, `es`.
pub open spec fn enums_of(s: Seq<char>, c: Seq<SpecPair>, es: Seq<EnumDeclaration>) -> bool
    decreases c.len(),
{
    if c.len() == 0 {
        es.len() == 0
    } else if declares(c.last(), Rule::enum_declaration) {
        &&& es.len() > 0
        &&& enum_of(s, c.last().inner[0], es.last())
        &&& enums_of(s, c.drop_last(), es.drop_last())
    } else {
        enums_of(s, c.drop_last(), es)
    }
}

/// The template declarations among the nodes `c` denote, in order, `ts`.
pub open spec fn templates_of(s: Seq<char>, c: Seq<SpecPair>, ts: Seq<TemplateDeclaration>) -> bool
    decreases c.len(),
{
    if c.len() == 0 {
        ts.len() == 0
    } else if declares(c.last(), Rule::template_declaration) {
        &&& ts.len() > 0
        &&& template_of(s, c.last().inner[0], ts.last())
        &&& templates_of(s, c.drop_last(), ts.drop_last())
    } else {
        templates_of(s, c.drop_last(), ts)
    }
}

/// The entity declarations among the nodes `c` denote, in order, `es`.
pub open spec fn entities_of(s: Seq<char>, c: Seq<SpecPair>, es: Seq<EntityDeclaration>) -> bool
    decreases c.len(),
{
    if c.len() == 0 {
        es.len() == 0
    } else if declares(c.last(), Rule::entity_declaration) {
        &&& es.len() > 0
        &&& entity_of(s, c.last().inner[0], es.last())
        &&& entities_of(s, c.drop_last(), es.drop_last())
    } else {
        entities_of(s, c.drop_last(), es)
    }
}

/// File node `f` denotes `ast`.
pub open spec fn ast_of(s: Seq<char>, f: SpecPair, ast: ConkAST) -> bool {
    &&& match last_with(f.inner, Rule::config) {
        Some(c) => ast.config matches Some(cfg) && config_of(s, c, cfg),
        None => ast.config is None,
    }
    &&& enums_of(s, f.inner, ast.enum_declarations@)
    &&& templates_of(s, f.inner, ast.template_declarations@)
    &&& entities_of(s, f.inner, ast.entity_declarations@)
}

/// What reading `input` into a `ConkAST` gives: the syntax error, the first
/// integer literal with no `i64` value, or the tree.
pub open spec fn ast_result(input: Seq<char>, r: Result<ConkAST, Error>) -> bool {
    match parse_spec(input, Rule::file) {
        Err(offset) => r matches Err(Error::Parse(e)) && e.offset == offset,
        Ok(p) => match int_err(input, p) {
            Some(k) => r matches Err(e) && e == Error::ParseInt(k),
            None => r matches Ok(ast) && ast_of(input, p, ast),
        },
    }
}

/// Converts file node `f`.
pub fn parse_file(input: &[char], f: &Pair) -> (r: Result<ConkAST, Error>)
    requires
        wf_file(input@, f@),
    ensures
        match r {
            Ok(ast) => int_err(input@, f@) is None && ast_of(input@, f@, ast),
            Err(e) => int_err(input@, f@) matches Some(k) && e == Error::ParseInt(k),
        },
{
    proof {
        lemma_children(f);
    }
    let ghost c = f@.inner;
    let mut config: Option<Config> = None;
    let mut enum_declarations: Vec<EnumDeclaration> = Vec::new();
    let mut template_declarations: Vec<TemplateDeclaration> = Vec::new();
    let mut entity_declarations: Vec<EntityDeclaration> = Vec::new();
    let mut k: usize = 0;
    while k < f.inner.len()
        invariant
            c == f@.inner,
            wf_file(input@, f@),
            c.len() == f.inner@.len(),
            forall|m: int| 0 <= m < f.inner@.len() ==> #[trigger] c[m] == f.inner@[m]@,
            k <= c.len(),
            match last_with(c.take(k as int), Rule::config) {
                Some(cn) => config matches Some(cfg) && config_of(input@, cn, cfg),
                None => config is None,
            },
            enums_of(input@, c.take(k as int), enum_declarations@),
            templates_of(input@, c.take(k as int), template_declarations@),
            entities_of(input@, c.take(k as int), entity_declarations@),
            int_err(input@, f@) == ints_err(input@, f@, k as int),
        decreases c.len() - k,
    {
        let q = &f.inner[k];
        assert(wf_config(input@, c[k as int]) || wf_declaration(input@, c[k as int]));
        proof {
            lemma_children(q);
            assert(c.take(k + 1).drop_last() =~= c.take(k as int));
            assert(c.take(k + 1).last() == c[k as int]);
        }
        if q.rule == Rule::config {
            match parse_config(input, q) {
                Ok(cfg) => {
                    config = Some(cfg);
                },
                Err(e) => {
                    return Err(e);
                },
            }
        } else {
            proof {
                lemma_last_child(input@, c[k as int]);
            }
            let x = &q.inner[0];
            if x.rule == Rule::enum_declaration {
                match parse_enum_declaration(input, x) {
                    Ok(e) => {
                        let ghost before = enum_declarations@;
                        enum_declarations.push(e);
                        assert(enum_declarations@.drop_last() =~= before);
                    },
                    Err(e) => {
                        return Err(e);
                    },
                }
            } else if x.rule == Rule::template_declaration {
                match parse_template_declaration(input, x) {
                    Ok(t) => {
                        let ghost before = template_declarations@;
                        template_declarations.push(t);
                        assert(template_declarations@.drop_last() =~= before);
                    },
                    Err(e) => {
                        return Err(e);
                    },
                }
            } else {
                match parse_entity_declaration(input, x) {
                    Ok(e) => {
                        let ghost before = entity_declarations@;
                        entity_declarations.push(e);
                        assert(entity_declarations@.drop_last() =~= before);
                    },
                    Err(e) => {
                        return Err(e);
                    },
                }
            }
        }
        k = k + 1;
    }
    assert(c.take(c.len() as int) =~= c);
    Ok(ConkAST { config, enum_declarations, template_declarations, entity_declarations })
}

/// Reads `input` into a `ConkAST`: the syntax error, the first integer literal
/// with no `i64` value, or the tree.
pub fn parse_ast_from_str(input: &str) -> (r: Result<ConkAST, Error>)
    ensures
        ast_result(input@, r),
{
    let chars = to_chars(input);
    match ConkParser::parse(Rule::file, chars.as_slice()) {
        Ok(p) => parse_file(chars.as_slice(), &p),
        Err(e) => Err(Error::Parse(e)),
    }
}

/// Reads the contents of a file into a `ConkAST`, or passes on why they could
/// not be had.
pub fn parse_ast_from_file(contents: Result<String, std::io::Error>) -> (r: Result<ConkAST, Error>)
    ensures
        match contents {
            Ok(text) => ast_result(text@, r),
            Err(e) => r == Err::<ConkAST, Error>(Error::Io(e)),
        },
{
    match contents {
        Ok(text) => parse_ast_from_str(text.as_str()),
        Err(e) => Err(Error::Io(e)),
    }
}

} // verus!
