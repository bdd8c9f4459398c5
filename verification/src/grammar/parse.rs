//! The parser: each function here carries out the rule of the same name in
//! `rules` and yields exactly the node that rule describes.
use vstd::prelude::*;
use crate::grammar::lexer::{tokens_ok, Token, TokenKind};
use crate::grammar::rules::{
    kind_at, sym_at, glued, word_at, leaf, spanned, node_of, next_or, skip_comma, token_rule, identifier, string_literal, integer_literal, float_literal, schema_head, schema_identifier, dotted_tail, qualified_identifier, schema_qualified_identifier, name_at, function_call, list_literal, value, values_tail, value_list, named_argument, positional_argument, argument, arguments_tail, argument_list, attribute_args, attribute_from, field_attribute, block_attribute, type_params, field_type, field_attributes, field, members, enum_value, enum_members, has_enum_value, schema_prefix, enum_declaration, template_declaration, identifiers_tail, identifier_list, template_usage, parents_tail, inheritance_list, inheritance_usage, entity_declaration, declaration, declarations, config_entry, config_entries, config, file_rule, rule_at, offset_of, parse_spec,
};
use crate::grammar::tree::{pairs_view, push_pair, Pair, Rule, SpecPair};
use crate::grammar::wf::wf_rule;

verus! {

/// A parser result as a mathematical value.
pub open spec fn pres(r: Option<(Pair, usize)>) -> Option<(SpecPair, int)> {
    match r {
        Some((p, j)) => Some((p@, j as int)),
        None => None,
    }
}

/// A successful result consumed at least one token and stays within the tokens.
pub open spec fn advances(r: Option<(Pair, usize)>, i: int, n: int) -> bool {
    r matches Some((_, j)) ==> i < j <= n
}

fn kind_exec(t: &[Token], i: usize, k: TokenKind) -> (b: bool)
    ensures
        b == kind_at(t@, i as int, k),
        b ==> i < t.len(),
{
    i < t.len() && t[i].kind == k
}

fn sym_exec(t: &[Token], i: usize, c: char) -> (b: bool)
    ensures
        b == sym_at(t@, i as int, c),
        b ==> i < t.len(),
{
    kind_exec(t, i, TokenKind::Sym(c))
}

fn glued_exec(t: &[Token], i: usize) -> (b: bool)
    ensures
        b == glued(t@, i as int),
{
    i < t.len() && i + 1 < t.len() && t[i].end == t[i + 1].start
}

/// Token `i - 1` and token `i` touch.
fn glued_before_exec(t: &[Token], i: usize) -> (b: bool)
    ensures
        b == glued(t@, i - 1),
{
    i > 0 && glued_exec(t, i - 1)
}

fn word_exec(s: &[char], t: &[Token], i: usize, w: &str) -> (b: bool)
    requires
        tokens_ok(s@, t@),
    ensures
        b == word_at(s@, t@, i as int, w@),
        b ==> i < t.len(),
{
    if !kind_exec(t, i, TokenKind::Ident) {
        return false;
    }
    let tok = t[i];
    proof {
        crate::grammar::lexer::lemma_tokens_ok(s@, t@, i as int, i as int);
    }
    let n = w.unicode_len();
    if tok.end - tok.start != n {
        return false;
    }
    let ghost x = s@.subrange(tok.start as int, tok.end as int);
    let mut k: usize = 0;
    while k < n
        invariant
            i < t@.len(),
            tok == t@[i as int],
            tok.start + n == tok.end <= s@.len(),
            n == w@.len(),
            x == s@.subrange(tok.start as int, tok.end as int),
            k <= n,
            forall|m: int| 0 <= m < k ==> x[m] == w@[m],
        decreases n - k,
    {
        if s[tok.start + k] != w.get_char(k) {
            assert(x[k as int] == s@[tok.start + k]);
            assert(x[k as int] != w@[k as int]);
            assert(x != w@);
            return false;
        }
        k = k + 1;
    }
    assert(x =~= w@);
    true
}

fn mk_leaf(r: Rule, tok: Token) -> (p: Pair)
    ensures
        p@ == leaf(r, tok),
{
    let p = Pair { rule: r, start: tok.start, end: tok.end, inner: Vec::new() };
    assert(p@.inner =~= Seq::<SpecPair>::empty());
    p
}

fn mk_node(r: Rule, t: &[Token], i: usize, j: usize, inner: Vec<Pair>) -> (p: Pair)
    requires
        i < j <= t@.len(),
    ensures
        p@ == spanned(r, t@, i as int, j as int, pairs_view(inner@)),
{
    Pair { rule: r, start: t[i].start, end: t[j - 1].end, inner }
}

fn single(p: Pair) -> (v: Vec<Pair>)
    ensures
        pairs_view(v@) == seq![p@],
{
    let mut v: Vec<Pair> = Vec::new();
    assert(pairs_view(v@) =~= Seq::<SpecPair>::empty());
    push_pair(&mut v, p);
    assert(Seq::<SpecPair>::empty().push(p@) =~= seq![p@]);
    v
}

/// Appends the node of a successful result, if any.
fn push_opt(v: &mut Vec<Pair>, o: Option<(Pair, usize)>)
    ensures
        pairs_view(final(v)@) == pairs_view(old(v)@) + node_of(pres(o)),
{
    match o {
        Some((p, _)) => {
            push_pair(v, p);
            assert(pairs_view(old(v)@).push(p@) =~= pairs_view(old(v)@) + seq![p@]);
        },
        None => {
            assert(pairs_view(old(v)@) + Seq::<SpecPair>::empty() =~= pairs_view(old(v)@));
        },
    }
}

fn next_or_exec(o: &Option<(Pair, usize)>, i: usize) -> (j: usize)
    ensures
        j == next_or(pres(*o), i as int),
{
    match o {
        Some((_, j)) => *j,
        None => i,
    }
}

fn skip_comma_exec(t: &[Token], i: usize) -> (j: usize)
    requires
        i <= t@.len(),
    ensures
        j == skip_comma(t@, i as int),
        i <= j <= t@.len(),
{
    if sym_exec(t, i, ',') {
        i + 1
    } else {
        i
    }
}

fn token_rule_exec(t: &[Token], i: usize, k: TokenKind, r: Rule) -> (res: Option<(Pair, usize)>)
    ensures
        pres(res) == token_rule(t@, i as int, k, r),
        advances(res, i as int, t@.len() as int),
{
    if kind_exec(t, i, k) {
        Some((mk_leaf(r, t[i]), i + 1))
    } else {
        None
    }
}

pub fn identifier_exec(t: &[Token], i: usize) -> (res: Option<(Pair, usize)>)
    ensures
        pres(res) == identifier(t@, i as int),
        advances(res, i as int, t@.len() as int),
{
    token_rule_exec(t, i, TokenKind::Ident, Rule::identifier)
}

pub fn string_literal_exec(t: &[Token], i: usize) -> (res: Option<(Pair, usize)>)
    ensures
        pres(res) == string_literal(t@, i as int),
        advances(res, i as int, t@.len() as int),
{
    token_rule_exec(t, i, TokenKind::Str, Rule::string_literal)
}

pub fn integer_literal_exec(t: &[Token], i: usize) -> (res: Option<(Pair, usize)>)
    ensures
        pres(res) == integer_literal(t@, i as int),
        advances(res, i as int, t@.len() as int),
{
    token_rule_exec(t, i, TokenKind::Int, Rule::integer_literal)
}

pub fn float_literal_exec(t: &[Token], i: usize) -> (res: Option<(Pair, usize)>)
    ensures
        pres(res) == float_literal(t@, i as int),
        advances(res, i as int, t@.len() as int),
{
    token_rule_exec(t, i, TokenKind::Float, Rule::float_literal)
}

fn schema_head_exec(t: &[Token], i: usize) -> (b: bool)
    ensures
        b == schema_head(t@, i as int),
        b ==> i + 3 <= t@.len(),
{
    i < t.len() && kind_exec(t, i, TokenKind::Str) && sym_exec(t, i + 1, '.') && kind_exec(
        t,
        i + 2,
        TokenKind::Ident,
    ) && glued_exec(t, i) && glued_exec(t, i + 1)
}

pub fn schema_identifier_exec(t: &[Token], i: usize) -> (res: Option<(Pair, usize)>)
    ensures
        pres(res) == schema_identifier(t@, i as int),
        advances(res, i as int, t@.len() as int),
{
    if schema_head_exec(t, i) {
        let mut v = single(mk_leaf(Rule::string_literal, t[i]));
        push_pair(&mut v, mk_leaf(Rule::identifier, t[i + 2]));
        assert(seq![leaf(Rule::string_literal, t@[i as int])].push(
            leaf(Rule::identifier, t@[i + 2]),
        ) =~= seq![leaf(Rule::string_literal, t@[i as int]), leaf(Rule::identifier, t@[i + 2])]);
        Some((mk_node(Rule::schema_identifier, t, i, i + 3, v), i + 3))
    } else {
        None
    }
}

/// Appends the `.name` parts that follow token `i - 1`.
fn dotted_tail_exec(t: &[Token], i: usize, acc: &mut Vec<Pair>) -> (e: usize)
    requires
        i <= t@.len(),
    ensures
        pairs_view(final(acc)@) == pairs_view(old(acc)@) + dotted_tail(t@, i as int).0,
        e == dotted_tail(t@, i as int).1,
        i <= e <= t@.len(),
{
    let ghost a0 = pairs_view(acc@);
    let mut pos = i;
    loop
        invariant
            i <= pos <= t@.len(),
            pairs_view(acc@) + dotted_tail(t@, pos as int).0 == a0 + dotted_tail(t@, i as int).0,
            dotted_tail(t@, pos as int).1 == dotted_tail(t@, i as int).1,
        ensures
            i <= pos <= t@.len(),
            pairs_view(acc@) == a0 + dotted_tail(t@, i as int).0,
            pos == dotted_tail(t@, i as int).1,
        decreases t@.len() - pos,
    {
        if sym_exec(t, pos, '.') && kind_exec(t, pos + 1, TokenKind::Ident) && glued_before_exec(
            t,
            pos,
        ) && glued_exec(t, pos) {
            let ghost before = pairs_view(acc@);
            let lf = mk_leaf(Rule::identifier, t[pos + 1]);
            push_pair(acc, lf);
            proof {
                let r = dotted_tail(t@, pos + 2);
                assert(before.push(lf@) + r.0 =~= before + (seq![lf@] + r.0));
            }
            pos = pos + 2;
        } else {
            assert(pairs_view(acc@) + Seq::<SpecPair>::empty() =~= pairs_view(acc@));
            break;
        }
    }
    pos
}

pub fn qualified_identifier_exec(t: &[Token], i: usize) -> (res: Option<(Pair, usize)>)
    ensures
        pres(res) == qualified_identifier(t@, i as int),
        advances(res, i as int, t@.len() as int),
{
    if kind_exec(t, i, TokenKind::Ident) {
        let mut v = single(mk_leaf(Rule::identifier, t[i]));
        let e = dotted_tail_exec(t, i + 1, &mut v);
        if e > i + 1 {
            proof {
                let r = dotted_tail(t@, i + 1);
                if r.0.len() == 0 {
                    assert(r.1 == i + 1) by {
                        lemma_dotted_tail_len(t@, i + 1);
                    }
                }
            }
            Some((mk_node(Rule::qualified_identifier, t, i, e, v), e))
        } else {
            proof {
                lemma_dotted_tail_len(t@, i + 1);
            }
            None
        }
    } else {
        None
    }
}

/// An empty tail consumes nothing; a nonempty one consumes something.
proof fn lemma_dotted_tail_len(t: Seq<Token>, i: int)
    requires
        0 <= i,
    ensures
        dotted_tail(t, i).0.len() == 0 <==> dotted_tail(t, i).1 == i,
        i <= dotted_tail(t, i).1,
    decreases t.len() - i,
{
    if sym_at(t, i, '.') && kind_at(t, i + 1, TokenKind::Ident) && glued(t, i - 1) && glued(t, i) {
        lemma_dotted_tail_len(t, i + 2);
    }
}

pub fn schema_qualified_identifier_exec(t: &[Token], i: usize) -> (res: Option<(Pair, usize)>)
    ensures
        pres(res) == schema_qualified_identifier(t@, i as int),
        advances(res, i as int, t@.len() as int),
{
    if schema_head_exec(t, i) {
        let mut v = single(mk_leaf(Rule::string_literal, t[i]));
        push_pair(&mut v, mk_leaf(Rule::identifier, t[i + 2]));
        let ghost head = pairs_view(v@);
        assert(head =~= seq![leaf(Rule::string_literal, t@[i as int]), leaf(Rule::identifier, t@[i + 2])]);
        let e = dotted_tail_exec(t, i + 3, &mut v);
        proof {
            lemma_dotted_tail_len(t@, i + 3);
        }
        if e > i + 3 {
            Some((mk_node(Rule::schema_qualified_identifier, t, i, e, v), e))
        } else {
            None
        }
    } else {
        None
    }
}

fn name_exec(t: &[Token], i: usize) -> (res: Option<(Pair, usize)>)
    ensures
        pres(res) == name_at(t@, i as int),
        advances(res, i as int, t@.len() as int),
{
    let a = schema_identifier_exec(t, i);
    if a.is_some() {
        a
    } else {
        identifier_exec(t, i)
    }
}

pub fn function_call_exec(t: &[Token], i: usize) -> (res: Option<(Pair, usize)>)
    requires
        i <= t@.len(),
    ensures
        pres(res) == function_call(t@, i as int),
        advances(res, i as int, t@.len() as int),
    decreases t@.len() - i, 1nat,
{
    match name_exec(t, i) {
        Some((n, j)) => {
            if sym_exec(t, j, '(') {
                let al = argument_list_exec(t, j + 1);
                let k = next_or_exec(&al, j + 1);
                if sym_exec(t, k, ')') {
                    let mut v = single(n);
                    push_opt(&mut v, al);
                    Some((mk_node(Rule::function_call, t, i, k + 1, v), k + 1))
                } else {
                    None
                }
            } else {
                None
            }
        },
        None => None,
    }
}

pub fn list_literal_exec(t: &[Token], i: usize) -> (res: Option<(Pair, usize)>)
    requires
        i <= t@.len(),
    ensures
        pres(res) == list_literal(t@, i as int),
        advances(res, i as int, t@.len() as int),
    decreases t@.len() - i, 1nat,
{
    if sym_exec(t, i, '[') {
        let vl = value_list_exec(t, i + 1);
        let k = next_or_exec(&vl, i + 1);
        if sym_exec(t, k, ']') {
            let mut v: Vec<Pair> = Vec::new();
            assert(pairs_view(v@) =~= Seq::<SpecPair>::empty());
            push_opt(&mut v, vl);
            assert(Seq::<SpecPair>::empty() + node_of(pres(vl)) =~= node_of(pres(vl)));
            Some((mk_node(Rule::list_literal, t, i, k + 1, v), k + 1))
        } else {
            None
        }
    } else {
        None
    }
}

pub fn value_exec(t: &[Token], i: usize) -> (res: Option<(Pair, usize)>)
    requires
        i <= t@.len(),
    ensures
        pres(res) == value(t@, i as int),
        advances(res, i as int, t@.len() as int),
    decreases t@.len() - i, 2nat,
{
    let r = function_call_exec(t, i);
    if r.is_some() {
        return r;
    }
    let r = schema_qualified_identifier_exec(t, i);
    if r.is_some() {
        return r;
    }
    let r = schema_identifier_exec(t, i);
    if r.is_some() {
        return r;
    }
    let r = qualified_identifier_exec(t, i);
    if r.is_some() {
        return r;
    }
    let r = float_literal_exec(t, i);
    if r.is_some() {
        return r;
    }
    let r = integer_literal_exec(t, i);
    if r.is_some() {
        return r;
    }
    let r = string_literal_exec(t, i);
    if r.is_some() {
        return r;
    }
    let r = list_literal_exec(t, i);
    if r.is_some() {
        return r;
    }
    identifier_exec(t, i)
}

/// Appends the `, value` parts of a value list.
fn values_tail_exec(t: &[Token], i: usize, acc: &mut Vec<Pair>) -> (e: usize)
    requires
        i <= t@.len(),
    ensures
        pairs_view(final(acc)@) == pairs_view(old(acc)@) + values_tail(t@, i as int).0,
        e == values_tail(t@, i as int).1,
        i <= e <= t@.len(),
    decreases t@.len() - i, 3nat,
{
    let ghost a0 = pairs_view(acc@);
    let mut pos = i;
    loop
        invariant
            i <= pos <= t@.len(),
            pairs_view(acc@) + values_tail(t@, pos as int).0 == a0 + values_tail(t@, i as int).0,
            values_tail(t@, pos as int).1 == values_tail(t@, i as int).1,
        ensures
            i <= pos <= t@.len(),
            pairs_view(acc@) == a0 + values_tail(t@, i as int).0,
            pos == values_tail(t@, i as int).1,
        decreases t@.len() - pos,
    {
        if sym_exec(t, pos, ',') {
            match value_exec(t, pos + 1) {
                Some((v, j)) => {
                    let ghost before = pairs_view(acc@);
                    let ghost vv = v@;
                    push_pair(acc, v);
                    proof {
                        let r = values_tail(t@, j as int);
                        assert(before.push(vv) + r.0 =~= before + (seq![vv] + r.0));
                    }
                    pos = j;
                },
                None => {
                    assert(pairs_view(acc@) + Seq::<SpecPair>::empty() =~= pairs_view(acc@));
                    break;
                },
            }
        } else {
            assert(pairs_view(acc@) + Seq::<SpecPair>::empty() =~= pairs_view(acc@));
            break;
        }
    }
    pos
}

pub fn value_list_exec(t: &[Token], i: usize) -> (res: Option<(Pair, usize)>)
    requires
        i <= t@.len(),
    ensures
        pres(res) == value_list(t@, i as int),
        advances(res, i as int, t@.len() as int),
    decreases t@.len() - i, 3nat,
{
    match value_exec(t, i) {
        Some((v, j)) => {
            let mut items = single(v);
            let e0 = values_tail_exec(t, j, &mut items);
            let e = skip_comma_exec(t, e0);
            Some((mk_node(Rule::value_list, t, i, e, items), e))
        },
        None => None,
    }
}

pub fn named_argument_exec(t: &[Token], i: usize) -> (res: Option<(Pair, usize)>)
    requires
        i <= t@.len(),
    ensures
        pres(res) == named_argument(t@, i as int),
        advances(res, i as int, t@.len() as int),
    decreases t@.len() - i, 3nat,
{
    if kind_exec(t, i, TokenKind::Ident) && sym_exec(t, i + 1, ':') {
        match value_exec(t, i + 2) {
            Some((v, j)) => {
                let mut items = single(mk_leaf(Rule::identifier, t[i]));
                let ghost vv = v@;
                push_pair(&mut items, v);
                assert(seq![leaf(Rule::identifier, t@[i as int])].push(vv) =~= seq![
                    leaf(Rule::identifier, t@[i as int]),
                    vv,
                ]);
                Some((mk_node(Rule::named_argument, t, i, j, items), j))
            },
            None => None,
        }
    } else {
        None
    }
}

pub fn positional_argument_exec(t: &[Token], i: usize) -> (res: Option<(Pair, usize)>)
    requires
        i <= t@.len(),
    ensures
        pres(res) == positional_argument(t@, i as int),
        advances(res, i as int, t@.len() as int),
    decreases t@.len() - i, 3nat,
{
    match value_exec(t, i) {
        Some((v, j)) => Some((mk_node(Rule::positional_argument, t, i, j, single(v)), j)),
        None => None,
    }
}

pub fn argument_exec(t: &[Token], i: usize) -> (res: Option<(Pair, usize)>)
    requires
        i <= t@.len(),
    ensures
        pres(res) == argument(t@, i as int),
        advances(res, i as int, t@.len() as int),
    decreases t@.len() - i, 4nat,
{
    let a = named_argument_exec(t, i);
    let a = if a.is_some() {
        a
    } else {
        positional_argument_exec(t, i)
    };
    match a {
        Some((p, j)) => Some((mk_node(Rule::argument, t, i, j, single(p)), j)),
        None => None,
    }
}

/// Appends the `, argument` parts of an argument list.
fn arguments_tail_exec(t: &[Token], i: usize, acc: &mut Vec<Pair>) -> (e: usize)
    requires
        i <= t@.len(),
    ensures
        pairs_view(final(acc)@) == pairs_view(old(acc)@) + arguments_tail(t@, i as int).0,
        e == arguments_tail(t@, i as int).1,
        i <= e <= t@.len(),
    decreases t@.len() - i, 5nat,
{
    let ghost a0 = pairs_view(acc@);
    let mut pos = i;
    loop
        invariant
            i <= pos <= t@.len(),
            pairs_view(acc@) + arguments_tail(t@, pos as int).0 == a0 + arguments_tail(
                t@,
                i as int,
            ).0,
            arguments_tail(t@, pos as int).1 == arguments_tail(t@, i as int).1,
        ensures
            i <= pos <= t@.len(),
            pairs_view(acc@) == a0 + arguments_tail(t@, i as int).0,
            pos == arguments_tail(t@, i as int).1,
        decreases t@.len() - pos,
    {
        if sym_exec(t, pos, ',') {
            match argument_exec(t, pos + 1) {
                Some((a, j)) => {
                    let ghost before = pairs_view(acc@);
                    let ghost av = a@;
                    push_pair(acc, a);
                    proof {
                        let r = arguments_tail(t@, j as int);
                        assert(before.push(av) + r.0 =~= before + (seq![av] + r.0));
                    }
                    pos = j;
                },
                None => {
                    assert(pairs_view(acc@) + Seq::<SpecPair>::empty() =~= pairs_view(acc@));
                    break;
                },
            }
        } else {
            assert(pairs_view(acc@) + Seq::<SpecPair>::empty() =~= pairs_view(acc@));
            break;
        }
    }
    pos
}

pub fn argument_list_exec(t: &[Token], i: usize) -> (res: Option<(Pair, usize)>)
    requires
        i <= t@.len(),
    ensures
        pres(res) == argument_list(t@, i as int),
        advances(res, i as int, t@.len() as int),
    decreases t@.len() - i, 5nat,
{
    match argument_exec(t, i) {
        Some((a, j)) => {
            let mut items = single(a);
            let e0 = arguments_tail_exec(t, j, &mut items);
            let e = skip_comma_exec(t, e0);
            Some((mk_node(Rule::argument_list, t, i, e, items), e))
        },
        None => None,
    }
}


pub fn attribute_args_exec(t: &[Token], i: usize) -> (res: Option<(Pair, usize)>)
    requires
        i <= t@.len(),
    ensures
        pres(res) == attribute_args(t@, i as int),
        advances(res, i as int, t@.len() as int),
{
    if sym_exec(t, i, '(') {
        let al = argument_list_exec(t, i + 1);
        let k = next_or_exec(&al, i + 1);
        if sym_exec(t, k, ')') {
            let mut v: Vec<Pair> = Vec::new();
            assert(pairs_view(v@) =~= Seq::<SpecPair>::empty());
            push_opt(&mut v, al);
            assert(Seq::<SpecPair>::empty() + node_of(pres(al)) =~= node_of(pres(al)));
            Some((mk_node(Rule::attribute_args, t, i, k + 1, v), k + 1))
        } else {
            None
        }
    } else {
        None
    }
}

fn attribute_from_exec(r: Rule, t: &[Token], i: usize, n: usize) -> (res: (Pair, usize))
    requires
        i <= n < t.len(),
    ensures
        (res.0@, res.1 as int) == attribute_from(r, t@, i as int, n as int),
        n < res.1 <= t@.len(),
{
    let a = if glued_before_exec(t, n + 1) {
        attribute_args_exec(t, n + 1)
    } else {
        None
    };
    let j = next_or_exec(&a, n + 1);
    let mut v = single(mk_leaf(Rule::identifier, t[n]));
    push_opt(&mut v, a);
    (mk_node(r, t, i, j, v), j)
}

pub fn field_attribute_exec(t: &[Token], i: usize) -> (res: Option<(Pair, usize)>)
    ensures
        pres(res) == field_attribute(t@, i as int),
        advances(res, i as int, t@.len() as int),
{
    if sym_exec(t, i, '@') && kind_exec(t, i + 1, TokenKind::Ident) && glued_exec(t, i) {
        Some(attribute_from_exec(Rule::field_attribute, t, i, i + 1))
    } else {
        None
    }
}

pub fn block_attribute_exec(t: &[Token], i: usize) -> (res: Option<(Pair, usize)>)
    ensures
        pres(res) == block_attribute(t@, i as int),
        advances(res, i as int, t@.len() as int),
{
    if sym_exec(t, i, '@') && sym_exec(t, i + 1, '@') && kind_exec(t, i + 2, TokenKind::Ident)
        && glued_exec(t, i) && glued_exec(t, i + 1) {
        Some(attribute_from_exec(Rule::block_attribute, t, i, i + 2))
    } else {
        None
    }
}

pub fn type_params_exec(t: &[Token], i: usize) -> (res: Option<(Pair, usize)>)
    requires
        i <= t@.len(),
    ensures
        pres(res) == type_params(t@, i as int),
        advances(res, i as int, t@.len() as int),
{
    if sym_exec(t, i, '(') {
        let vl = value_list_exec(t, i + 1);
        let k = next_or_exec(&vl, i + 1);
        if sym_exec(t, k, ')') {
            let mut v: Vec<Pair> = Vec::new();
            assert(pairs_view(v@) =~= Seq::<SpecPair>::empty());
            push_opt(&mut v, vl);
            assert(Seq::<SpecPair>::empty() + node_of(pres(vl)) =~= node_of(pres(vl)));
            Some((mk_node(Rule::type_params, t, i, k + 1, v), k + 1))
        } else {
            None
        }
    } else {
        None
    }
}

pub fn field_type_exec(t: &[Token], i: usize) -> (res: Option<(Pair, usize)>)
    ensures
        pres(res) == field_type(t@, i as int),
        advances(res, i as int, t@.len() as int),
{
    match name_exec(t, i) {
        Some((n, j)) => {
            let tp = type_params_exec(t, j);
            let k = next_or_exec(&tp, j);
            let mut v = single(n);
            push_opt(&mut v, tp);
            Some((mk_node(Rule::field_type, t, i, k, v), k))
        },
        None => None,
    }
}

/// Appends the attributes of a field.
fn field_attributes_exec(t: &[Token], i: usize, acc: &mut Vec<Pair>) -> (e: usize)
    requires
        i <= t@.len(),
    ensures
        pairs_view(final(acc)@) == pairs_view(old(acc)@) + field_attributes(t@, i as int).0,
        e == field_attributes(t@, i as int).1,
        i <= e <= t@.len(),
{
    let ghost a0 = pairs_view(acc@);
    let mut pos = i;
    loop
        invariant
            i <= pos <= t@.len(),
            pairs_view(acc@) + field_attributes(t@, pos as int).0 == a0 + field_attributes(
                t@,
                i as int,
            ).0,
            field_attributes(t@, pos as int).1 == field_attributes(t@, i as int).1,
        ensures
            i <= pos <= t@.len(),
            pairs_view(acc@) == a0 + field_attributes(t@, i as int).0,
            pos == field_attributes(t@, i as int).1,
        decreases t@.len() - pos,
    {
        match field_attribute_exec(t, pos) {
            Some((a, j)) => {
                let ghost before = pairs_view(acc@);
                let ghost av = a@;
                push_pair(acc, a);
                proof {
                    let r = field_attributes(t@, j as int);
                    assert(before.push(av) + r.0 =~= before + (seq![av] + r.0));
                }
                pos = j;
            },
            None => {
                assert(pairs_view(acc@) + Seq::<SpecPair>::empty() =~= pairs_view(acc@));
                break;
            },
        }
    }
    pos
}

pub fn field_exec(t: &[Token], i: usize) -> (res: Option<(Pair, usize)>)
    ensures
        pres(res) == field(t@, i as int),
        advances(res, i as int, t@.len() as int),
{
    reveal(field);
    if kind_exec(t, i, TokenKind::Ident) {
        match field_type_exec(t, i + 1) {
            Some((ft, j)) => {
                let mut v = single(mk_leaf(Rule::identifier, t[i]));
                let ghost fv = ft@;
                push_pair(&mut v, ft);
                assert(seq![leaf(Rule::identifier, t@[i as int])].push(fv) =~= seq![
                    leaf(Rule::identifier, t@[i as int]),
                    fv,
                ]);
                let e = field_attributes_exec(t, j, &mut v);
                Some((mk_node(Rule::field, t, i, e, v), e))
            },
            None => None,
        }
    } else {
        None
    }
}

/// Appends the members of a template or entity body.
fn members_exec(t: &[Token], i: usize, acc: &mut Vec<Pair>) -> (e: usize)
    requires
        i <= t@.len(),
    ensures
        pairs_view(final(acc)@) == pairs_view(old(acc)@) + members(t@, i as int).0,
        e == members(t@, i as int).1,
        i <= e <= t@.len(),
{
    let ghost a0 = pairs_view(acc@);
    let mut pos = i;
    loop
        invariant
            i <= pos <= t@.len(),
            pairs_view(acc@) + members(t@, pos as int).0 == a0 + members(t@, i as int).0,
            members(t@, pos as int).1 == members(t@, i as int).1,
        ensures
            i <= pos <= t@.len(),
            pairs_view(acc@) == a0 + members(t@, i as int).0,
            pos == members(t@, i as int).1,
        decreases t@.len() - pos,
    {
        let m = block_attribute_exec(t, pos);
        let m = if m.is_some() {
            m
        } else {
            field_exec(t, pos)
        };
        match m {
            Some((a, j)) => {
                let ghost before = pairs_view(acc@);
                let ghost av = a@;
                push_pair(acc, a);
                proof {
                    let r = members(t@, j as int);
                    assert(before.push(av) + r.0 =~= before + (seq![av] + r.0));
                }
                pos = j;
            },
            None => {
                assert(pairs_view(acc@) + Seq::<SpecPair>::empty() =~= pairs_view(acc@));
                break;
            },
        }
    }
    pos
}

pub fn enum_value_exec(t: &[Token], i: usize) -> (res: Option<(Pair, usize)>)
    ensures
        pres(res) == enum_value(t@, i as int),
        advances(res, i as int, t@.len() as int),
{
    if kind_exec(t, i, TokenKind::Ident) {
        Some(
            (
                mk_node(Rule::enum_value, t, i, i + 1, single(mk_leaf(Rule::identifier, t[i]))),
                i + 1,
            ),
        )
    } else {
        None
    }
}

/// Appends the members of an enum body.
fn enum_members_exec(t: &[Token], i: usize, acc: &mut Vec<Pair>) -> (e: usize)
    requires
        i <= t@.len(),
    ensures
        pairs_view(final(acc)@) == pairs_view(old(acc)@) + enum_members(t@, i as int).0,
        e == enum_members(t@, i as int).1,
        i <= e <= t@.len(),
{
    let ghost a0 = pairs_view(acc@);
    let mut pos = i;
    loop
        invariant
            i <= pos <= t@.len(),
            pairs_view(acc@) + enum_members(t@, pos as int).0 == a0 + enum_members(t@, i as int).0,
            enum_members(t@, pos as int).1 == enum_members(t@, i as int).1,
        ensures
            i <= pos <= t@.len(),
            pairs_view(acc@) == a0 + enum_members(t@, i as int).0,
            pos == enum_members(t@, i as int).1,
        decreases t@.len() - pos,
    {
        let m = block_attribute_exec(t, pos);
        let m = if m.is_some() {
            m
        } else {
            enum_value_exec(t, pos)
        };
        match m {
            Some((a, j)) => {
                let ghost before = pairs_view(acc@);
                let ghost av = a@;
                push_pair(acc, a);
                proof {
                    let r = enum_members(t@, j as int);
                    assert(before.push(av) + r.0 =~= before + (seq![av] + r.0));
                }
                pos = j;
            },
            None => {
                assert(pairs_view(acc@) + Seq::<SpecPair>::empty() =~= pairs_view(acc@));
                break;
            },
        }
    }
    pos
}

/// Whether some node from index `from` on is an enum value.
fn has_enum_value_exec(v: &Vec<Pair>, from: usize) -> (b: bool)
    requires
        from <= v@.len(),
    ensures
        b == has_enum_value(pairs_view(v@).subrange(from as int, v@.len() as int)),
{
    proof {
        crate::grammar::tree::lemma_pairs_view(v@);
    }
    let ghost items = pairs_view(v@).subrange(from as int, v@.len() as int);
    let mut k = from;
    while k < v.len()
        invariant
            from <= k <= v@.len(),
            items == pairs_view(v@).subrange(from as int, v@.len() as int),
            pairs_view(v@).len() == v@.len(),
            forall|m: int| 0 <= m < v@.len() ==> #[trigger] pairs_view(v@)[m] == v@[m]@,
            forall|m: int| 0 <= m < k - from ==> (#[trigger] items[m]).rule != Rule::enum_value,
        decreases v@.len() - k,
    {
        if v[k].rule == Rule::enum_value {
            assert(items[k - from] == pairs_view(v@)[k as int]);
            return true;
        }
        assert(items[k - from] == pairs_view(v@)[k as int]);
        k = k + 1;
    }
    false
}

pub fn schema_prefix_exec(t: &[Token], i: usize) -> (res: Option<(Pair, usize)>)
    ensures
        pres(res) == schema_prefix(t@, i as int),
        advances(res, i as int, t@.len() as int),
{
    if kind_exec(t, i, TokenKind::Str) {
        Some(
            (
                mk_node(
                    Rule::schema_prefix,
                    t,
                    i,
                    i + 1,
                    single(mk_leaf(Rule::string_literal, t[i])),
                ),
                i + 1,
            ),
        )
    } else {
        None
    }
}

pub fn enum_declaration_exec(s: &[char], t: &[Token], i: usize) -> (res: Option<(Pair, usize)>)
    requires
        tokens_ok(s@, t@),
        i <= t@.len(),
    ensures
        pres(res) == enum_declaration(s@, t@, i as int),
        advances(res, i as int, t@.len() as int),
{
    let sp = schema_prefix_exec(t, i);
    let j = next_or_exec(&sp, i);
    if word_exec(s, t, j, "enum") && kind_exec(t, j + 1, TokenKind::Ident) && sym_exec(t, j + 2, '{') {
        let mut v: Vec<Pair> = Vec::new();
        assert(pairs_view(v@) =~= Seq::<SpecPair>::empty());
        push_opt(&mut v, sp);
        push_pair(&mut v, mk_leaf(Rule::identifier, t[j + 1]));
        let ghost head = pairs_view(v@);
        assert(head =~= node_of(pres(sp)) + seq![leaf(Rule::identifier, t@[j + 1])]);
        proof {
            crate::grammar::tree::lemma_pairs_view(v@);
        }
        let from = v.len();
        let e = enum_members_exec(t, j + 3, &mut v);
        proof {
            crate::grammar::tree::lemma_pairs_view(v@);
            let m = enum_members(t@, j + 3).0;
            assert(pairs_view(v@) == head + m);
            assert(head.len() == from);
            assert(pairs_view(v@).subrange(from as int, v@.len() as int) =~= m);
        }
        if has_enum_value_exec(&v, from) && sym_exec(t, e, '}') {
            Some((mk_node(Rule::enum_declaration, t, i, e + 1, v), e + 1))
        } else {
            None
        }
    } else {
        None
    }
}

pub fn template_declaration_exec(s: &[char], t: &[Token], i: usize) -> (res: Option<(Pair, usize)>)
    requires
        tokens_ok(s@, t@),
    ensures
        pres(res) == template_declaration(s@, t@, i as int),
        advances(res, i as int, t@.len() as int),
{
    if word_exec(s, t, i, "template") && kind_exec(t, i + 1, TokenKind::Ident) && sym_exec(
        t,
        i + 2,
        '{',
    ) {
        let mut v = single(mk_leaf(Rule::identifier, t[i + 1]));
        let e = members_exec(t, i + 3, &mut v);
        if sym_exec(t, e, '}') {
            Some((mk_node(Rule::template_declaration, t, i, e + 1, v), e + 1))
        } else {
            None
        }
    } else {
        None
    }
}

/// Appends the `, name` parts of an identifier list.
fn identifiers_tail_exec(t: &[Token], i: usize, acc: &mut Vec<Pair>) -> (e: usize)
    requires
        i <= t@.len(),
    ensures
        pairs_view(final(acc)@) == pairs_view(old(acc)@) + identifiers_tail(t@, i as int).0,
        e == identifiers_tail(t@, i as int).1,
        i <= e <= t@.len(),
{
    let ghost a0 = pairs_view(acc@);
    let mut pos = i;
    loop
        invariant
            i <= pos <= t@.len(),
            pairs_view(acc@) + identifiers_tail(t@, pos as int).0 == a0 + identifiers_tail(
                t@,
                i as int,
            ).0,
            identifiers_tail(t@, pos as int).1 == identifiers_tail(t@, i as int).1,
        ensures
            i <= pos <= t@.len(),
            pairs_view(acc@) == a0 + identifiers_tail(t@, i as int).0,
            pos == identifiers_tail(t@, i as int).1,
        decreases t@.len() - pos,
    {
        if sym_exec(t, pos, ',') && kind_exec(t, pos + 1, TokenKind::Ident) {
            let ghost before = pairs_view(acc@);
            let lf = mk_leaf(Rule::identifier, t[pos + 1]);
            push_pair(acc, lf);
            proof {
                let r = identifiers_tail(t@, pos + 2);
                assert(before.push(lf@) + r.0 =~= before + (seq![lf@] + r.0));
            }
            pos = pos + 2;
        } else {
            assert(pairs_view(acc@) + Seq::<SpecPair>::empty() =~= pairs_view(acc@));
            break;
        }
    }
    pos
}

pub fn identifier_list_exec(t: &[Token], i: usize) -> (res: Option<(Pair, usize)>)
    ensures
        pres(res) == identifier_list(t@, i as int),
        advances(res, i as int, t@.len() as int),
{
    if kind_exec(t, i, TokenKind::Ident) {
        let mut v = single(mk_leaf(Rule::identifier, t[i]));
        let e0 = identifiers_tail_exec(t, i + 1, &mut v);
        let e = skip_comma_exec(t, e0);
        Some((mk_node(Rule::identifier_list, t, i, e, v), e))
    } else {
        None
    }
}

pub fn template_usage_exec(t: &[Token], i: usize) -> (res: Option<(Pair, usize)>)
    ensures
        pres(res) == template_usage(t@, i as int),
        advances(res, i as int, t@.len() as int),
{
    if sym_exec(t, i, ':') {
        match identifier_list_exec(t, i + 1) {
            Some((l, j)) => Some((mk_node(Rule::template_usage, t, i, j, single(l)), j)),
            None => None,
        }
    } else {
        None
    }
}

/// Appends the `, name` parts of an inheritance list.
fn parents_tail_exec(t: &[Token], i: usize, acc: &mut Vec<Pair>) -> (e: usize)
    requires
        i <= t@.len(),
    ensures
        pairs_view(final(acc)@) == pairs_view(old(acc)@) + parents_tail(t@, i as int).0,
        e == parents_tail(t@, i as int).1,
        i <= e <= t@.len(),
{
    let ghost a0 = pairs_view(acc@);
    let mut pos = i;
    loop
        invariant
            i <= pos <= t@.len(),
            pairs_view(acc@) + parents_tail(t@, pos as int).0 == a0 + parents_tail(t@, i as int).0,
            parents_tail(t@, pos as int).1 == parents_tail(t@, i as int).1,
        ensures
            i <= pos <= t@.len(),
            pairs_view(acc@) == a0 + parents_tail(t@, i as int).0,
            pos == parents_tail(t@, i as int).1,
        decreases t@.len() - pos,
    {
        if sym_exec(t, pos, ',') {
            match name_exec(t, pos + 1) {
                Some((n, j)) => {
                    let ghost before = pairs_view(acc@);
                    let ghost nv = n@;
                    push_pair(acc, n);
                    proof {
                        let r = parents_tail(t@, j as int);
                        assert(before.push(nv) + r.0 =~= before + (seq![nv] + r.0));
                    }
                    pos = j;
                },
                None => {
                    assert(pairs_view(acc@) + Seq::<SpecPair>::empty() =~= pairs_view(acc@));
                    break;
                },
            }
        } else {
            assert(pairs_view(acc@) + Seq::<SpecPair>::empty() =~= pairs_view(acc@));
            break;
        }
    }
    pos
}

pub fn inheritance_list_exec(t: &[Token], i: usize) -> (res: Option<(Pair, usize)>)
    ensures
        pres(res) == inheritance_list(t@, i as int),
        advances(res, i as int, t@.len() as int),
{
    match name_exec(t, i) {
        Some((n, j)) => {
            let mut v = single(n);
            let e0 = parents_tail_exec(t, j, &mut v);
            let e = skip_comma_exec(t, e0);
            Some((mk_node(Rule::inheritance_list, t, i, e, v), e))
        },
        None => None,
    }
}

pub fn inheritance_usage_exec(s: &[char], t: &[Token], i: usize) -> (res: Option<(Pair, usize)>)
    requires
        tokens_ok(s@, t@),
    ensures
        pres(res) == inheritance_usage(s@, t@, i as int),
        advances(res, i as int, t@.len() as int),
{
    if word_exec(s, t, i, "inherits") && sym_exec(t, i + 1, '(') {
        match inheritance_list_exec(t, i + 2) {
            Some((l, j)) => {
                if sym_exec(t, j, ')') {
                    Some((mk_node(Rule::inheritance_usage, t, i, j + 1, single(l)), j + 1))
                } else {
                    None
                }
            },
            None => None,
        }
    } else {
        None
    }
}

pub fn entity_declaration_exec(s: &[char], t: &[Token], i: usize) -> (res: Option<(Pair, usize)>)
    requires
        tokens_ok(s@, t@),
        i <= t@.len(),
    ensures
        pres(res) == entity_declaration(s@, t@, i as int),
        advances(res, i as int, t@.len() as int),
{
    let sp = schema_prefix_exec(t, i);
    let j = next_or_exec(&sp, i);
    if word_exec(s, t, j, "entity") && kind_exec(t, j + 1, TokenKind::Ident) {
        let tu = template_usage_exec(t, j + 2);
        let k1 = next_or_exec(&tu, j + 2);
        let iu = inheritance_usage_exec(s, t, k1);
        let k2 = next_or_exec(&iu, k1);
        if sym_exec(t, k2, '{') {
            let mut v: Vec<Pair> = Vec::new();
            assert(pairs_view(v@) =~= Seq::<SpecPair>::empty());
            push_opt(&mut v, sp);
            push_pair(&mut v, mk_leaf(Rule::identifier, t[j + 1]));
            push_opt(&mut v, tu);
            push_opt(&mut v, iu);
            let ghost head = pairs_view(v@);
            assert(head =~= node_of(pres(sp)) + seq![leaf(Rule::identifier, t@[j + 1])] + node_of(
                pres(tu),
            ) + node_of(pres(iu)));
            let e = members_exec(t, k2 + 1, &mut v);
            if sym_exec(t, e, '}') {
                Some((mk_node(Rule::entity_declaration, t, i, e + 1, v), e + 1))
            } else {
                None
            }
        } else {
            None
        }
    } else {
        None
    }
}

pub fn declaration_exec(s: &[char], t: &[Token], i: usize) -> (res: Option<(Pair, usize)>)
    requires
        tokens_ok(s@, t@),
        i <= t@.len(),
    ensures
        pres(res) == declaration(s@, t@, i as int),
        advances(res, i as int, t@.len() as int),
{
    let d = enum_declaration_exec(s, t, i);
    let d = if d.is_some() {
        d
    } else {
        let d2 = template_declaration_exec(s, t, i);
        if d2.is_some() {
            d2
        } else {
            entity_declaration_exec(s, t, i)
        }
    };
    match d {
        Some((p, j)) => Some((mk_node(Rule::declaration, t, i, j, single(p)), j)),
        None => None,
    }
}

/// Appends the declarations from token `i` on.
fn declarations_exec(s: &[char], t: &[Token], i: usize, acc: &mut Vec<Pair>) -> (e: usize)
    requires
        tokens_ok(s@, t@),
        i <= t@.len(),
    ensures
        pairs_view(final(acc)@) == pairs_view(old(acc)@) + declarations(s@, t@, i as int).0,
        e == declarations(s@, t@, i as int).1,
        i <= e <= t@.len(),
{
    let ghost a0 = pairs_view(acc@);
    let mut pos = i;
    loop
        invariant
            tokens_ok(s@, t@),
            i <= pos <= t@.len(),
            pairs_view(acc@) + declarations(s@, t@, pos as int).0 == a0 + declarations(
                s@,
                t@,
                i as int,
            ).0,
            declarations(s@, t@, pos as int).1 == declarations(s@, t@, i as int).1,
        ensures
            i <= pos <= t@.len(),
            pairs_view(acc@) == a0 + declarations(s@, t@, i as int).0,
            pos == declarations(s@, t@, i as int).1,
        decreases t@.len() - pos,
    {
        match declaration_exec(s, t, pos) {
            Some((d, j)) => {
                let ghost before = pairs_view(acc@);
                let ghost dv = d@;
                push_pair(acc, d);
                proof {
                    let r = declarations(s@, t@, j as int);
                    assert(before.push(dv) + r.0 =~= before + (seq![dv] + r.0));
                }
                pos = j;
            },
            None => {
                assert(pairs_view(acc@) + Seq::<SpecPair>::empty() =~= pairs_view(acc@));
                break;
            },
        }
    }
    pos
}

pub fn config_entry_exec(t: &[Token], i: usize) -> (res: Option<(Pair, usize)>)
    requires
        i <= t@.len(),
    ensures
        pres(res) == config_entry(t@, i as int),
        advances(res, i as int, t@.len() as int),
{
    if kind_exec(t, i, TokenKind::Ident) && sym_exec(t, i + 1, ':') {
        match value_exec(t, i + 2) {
            Some((v, j)) => {
                let mut items = single(mk_leaf(Rule::identifier, t[i]));
                let ghost vv = v@;
                push_pair(&mut items, v);
                assert(seq![leaf(Rule::identifier, t@[i as int])].push(vv) =~= seq![
                    leaf(Rule::identifier, t@[i as int]),
                    vv,
                ]);
                Some((mk_node(Rule::config_entry, t, i, j, items), j))
            },
            None => None,
        }
    } else {
        None
    }
}

/// Appends the entries of a config block.
fn config_entries_exec(t: &[Token], i: usize, acc: &mut Vec<Pair>) -> (e: usize)
    requires
        i <= t@.len(),
    ensures
        pairs_view(final(acc)@) == pairs_view(old(acc)@) + config_entries(t@, i as int).0,
        e == config_entries(t@, i as int).1,
        i <= e <= t@.len(),
{
    let ghost a0 = pairs_view(acc@);
    let mut pos = i;
    loop
        invariant
            i <= pos <= t@.len(),
            pairs_view(acc@) + config_entries(t@, pos as int).0 == a0 + config_entries(
                t@,
                i as int,
            ).0,
            config_entries(t@, pos as int).1 == config_entries(t@, i as int).1,
        ensures
            i <= pos <= t@.len(),
            pairs_view(acc@) == a0 + config_entries(t@, i as int).0,
            pos == config_entries(t@, i as int).1,
        decreases t@.len() - pos,
    {
        match config_entry_exec(t, pos) {
            Some((c, j)) => {
                let ghost before = pairs_view(acc@);
                let ghost cv = c@;
                push_pair(acc, c);
                proof {
                    let r = config_entries(t@, j as int);
                    assert(before.push(cv) + r.0 =~= before + (seq![cv] + r.0));
                }
                pos = j;
            },
            None => {
                assert(pairs_view(acc@) + Seq::<SpecPair>::empty() =~= pairs_view(acc@));
                break;
            },
        }
    }
    pos
}

pub fn config_exec(s: &[char], t: &[Token], i: usize) -> (res: Option<(Pair, usize)>)
    requires
        tokens_ok(s@, t@),
    ensures
        pres(res) == config(s@, t@, i as int),
        advances(res, i as int, t@.len() as int),
{
    if word_exec(s, t, i, "config") && sym_exec(t, i + 1, '{') {
        let mut v: Vec<Pair> = Vec::new();
        assert(pairs_view(v@) =~= Seq::<SpecPair>::empty());
        let e = config_entries_exec(t, i + 2, &mut v);
        assert(Seq::<SpecPair>::empty() + config_entries(t@, i + 2).0 =~= config_entries(
            t@,
            i + 2,
        ).0);
        if sym_exec(t, e, '}') {
            Some((mk_node(Rule::config, t, i, e + 1, v), e + 1))
        } else {
            None
        }
    } else {
        None
    }
}

pub fn file_exec(s: &[char], t: &[Token]) -> (res: Result<Pair, usize>)
    requires
        tokens_ok(s@, t@),
    ensures
        match res {
            Ok(p) => file_rule(s@, t@) == Ok::<SpecPair, int>(p@),
            Err(k) => file_rule(s@, t@) == Err::<SpecPair, int>(k as int),
        },
{
    reveal(file_rule);
    let c = config_exec(s, t, 0);
    let j = next_or_exec(&c, 0);
    let mut v: Vec<Pair> = Vec::new();
    assert(pairs_view(v@) =~= Seq::<SpecPair>::empty());
    push_opt(&mut v, c);
    assert(Seq::<SpecPair>::empty() + node_of(pres(c)) =~= node_of(pres(c)));
    let e = declarations_exec(s, t, j, &mut v);
    if e == t.len() {
        Ok(Pair { rule: Rule::file, start: 0, end: s.len(), inner: v })
    } else {
        Err(e)
    }
}


pub fn rule_at_exec(s: &[char], t: &[Token], r: Rule, i: usize) -> (res: Option<(Pair, usize)>)
    requires
        tokens_ok(s@, t@),
        i <= t@.len(),
    ensures
        pres(res) == rule_at(s@, t@, r, i as int),
{
    reveal(rule_at);
    match r {
        Rule::file => match file_exec(s, t) {
            Ok(p) => Some((p, t.len())),
            Err(_) => None,
        },
        Rule::config => config_exec(s, t, i),
        Rule::config_entry => config_entry_exec(t, i),
        Rule::declaration => declaration_exec(s, t, i),
        Rule::enum_declaration => enum_declaration_exec(s, t, i),
        Rule::enum_value => enum_value_exec(t, i),
        Rule::template_declaration => template_declaration_exec(s, t, i),
        Rule::entity_declaration => entity_declaration_exec(s, t, i),
        Rule::schema_prefix => schema_prefix_exec(t, i),
        Rule::template_usage => template_usage_exec(t, i),
        Rule::identifier_list => identifier_list_exec(t, i),
        Rule::inheritance_usage => inheritance_usage_exec(s, t, i),
        Rule::inheritance_list => inheritance_list_exec(t, i),
        Rule::field => field_exec(t, i),
        Rule::field_type => field_type_exec(t, i),
        Rule::type_params => type_params_exec(t, i),
        Rule::field_attribute => field_attribute_exec(t, i),
        Rule::block_attribute => block_attribute_exec(t, i),
        Rule::attribute_args => attribute_args_exec(t, i),
        Rule::argument_list => argument_list_exec(t, i),
        Rule::argument => argument_exec(t, i),
        Rule::named_argument => named_argument_exec(t, i),
        Rule::positional_argument => positional_argument_exec(t, i),
        Rule::value => value_exec(t, i),
        Rule::value_list => value_list_exec(t, i),
        Rule::list_literal => list_literal_exec(t, i),
        Rule::function_call => function_call_exec(t, i),
        Rule::schema_qualified_identifier => schema_qualified_identifier_exec(t, i),
        Rule::schema_identifier => schema_identifier_exec(t, i),
        Rule::qualified_identifier => qualified_identifier_exec(t, i),
        Rule::identifier => identifier_exec(t, i),
        Rule::string_literal => string_literal_exec(t, i),
        Rule::integer_literal => integer_literal_exec(t, i),
        Rule::float_literal => float_literal_exec(t, i),
    }
}

fn offset_exec(s: &[char], t: &[Token], k: usize) -> (o: usize)
    ensures
        o == offset_of(s@, t@, k as int),
{
    if k < t.len() {
        t[k].start
    } else {
        s.len()
    }
}

/// Reads `s` with rule `r` from its first token: the node, or the character
/// offset where reading stopped.
pub fn parse_chars(s: &[char], r: Rule) -> (res: Result<Pair, usize>)
    ensures
        match res {
            Ok(p) => parse_spec(s@, r) == Ok::<SpecPair, int>(p@) && wf_rule(s@, r, p@),
            Err(e) => parse_spec(s@, r) == Err::<SpecPair, int>(e as int),
        },
{
    let n = s.len();
    proof {
        crate::grammar::wf::lemma_parse_wf(s@, r);
    }
    match crate::grammar::lexer::lex(s) {
        Err(e) => Err(e),
        Ok(toks) => {
            proof {
                crate::grammar::lexer::lemma_lex_from_ok(s@, 0);
            }
            let t = toks.as_slice();
            if r == Rule::file {
                match file_exec(s, t) {
                    Ok(p) => Ok(p),
                    Err(k) => Err(offset_exec(s, t, k)),
                }
            } else {
                match rule_at_exec(s, t, r, 0) {
                    Some((p, _)) => Ok(p),
                    None => Err(offset_exec(s, t, 0)),
                }
            }
        },
    }
}

} // verus!
