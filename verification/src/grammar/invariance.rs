//! Which whitespace character separates two tokens does not matter: putting a
//! space, a tab, a carriage return or a line feed in place of another leaves
//! the tokens, and so what the grammar makes of the text, unchanged.
use vstd::prelude::*;
use crate::grammar::lexer::{
    is_ident_char, lex_from, lex_spec, number_at, scan_digits, scan_ident, scan_string, token_at,
    Token, TokenKind,
};
use crate::grammar::rules::{
    config, declaration, declarations, entity_declaration, enum_declaration, file_rule,
    inheritance_usage, kind_at, next_or, parse_spec, rule_at, schema_prefix, template_declaration,
    template_usage, word_at,
};
use crate::grammar::tree::Rule;

verus! {

/// The four characters that separate tokens.
pub open spec fn blank(c: char) -> bool {
    c == ' ' || c == '\t' || c == '\r' || c == '\n'
}

/// `s2` is `s` with the blank at `p` replaced by another blank.
pub open spec fn blank_swapped(s: Seq<char>, s2: Seq<char>, p: int) -> bool {
    &&& 0 <= p < s.len()
    &&& s2.len() == s.len()
    &&& blank(s[p])
    &&& blank(s2[p])
    &&& forall|m: int| 0 <= m < s.len() && m != p ==> s2[m] == s[m]
}

proof fn lemma_scan_ident(s: Seq<char>, s2: Seq<char>, p: int, j: int)
    requires
        blank_swapped(s, s2, p),
    ensures
        scan_ident(s, j) == scan_ident(s2, j),
    decreases s.len() - j,
{
    if 0 <= j < s.len() {
        if j != p {
            assert(s2[j] == s[j]);
            lemma_scan_ident(s, s2, p, j + 1);
        }
    }
}

proof fn lemma_scan_digits(s: Seq<char>, s2: Seq<char>, p: int, j: int)
    requires
        blank_swapped(s, s2, p),
    ensures
        scan_digits(s, j) == scan_digits(s2, j),
    decreases s.len() - j,
{
    if 0 <= j < s.len() {
        if j != p {
            assert(s2[j] == s[j]);
            lemma_scan_digits(s, s2, p, j + 1);
        }
    }
}

proof fn lemma_scan_digits_ge(s: Seq<char>, j: int)
    ensures
        scan_digits(s, j) >= j,
    decreases s.len() - j,
{
    if 0 <= j < s.len() {
        lemma_scan_digits_ge(s, j + 1);
    }
}

proof fn lemma_scan_string(s: Seq<char>, s2: Seq<char>, p: int, j: int)
    requires
        blank_swapped(s, s2, p),
    ensures
        scan_string(s, j) == scan_string(s2, j),
    decreases s.len() - j,
{
    if 0 <= j < s.len() {
        assert(j != p ==> s2[j] == s[j]);
        assert(j + 1 < s.len() && j + 1 != p ==> s2[j + 1] == s[j + 1]);
        lemma_scan_string(s, s2, p, j + 1);
        if j + 2 <= s.len() {
            lemma_scan_string(s, s2, p, j + 2);
        }
    }
}

/// What a blank at `x` and the character there in `s2` have in common.
proof fn lemma_same_class(s: Seq<char>, s2: Seq<char>, p: int, x: int)
    requires
        blank_swapped(s, s2, p),
        0 <= x < s.len(),
    ensures
        (s[x] == '"') == (s2[x] == '"'),
        (s[x] == '.') == (s2[x] == '.'),
        (s[x] == '\\') == (s2[x] == '\\'),
        crate::grammar::lexer::is_digit(s[x]) == crate::grammar::lexer::is_digit(s2[x]),
        crate::grammar::lexer::is_sign(s[x]) == crate::grammar::lexer::is_sign(s2[x]),
        crate::grammar::lexer::is_ident_start(s[x]) == crate::grammar::lexer::is_ident_start(s2[x]),
        crate::grammar::lexer::is_symbol(s[x]) == crate::grammar::lexer::is_symbol(s2[x]),
        x != p ==> s2[x] == s[x],
{
}

proof fn lemma_number_at(s: Seq<char>, s2: Seq<char>, p: int, i: int)
    requires
        blank_swapped(s, s2, p),
    ensures
        number_at(s, i) == number_at(s2, i),
{
    if 0 <= i < s.len() {
        lemma_same_class(s, s2, p, i);
    }
    let d = if 0 <= i < s.len() && crate::grammar::lexer::is_sign(s[i]) {
        i + 1
    } else {
        i
    };
    assert(d == (if 0 <= i < s2.len() && crate::grammar::lexer::is_sign(s2[i]) {
        i + 1
    } else {
        i
    }));
    if 0 <= d < s.len() {
        lemma_same_class(s, s2, p, d);
        lemma_scan_digits(s, s2, p, d + 1);
        let e = scan_digits(s, d + 1);
        lemma_scan_digits_ge(s, d + 1);
        if 0 <= e < s.len() {
            lemma_same_class(s, s2, p, e);
        }
        if 0 <= e + 1 < s.len() {
            lemma_same_class(s, s2, p, e + 1);
        }
        lemma_scan_digits(s, s2, p, e + 2);
        assert(scan_digits(s2, d + 1) == e);
        assert((e < s.len() && e + 1 < s.len() && s[e] == '.' && crate::grammar::lexer::is_digit(
            s[e + 1],
        )) == (e < s2.len() && e + 1 < s2.len() && s2[e] == '.' && crate::grammar::lexer::is_digit(
            s2[e + 1],
        )));
    }
}

proof fn lemma_token_at(s: Seq<char>, s2: Seq<char>, p: int, i: int)
    requires
        blank_swapped(s, s2, p),
    ensures
        token_at(s, i) == token_at(s2, i),
{
    if 0 <= i < s.len() {
        lemma_same_class(s, s2, p, i);
        lemma_scan_ident(s, s2, p, i + 1);
        lemma_scan_string(s, s2, p, i + 1);
        lemma_number_at(s, s2, p, i);
    }
}

proof fn lemma_lex_from(s: Seq<char>, s2: Seq<char>, p: int, i: int)
    requires
        blank_swapped(s, s2, p),
    ensures
        lex_from(s, i) == lex_from(s2, i),
    decreases s.len() - i,
{
    if 0 <= i < s.len() {
        if i == p {
            lemma_lex_from(s, s2, p, i + 1);
        } else {
            assert(s2[i] == s[i]);
            lemma_token_at(s, s2, p, i);
            lemma_lex_from(s, s2, p, i + 1);
            match token_at(s, i) {
                Some((k, e)) => {
                    if i < e <= s.len() {
                        lemma_lex_from(s, s2, p, e);
                    }
                },
                None => {},
            }
        }
    }
}

/// Putting one of the characters space, tab, carriage return and line feed in
/// place of another leaves the tokens of a text, or the place where scanning
/// fails, unchanged.
pub proof fn law_blanks_interchangeable(s: Seq<char>, p: int, c: char)
    requires
        0 <= p < s.len(),
        s[p] == ' ' || s[p] == '\t' || s[p] == '\r' || s[p] == '\n',
        c == ' ' || c == '\t' || c == '\r' || c == '\n',
    ensures
        lex_spec(s.update(p, c)) == lex_spec(s),
{
    let s2 = s.update(p, c);
    assert(blank_swapped(s, s2, p));
    lemma_lex_from(s, s2, p, 0);
}

/// `m` lies inside one of the tokens `ts`.
pub open spec fn covered(ts: Seq<Token>, m: int) -> bool {
    exists|k: int| 0 <= k < ts.len() && (#[trigger] ts[k]).start <= m < ts[k].end
}

proof fn lemma_lex_gaps(s: Seq<char>, i: int)
    requires
        0 <= i,
        s.len() <= usize::MAX,
    ensures
        lex_from(s, i) matches Ok(ts) ==> forall|m: int|
            i <= m < s.len() ==> blank(#[trigger] s[m]) || covered(ts, m),
        lex_from(s, i) matches Err(e) ==> i <= e < s.len() && !blank(s[e]),
    decreases s.len() - i,
{
    if 0 <= i < s.len() {
        if blank(s[i]) {
            lemma_lex_gaps(s, i + 1);
        } else {
            match token_at(s, i) {
                Some((k, e)) => {
                    if i < e <= s.len() {
                        lemma_lex_gaps(s, e);
                        let tok = Token { kind: k, start: i as usize, end: e as usize };
                        if let Ok(ts2) = lex_from(s, e) {
                            let ts = seq![tok] + ts2;
                            assert(lex_from(s, i) == Ok::<Seq<Token>, int>(ts));
                            assert forall|m: int| i <= m < s.len() implies blank(#[trigger] s[m])
                                || covered(ts, m) by {
                                if m < e {
                                    assert(ts[0] == tok);
                                } else if !blank(s[m]) {
                                    let k2 = choose|k2: int|
                                        0 <= k2 < ts2.len() && (#[trigger] ts2[k2]).start <= m
                                            < ts2[k2].end;
                                    assert(ts[k2 + 1] == ts2[k2]);
                                }
                            }
                        }
                    }
                },
                None => {},
            }
        }
    }
}

/// Scanning a text either fails at a character that is not blank, or gives
/// tokens such that every character lies inside a token or is blank: no
/// character is skipped but space, tab, carriage return and line feed.
pub proof fn law_lex_covers(s: Seq<char>)
    requires
        s.len() <= usize::MAX,
    ensures
        lex_spec(s) matches Ok(ts) ==> forall|m: int|
            0 <= m < s.len() ==> blank(#[trigger] s[m]) || covered(ts, m),
        lex_spec(s) matches Err(e) ==> 0 <= e < s.len() && !blank(s[e]),
{
    lemma_lex_gaps(s, 0);
}

proof fn lemma_scan_ident_chars(s: Seq<char>, j: int)
    ensures
        scan_ident(s, j) >= j,
        scan_ident(s, j) > j ==> 0 <= j && scan_ident(s, j) <= s.len(),
        forall|m: int| j <= m < scan_ident(s, j) ==> is_ident_char(#[trigger] s[m]),
    decreases s.len() - j,
{
    if 0 <= j < s.len() && is_ident_char(s[j]) {
        lemma_scan_ident_chars(s, j + 1);
        assert(scan_ident(s, j) == scan_ident(s, j + 1));
        assert forall|m: int| j <= m < scan_ident(s, j) implies is_ident_char(#[trigger] s[m]) by {
            if m > j {
                assert(j + 1 <= m < scan_ident(s, j + 1));
            }
        }
    }
}

/// What the parser relies on of the tokens of `s` from `i` on: each lies in the
/// input, after `i`, and an identifier token covers identifier characters only.
pub open spec fn idents_in(s: Seq<char>, ts: Seq<Token>, i: int) -> bool {
    forall|k: int|
        0 <= k < ts.len() ==> {
            &&& i <= (#[trigger] ts[k]).start < ts[k].end <= s.len()
            &&& ts[k].kind == TokenKind::Ident ==> forall|m: int|
                ts[k].start <= m < ts[k].end ==> is_ident_char(#[trigger] s[m])
        }
}

proof fn lemma_lex_idents(s: Seq<char>, i: int)
    requires
        0 <= i,
        s.len() <= usize::MAX,
    ensures
        lex_from(s, i) matches Ok(ts) ==> idents_in(s, ts, i),
    decreases s.len() - i,
{
    if 0 <= i < s.len() {
        if blank(s[i]) {
            lemma_lex_idents(s, i + 1);
        } else {
            match token_at(s, i) {
                Some((k, e)) => {
                    if i < e <= s.len() {
                        lemma_lex_idents(s, e);
                        let tok = Token { kind: k, start: i as usize, end: e as usize };
                        if let Ok(ts2) = lex_from(s, e) {
                            let ts = seq![tok] + ts2;
                            assert(lex_from(s, i) == Ok::<Seq<Token>, int>(ts));
                            if k == TokenKind::Ident {
                                lemma_scan_ident_chars(s, i + 1);
                            }
                            assert forall|j: int| 0 <= j < ts.len() implies {
                                &&& i <= (#[trigger] ts[j]).start < ts[j].end <= s.len()
                                &&& ts[j].kind == TokenKind::Ident ==> forall|m: int|
                                    ts[j].start <= m < ts[j].end ==> is_ident_char(#[trigger] s[m])
                            } by {
                                if j > 0 {
                                    assert(ts[j] == ts2[j - 1]);
                                }
                            }
                        }
                    }
                },
                None => {},
            }
        }
    }
}

/// Where no identifier token covers the swapped blank, every keyword test reads
/// the same in both texts.
proof fn lemma_word_at(s: Seq<char>, s2: Seq<char>, p: int, t: Seq<Token>)
    requires
        blank_swapped(s, s2, p),
        idents_in(s, t, 0),
    ensures
        forall|i: int, w: Seq<char>| #[trigger] word_at(s, t, i, w) == word_at(s2, t, i, w),
{
    assert forall|i: int, w: Seq<char>| #[trigger] word_at(s, t, i, w) == word_at(s2, t, i, w) by {
        if kind_at(t, i, TokenKind::Ident) {
            let a = t[i].start as int;
            let b = t[i].end as int;
            assert(0 <= a < b <= s.len());
            assert(!(a <= p < b)) by {
                if a <= p < b {
                    assert(is_ident_char(s[p]));
                }
            }
            assert(s.subrange(a, b) =~= s2.subrange(a, b)) by {
                assert forall|m: int| 0 <= m < b - a implies s.subrange(a, b)[m] == s2.subrange(a, b)[m] by {
                    assert(s2[a + m] == s[a + m]);
                }
            }
        }
    }
}

proof fn lemma_rules_at(s: Seq<char>, s2: Seq<char>, t: Seq<Token>, i: int)
    requires
        forall|j: int, w: Seq<char>| #[trigger] word_at(s, t, j, w) == word_at(s2, t, j, w),
    ensures
        enum_declaration(s, t, i) == enum_declaration(s2, t, i),
        template_declaration(s, t, i) == template_declaration(s2, t, i),
        inheritance_usage(s, t, i) == inheritance_usage(s2, t, i),
        entity_declaration(s, t, i) == entity_declaration(s2, t, i),
        declaration(s, t, i) == declaration(s2, t, i),
        config(s, t, i) == config(s2, t, i),
{
    let j = next_or(schema_prefix(t, i), i);
    assert(word_at(s, t, j, "enum"@) == word_at(s2, t, j, "enum"@));
    assert(word_at(s, t, j, "entity"@) == word_at(s2, t, j, "entity"@));
    assert(word_at(s, t, i, "template"@) == word_at(s2, t, i, "template"@));
    assert(word_at(s, t, i, "config"@) == word_at(s2, t, i, "config"@));
    assert(inheritance_usage(s, t, i) == inheritance_usage(s2, t, i)) by {
        assert(word_at(s, t, i, "inherits"@) == word_at(s2, t, i, "inherits"@));
    }
    if kind_at(t, j + 1, TokenKind::Ident) {
        let k1 = next_or(template_usage(t, j + 2), j + 2);
        assert(inheritance_usage(s, t, k1) == inheritance_usage(s2, t, k1)) by {
            assert(word_at(s, t, k1, "inherits"@) == word_at(s2, t, k1, "inherits"@));
        }
    }
}

proof fn lemma_declarations(s: Seq<char>, s2: Seq<char>, t: Seq<Token>, i: int)
    requires
        forall|j: int, w: Seq<char>| #[trigger] word_at(s, t, j, w) == word_at(s2, t, j, w),
    ensures
        declarations(s, t, i) == declarations(s2, t, i),
    decreases t.len() - i,
{
    lemma_rules_at(s, s2, t, i);
    match declaration(s, t, i) {
        Some((d, j)) => if i < j <= t.len() {
            lemma_declarations(s, s2, t, j);
        },
        None => {},
    }
}

/// Putting one of the characters space, tab, carriage return and line feed in
/// place of another changes neither whether a text reads with a rule of the
/// grammar nor the tree it reads as, nor where reading stops when it fails.
pub proof fn law_blanks_parse(s: Seq<char>, p: int, c: char, r: Rule)
    requires
        s.len() <= usize::MAX,
        0 <= p < s.len(),
        s[p] == ' ' || s[p] == '\t' || s[p] == '\r' || s[p] == '\n',
        c == ' ' || c == '\t' || c == '\r' || c == '\n',
    ensures
        parse_spec(s.update(p, c), r) == parse_spec(s, r),
{
    let s2 = s.update(p, c);
    law_blanks_interchangeable(s, p, c);
    assert(blank_swapped(s, s2, p));
    lemma_lex_idents(s, 0);
    if let Ok(t) = lex_spec(s) {
        lemma_word_at(s, s2, p, t);
        lemma_rules_at(s, s2, t, 0);
        lemma_declarations(s, s2, t, next_or(config(s, t, 0), 0));
        assert(file_rule(s, t) == file_rule(s2, t)) by {
            reveal(file_rule);
        }
        lemma_rule_at(s, s2, t, r);
    }
}

#[verifier::spinoff_prover]
#[verifier::rlimit(60)]
proof fn lemma_rule_at(s: Seq<char>, s2: Seq<char>, t: Seq<Token>, r: Rule)
    requires
        file_rule(s, t) == file_rule(s2, t),
        enum_declaration(s, t, 0) == enum_declaration(s2, t, 0),
        template_declaration(s, t, 0) == template_declaration(s2, t, 0),
        inheritance_usage(s, t, 0) == inheritance_usage(s2, t, 0),
        entity_declaration(s, t, 0) == entity_declaration(s2, t, 0),
        declaration(s, t, 0) == declaration(s2, t, 0),
        config(s, t, 0) == config(s2, t, 0),
    ensures
        rule_at(s, t, r, 0) == rule_at(s2, t, r, 0),
{
    reveal(rule_at);
}

} // verus!
