//! Tokens of the Conk language and the scanner that produces them.
use vstd::prelude::*;

verus! {

/// The kinds of token the scanner recognises.
#[derive(Clone, Copy, Debug, PartialEq, Eq, Structural)]
pub enum TokenKind {
    /// `[A-Za-z_][A-Za-z0-9_]*`
    Ident,
    /// A double-quoted string; `\"` inside it does not end it.
    Str,
    /// `[+-]?[0-9]+`
    Int,
    /// `[+-]?[0-9]+.[0-9]+`
    Float,
    /// One of `{ } ( ) [ ] : , . @`
    Sym(char),
}

/// A token: its kind and the character span `start..end` of the input it covers.
#[derive(Clone, Copy, Debug, PartialEq, Eq, Structural)]
pub struct Token {
    pub kind: TokenKind,
    pub start: usize,
    pub end: usize,
}

pub open spec fn is_ws(c: char) -> bool {
    c == ' ' || c == '\t' || c == '\r' || c == '\n'
}

pub open spec fn is_digit(c: char) -> bool {
    '0' <= c && c <= '9'
}

pub open spec fn is_ident_start(c: char) -> bool {
    ('a' <= c && c <= 'z') || ('A' <= c && c <= 'Z') || c == '_'
}

pub open spec fn is_ident_char(c: char) -> bool {
    is_ident_start(c) || is_digit(c)
}

pub open spec fn is_sign(c: char) -> bool {
    c == '+' || c == '-'
}

pub open spec fn is_symbol(c: char) -> bool {
    c == '{' || c == '}' || c == '(' || c == ')' || c == '[' || c == ']' || c == ':' || c == ','
        || c == '.' || c == '@'
}

/// The first index at or after `i` that does not hold an identifier character.
pub open spec fn scan_ident(s: Seq<char>, i: int) -> int
    decreases s.len() - i,
{
    if 0 <= i < s.len() && is_ident_char(s[i]) {
        scan_ident(s, i + 1)
    } else {
        i
    }
}

/// The first index at or after `i` that does not hold a decimal digit.
pub open spec fn scan_digits(s: Seq<char>, i: int) -> int
    decreases s.len() - i,
{
    if 0 <= i < s.len() && is_digit(s[i]) {
        scan_digits(s, i + 1)
    } else {
        i
    }
}

/// Given the index just after an opening quote, the index just after the closing
/// quote; `None` when the input ends first.
pub open spec fn scan_string(s: Seq<char>, i: int) -> Option<int>
    decreases s.len() - i,
{
    if !(0 <= i < s.len()) {
        None
    } else if s[i] == '"' {
        Some(i + 1)
    } else if s[i] == '\\' && i + 1 < s.len() && s[i + 1] == '"' {
        scan_string(s, i + 2)
    } else {
        scan_string(s, i + 1)
    }
}

/// A numeric token starting at `i` (at a sign or a digit): its kind and end.
pub open spec fn number_at(s: Seq<char>, i: int) -> Option<(TokenKind, int)> {
    let d = if 0 <= i < s.len() && is_sign(s[i]) { i + 1 } else { i };
    if 0 <= d < s.len() && is_digit(s[d]) {
        let e = scan_digits(s, d + 1);
        if e < s.len() && e + 1 < s.len() && s[e] == '.' && is_digit(s[e + 1]) {
            Some((TokenKind::Float, scan_digits(s, e + 2)))
        } else {
            Some((TokenKind::Int, e))
        }
    } else {
        None
    }
}

/// The token that starts at `i` (where the input holds no whitespace): its kind and end.
pub open spec fn token_at(s: Seq<char>, i: int) -> Option<(TokenKind, int)> {
    if !(0 <= i < s.len()) {
        None
    } else {
        let c = s[i];
        if is_ident_start(c) {
            Some((TokenKind::Ident, scan_ident(s, i + 1)))
        } else if is_digit(c) || is_sign(c) {
            number_at(s, i)
        } else if c == '"' {
            match scan_string(s, i + 1) {
                Some(e) => Some((TokenKind::Str, e)),
                None => None,
            }
        } else if is_symbol(c) {
            Some((TokenKind::Sym(c), i + 1))
        } else {
            None
        }
    }
}

/// Puts `pre` in front of a token sequence; an error passes through.
pub open spec fn prepend_tokens(pre: Seq<Token>, r: Result<Seq<Token>, int>) -> Result<
    Seq<Token>,
    int,
> {
    match r {
        Ok(ts) => Ok(pre + ts),
        Err(e) => Err(e),
    }
}

/// The tokens of `s` from index `i` on, whitespace skipped; `Err(k)` when the
/// character at `k` starts no token.
pub open spec fn lex_from(s: Seq<char>, i: int) -> Result<Seq<Token>, int>
    decreases s.len() - i,
{
    if !(0 <= i < s.len()) {
        Ok(Seq::empty())
    } else if is_ws(s[i]) {
        lex_from(s, i + 1)
    } else {
        match token_at(s, i) {
            Some((k, e)) => if i < e <= s.len() {
                prepend_tokens(
                    seq![Token { kind: k, start: i as usize, end: e as usize }],
                    lex_from(s, e),
                )
            } else {
                Err(i)
            },
            None => Err(i),
        }
    }
}

/// The tokens of the whole input.
pub open spec fn lex_spec(s: Seq<char>) -> Result<Seq<Token>, int> {
    lex_from(s, 0)
}

/// The text of an integer literal: an optional sign, then one or more digits.
pub open spec fn is_int_text(x: Seq<char>) -> bool {
    let d: int = if x.len() > 0 && is_sign(x[0]) { 1 } else { 0 };
    &&& d < x.len()
    &&& forall|k: int| d <= k < x.len() ==> is_digit(#[trigger] x[k])
}

/// What the grammar relies on of each token: its span lies in the input, and an
/// integer or string token has the shape of its kind.
pub open spec fn token_ok(s: Seq<char>, tok: Token) -> bool {
    &&& tok.start < tok.end <= s.len()
    &&& (tok.kind == TokenKind::Int ==> is_int_text(s.subrange(tok.start as int, tok.end as int)))
    &&& (tok.kind == TokenKind::Str ==> tok.end - tok.start >= 2)
}

/// Every token is well formed and the tokens come in input order without overlap.
#[verifier::opaque]
pub open spec fn tokens_ok(s: Seq<char>, t: Seq<Token>) -> bool {
    &&& forall|k: int| 0 <= k < t.len() ==> token_ok(s, #[trigger] t[k])
    &&& forall|k: int, l: int| 0 <= k < l < t.len() ==> #[trigger] t[k].end <= #[trigger] t[l].start
}

/// What `tokens_ok` says of one token, and of two tokens in order.
pub proof fn lemma_tokens_ok(s: Seq<char>, t: Seq<Token>, k: int, l: int)
    requires
        tokens_ok(s, t),
        0 <= k < t.len(),
    ensures
        token_ok(s, t[k]),
        k < l < t.len() ==> t[k].end <= t[l].start,
{
    reveal(tokens_ok);
}

proof fn lemma_scan_ident(s: Seq<char>, i: int)
    requires
        0 <= i <= s.len(),
    ensures
        i <= scan_ident(s, i) <= s.len(),
    decreases s.len() - i,
{
    if i < s.len() && is_ident_char(s[i]) {
        lemma_scan_ident(s, i + 1);
    }
}

proof fn lemma_scan_digits(s: Seq<char>, i: int)
    requires
        0 <= i <= s.len(),
    ensures
        i <= scan_digits(s, i) <= s.len(),
        forall|k: int| i <= k < scan_digits(s, i) ==> is_digit(#[trigger] s[k]),
    decreases s.len() - i,
{
    if i < s.len() && is_digit(s[i]) {
        lemma_scan_digits(s, i + 1);
    }
}

proof fn lemma_scan_string(s: Seq<char>, i: int)
    requires
        0 <= i,
    ensures
        scan_string(s, i) matches Some(e) ==> i < e <= s.len(),
    decreases s.len() - i,
{
    if 0 <= i < s.len() && s[i] != '"' {
        if s[i] == '\\' && i + 1 < s.len() && s[i + 1] == '"' {
            lemma_scan_string(s, i + 2);
        } else {
            lemma_scan_string(s, i + 1);
        }
    }
}

proof fn lemma_number_text(s: Seq<char>, i: int)
    requires
        0 <= i < s.len(),
    ensures
        number_at(s, i) matches Some((k, e)) ==> {
            &&& i < e <= s.len()
            &&& k == TokenKind::Int ==> is_int_text(s.subrange(i, e))
        },
{
    let d = if is_sign(s[i]) { i + 1 } else { i };
    if 0 <= d < s.len() && is_digit(s[d]) {
        lemma_scan_digits(s, d + 1);
        let e = scan_digits(s, d + 1);
        if e + 1 < s.len() && s[e] == '.' && is_digit(s[e + 1]) {
            lemma_scan_digits(s, e + 2);
        } else {
            let x = s.subrange(i, e);
            let dx: int = if x.len() > 0 && is_sign(x[0]) { 1 } else { 0 };
            assert(x[0] == s[i]);
            assert(dx == d - i);
            assert forall|k: int| dx <= k < x.len() implies is_digit(#[trigger] x[k]) by {
                assert(x[k] == s[i + k]);
            }
        }
    }
}

proof fn lemma_token_at(s: Seq<char>, i: int)
    requires
        0 <= i < s.len(),
        s.len() <= usize::MAX,
    ensures
        token_at(s, i) matches Some((k, e)) ==> token_ok(
            s,
            Token { kind: k, start: i as usize, end: e as usize },
        ) || !(i < e <= s.len()),
{
    let c = s[i];
    if is_ident_start(c) {
    } else if is_digit(c) || is_sign(c) {
        lemma_number_text(s, i);
    } else if c == '"' {
        lemma_scan_string(s, i + 1);
    }
}

/// The scanner only produces well-formed tokens, in order, from index `i` on.
pub proof fn lemma_lex_from_ok(s: Seq<char>, i: int)
    requires
        0 <= i,
        s.len() <= usize::MAX,
    ensures
        lex_from(s, i) matches Ok(ts) ==> {
            &&& tokens_ok(s, ts)
            &&& forall|k: int| 0 <= k < ts.len() ==> i <= #[trigger] ts[k].start
        },
    decreases s.len() - i,
{
    reveal(tokens_ok);
    if !(0 <= i < s.len()) {
    } else if is_ws(s[i]) {
        lemma_lex_from_ok(s, i + 1);
    } else {
        match token_at(s, i) {
            Some((k, e)) => if i < e <= s.len() {
                lemma_token_at(s, i);
                lemma_lex_from_ok(s, e);
                let tok = Token { kind: k, start: i as usize, end: e as usize };
                match lex_from(s, e) {
                    Ok(rest) => {
                        let ts = seq![tok] + rest;
                        assert(ts[0] == tok);
                        assert forall|m: int| 0 <= m < ts.len() implies token_ok(s, #[trigger] ts[m])
                            && i <= ts[m].start by {
                            if m > 0 {
                                assert(ts[m] == rest[m - 1]);
                            }
                        }
                        reveal(tokens_ok);
                        assert forall|m: int, l: int| 0 <= m < l < ts.len() implies #[trigger] ts[m].end
                            <= #[trigger] ts[l].start by {
                            assert(ts[l] == rest[l - 1]);
                            if m > 0 {
                                assert(ts[m] == rest[m - 1]);
                            }
                        }
                    },
                    Err(_) => {},
                }
            },
            None => {},
        }
    }
}

fn is_ws_exec(c: char) -> (b: bool)
    ensures
        b == is_ws(c),
{
    c == ' ' || c == '\t' || c == '\r' || c == '\n'
}

fn is_digit_exec(c: char) -> (b: bool)
    ensures
        b == is_digit(c),
{
    '0' <= c && c <= '9'
}

fn is_ident_start_exec(c: char) -> (b: bool)
    ensures
        b == is_ident_start(c),
{
    ('a' <= c && c <= 'z') || ('A' <= c && c <= 'Z') || c == '_'
}

fn is_ident_char_exec(c: char) -> (b: bool)
    ensures
        b == is_ident_char(c),
{
    is_ident_start_exec(c) || is_digit_exec(c)
}

fn is_symbol_exec(c: char) -> (b: bool)
    ensures
        b == is_symbol(c),
{
    c == '{' || c == '}' || c == '(' || c == ')' || c == '[' || c == ']' || c == ':' || c == ','
        || c == '.' || c == '@'
}

fn scan_ident_exec(s: &[char], i: usize) -> (e: usize)
    requires
        i <= s@.len(),
    ensures
        e as int == scan_ident(s@, i as int),
        i <= e <= s@.len(),
{
    let mut j = i;
    while j < s.len() && is_ident_char_exec(s[j])
        invariant
            i <= j <= s@.len(),
            scan_ident(s@, i as int) == scan_ident(s@, j as int),
        decreases s@.len() - j,
    {
        j = j + 1;
    }
    j
}

fn scan_digits_exec(s: &[char], i: usize) -> (e: usize)
    requires
        i <= s@.len(),
    ensures
        e as int == scan_digits(s@, i as int),
        i <= e <= s@.len(),
{
    let mut j = i;
    while j < s.len() && is_digit_exec(s[j])
        invariant
            i <= j <= s@.len(),
            scan_digits(s@, i as int) == scan_digits(s@, j as int),
        decreases s@.len() - j,
    {
        j = j + 1;
    }
    j
}

fn scan_string_exec(s: &[char], i: usize) -> (r: Option<usize>)
    requires
        i <= s@.len(),
    ensures
        match r {
            Some(e) => scan_string(s@, i as int) == Some(e as int) && i < e <= s@.len(),
            None => scan_string(s@, i as int) is None,
        },
{
    let mut j = i;
    while j < s.len()
        invariant
            i <= j <= s@.len(),
            scan_string(s@, i as int) == scan_string(s@, j as int),
        decreases s@.len() - j,
    {
        if s[j] == '"' {
            return Some(j + 1);
        } else if s[j] == '\\' && j + 1 < s.len() && s[j + 1] == '"' {
            j = j + 2;
        } else {
            j = j + 1;
        }
    }
    None
}

fn number_exec(s: &[char], i: usize) -> (r: Option<(TokenKind, usize)>)
    requires
        i < s@.len(),
    ensures
        match r {
            Some((k, e)) => number_at(s@, i as int) == Some((k, e as int)) && i < e <= s@.len(),
            None => number_at(s@, i as int) is None,
        },
{
    let d = if s[i] == '+' || s[i] == '-' {
        i + 1
    } else {
        i
    };
    if d < s.len() && is_digit_exec(s[d]) {
        let e = scan_digits_exec(s, d + 1);
        if e < s.len() && e + 1 < s.len() && s[e] == '.' && is_digit_exec(s[e + 1]) {
            let f = scan_digits_exec(s, e + 2);
            Some((TokenKind::Float, f))
        } else {
            Some((TokenKind::Int, e))
        }
    } else {
        None
    }
}

fn token_exec(s: &[char], i: usize) -> (r: Option<(TokenKind, usize)>)
    requires
        i < s@.len(),
    ensures
        match r {
            Some((k, e)) => token_at(s@, i as int) == Some((k, e as int)) && i < e <= s@.len(),
            None => token_at(s@, i as int) is None,
        },
{
    let c = s[i];
    if is_ident_start_exec(c) {
        let e = scan_ident_exec(s, i + 1);
        Some((TokenKind::Ident, e))
    } else if is_digit_exec(c) || c == '+' || c == '-' {
        number_exec(s, i)
    } else if c == '"' {
        match scan_string_exec(s, i + 1) {
            Some(e) => Some((TokenKind::Str, e)),
            None => None,
        }
    } else if is_symbol_exec(c) {
        Some((TokenKind::Sym(c), i + 1))
    } else {
        None
    }
}

/// Splits the input into tokens, skipping whitespace; on failure, the index of
/// the first character that starts no token.
pub fn lex(s: &[char]) -> (r: Result<Vec<Token>, usize>)
    ensures
        match r {
            Ok(ts) => lex_spec(s@) == Ok::<Seq<Token>, int>(ts@),
            Err(e) => lex_spec(s@) == Err::<Seq<Token>, int>(e as int),
        },
{
    let mut toks: Vec<Token> = Vec::new();
    let mut i: usize = 0;
    while i < s.len()
        invariant
            i <= s@.len(),
            lex_spec(s@) == prepend_tokens(toks@, lex_from(s@, i as int)),
        decreases s@.len() - i,
    {
        if is_ws_exec(s[i]) {
            i = i + 1;
        } else {
            match token_exec(s, i) {
                Some((k, e)) => {
                    let tok = Token { kind: k, start: i, end: e };
                    proof {
                        let rest = lex_from(s@, e as int);
                        assert(lex_from(s@, i as int) == prepend_tokens(seq![tok], rest));
                        match rest {
                            Ok(ts) => {
                                assert(toks@ + (seq![tok] + ts) =~= toks@.push(tok) + ts);
                            },
                            Err(_) => {},
                        }
                    }
                    toks.push(tok);
                    i = e;
                },
                None => {
                    return Err(i);
                },
            }
        }
    }
    assert(toks@ + Seq::<Token>::empty() =~= toks@);
    Ok(toks)
}

} // verus!
