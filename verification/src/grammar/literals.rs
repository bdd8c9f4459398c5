//! How the scanner reads a string literal: a text written in quotes, with each
//! quote inside escaped, is one string token, and its value is the text.
use vstd::prelude::*;
use crate::grammar::lexer::{scan_string, token_at, TokenKind};
use crate::text::{escaped, law_string_value_escaped, string_value};

verus! {

/// The first character of an escaped text is never a bare quote.
proof fn lemma_escaped_first(y: Seq<char>)
    requires
        y.len() > 0,
    ensures
        escaped(y).len() > 0,
        escaped(y)[0] != '"',
{
}

/// Scanning from `j`, where `escaped(y)` and then a quote stand, stops just
/// after that quote.
proof fn lemma_scan_escaped(s: Seq<char>, j: int, y: Seq<char>)
    requires
        0 <= j,
        j + escaped(y).len() + 1 <= s.len(),
        s.subrange(j, j + escaped(y).len()) == escaped(y),
        s[j + escaped(y).len()] == '"',
        y.len() == 0 || y.last() != '\\',
    ensures
        scan_string(s, j) == Some(j + escaped(y).len() + 1),
    decreases y.len(),
{
    let e = escaped(y);
    if y.len() > 0 {
        let y1 = y.skip(1);
        let e1 = escaped(y1);
        assert(s[j] == e[0]);
        if y1.len() > 0 {
            assert(y1.last() == y.last());
        }
        if y[0] == '"' {
            assert(e =~= seq!['\\', '"'] + e1);
            assert(s[j + 1] == e[1]);
            assert(s.subrange(j + 2, j + 2 + e1.len()) =~= e1) by {
                assert forall|m: int| 0 <= m < e1.len() implies s.subrange(j + 2, j + 2 + e1.len())[m]
                    == e1[m] by {
                    assert(s[j + 2 + m] == s.subrange(j, j + e.len())[m + 2]);
                }
            }
            lemma_scan_escaped(s, j + 2, y1);
        } else {
            assert(e =~= seq![y[0]] + e1);
            if y[0] == '\\' {
                assert(y1.len() > 0);
                lemma_escaped_first(y1);
                assert(s[j + 1] == e[1]);
            }
            assert(s.subrange(j + 1, j + 1 + e1.len()) =~= e1) by {
                assert forall|m: int| 0 <= m < e1.len() implies s.subrange(j + 1, j + 1 + e1.len())[m]
                    == e1[m] by {
                    assert(s[j + 1 + m] == s.subrange(j, j + e.len())[m + 1]);
                }
            }
            lemma_scan_escaped(s, j + 1, y1);
        }
    }
}

/// Where a text stands written as a string literal (in quotes, each quote in
/// it escaped, not ending in a backslash), the scanner reads exactly that
/// literal as one string token, and the literal's value is the text.
pub proof fn law_string_token(s: Seq<char>, i: int, x: Seq<char>)
    requires
        0 <= i,
        i + escaped(x).len() + 2 <= s.len(),
        s.subrange(i, i + escaped(x).len() + 2) == seq!['"'] + escaped(x) + seq!['"'],
        x.len() == 0 || x.last() != '\\',
    ensures
        token_at(s, i) == Some((TokenKind::Str, i + escaped(x).len() + 2)),
        string_value(s.subrange(i, i + escaped(x).len() + 2)) == x,
{
    let e = escaped(x);
    let lit = seq!['"'] + e + seq!['"'];
    assert(s[i] == lit[0]);
    assert(s[i + 1 + e.len()] == lit[(1 + e.len()) as int]);
    assert(s.subrange(i + 1, i + 1 + e.len()) =~= e) by {
        assert forall|m: int| 0 <= m < e.len() implies s.subrange(i + 1, i + 1 + e.len())[m] == e[m] by {
            assert(s[i + 1 + m] == s.subrange(i, i + e.len() + 2)[m + 1]);
        }
    }
    lemma_scan_escaped(s, i + 1, x);
    law_string_value_escaped(x);
}

} // verus!
