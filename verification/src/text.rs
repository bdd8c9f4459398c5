//! Characters, strings, and the values of literals.
use vstd::prelude::*;
use crate::grammar::lexer::{is_digit, is_int_text, is_sign};

verus! {

broadcast use vstd::string::group_string_axioms;

/// The characters of `input`, in order.
pub fn to_chars(input: &str) -> (v: Vec<char>)
    ensures
        v@ == input@,
{
    let mut v: Vec<char> = Vec::new();
    for c in it: input.chars()
        invariant
            v@ == it.seq().take(it.index() as int),
    {
        v.push(c);
    }
    v
}

/// Whether two strings hold the same characters.
pub fn str_eq(a: &str, b: &str) -> (r: bool)
    ensures
        r == (a@ == b@),
{
    let n = a.unicode_len();
    if n != b.unicode_len() {
        return false;
    }
    let mut k: usize = 0;
    while k < n
        invariant
            n == a@.len() == b@.len(),
            k <= n,
            forall|m: int| 0 <= m < k ==> a@[m] == b@[m],
        decreases n - k,
    {
        if a.get_char(k) != b.get_char(k) {
            return false;
        }
        k = k + 1;
    }
    assert(a@ =~= b@);
    true
}

/// `String::push`: appends one character.
#[verifier::external_body]
pub(crate) fn push_char(st: &mut String, c: char)
    ensures
        final(st)@ == old(st)@.push(c),
{
    st.push(c);
}

/// Appends the characters of `x` to `out`.
pub fn push_chars(out: &mut String, x: &str)
    ensures
        final(out)@ == old(out)@ + x@,
{
    let cs = to_chars(x);
    let mut k: usize = 0;
    while k < cs.len()
        invariant
            cs@ == x@,
            k <= cs@.len(),
            out@ == old(out)@ + cs@.take(k as int),
        decreases cs@.len() - k,
    {
        let ghost before = out@;
        push_char(out, cs[k]);
        assert(before.push(cs@[k as int]) =~= old(out)@ + cs@.take(k + 1));
        k = k + 1;
    }
    assert(cs@.take(cs@.len() as int) =~= cs@);
}

/// The characters `start..end` of `s` as a string.
pub fn chars_to_string(s: &[char], start: usize, end: usize) -> (r: String)
    requires
        start <= end <= s@.len(),
    ensures
        r@ == s@.subrange(start as int, end as int),
{
    let mut r = String::new();
    let mut k = start;
    while k < end
        invariant
            start <= k <= end <= s@.len(),
            r@ == s@.subrange(start as int, k as int),
        decreases end - k,
    {
        push_char(&mut r, s[k]);
        assert(s@.subrange(start as int, k as int).push(s@[k as int]) =~= s@.subrange(
            start as int,
            k + 1,
        ));
        k = k + 1;
    }
    r
}

/// The text with every `\"` replaced by `"`, matches taken from the left.
pub open spec fn unescape(x: Seq<char>) -> Seq<char>
    decreases x.len(),
{
    if x.len() == 0 {
        Seq::empty()
    } else if x.len() >= 2 && x[0] == '\\' && x[1] == '"' {
        seq!['"'] + unescape(x.skip(2))
    } else {
        seq![x[0]] + unescape(x.skip(1))
    }
}

/// Text with no backslash reads as itself: only `\"` is ever replaced.
pub proof fn law_unescape_plain(x: Seq<char>)
    requires
        forall|k: int| 0 <= k < x.len() ==> x[k] != '\\',
    ensures
        unescape(x) == x,
    decreases x.len(),
{
    if x.len() > 0 {
        law_unescape_plain(x.skip(1));
        assert(seq![x[0]] + x.skip(1) =~= x);
    }
}

/// The text `x` as written inside a string literal: a backslash put before
/// each quote.
pub open spec fn escaped(x: Seq<char>) -> Seq<char>
    decreases x.len(),
{
    if x.len() == 0 {
        Seq::empty()
    } else if x[0] == '"' {
        seq!['\\', '"'] + escaped(x.skip(1))
    } else {
        seq![x[0]] + escaped(x.skip(1))
    }
}

/// Reading back a text written with its quotes escaped gives the text itself:
/// no other character, a backslash among them, changes on the way.
pub proof fn law_unescape_escaped(x: Seq<char>)
    ensures
        unescape(escaped(x)) == x,
    decreases x.len(),
{
    if x.len() > 0 {
        let x1 = x.skip(1);
        let e1 = escaped(x1);
        law_unescape_escaped(x1);
        if x[0] == '"' {
            assert((seq!['\\', '"'] + e1).skip(2) =~= e1);
            assert(seq!['"'] + x1 =~= x);
        } else {
            let e = seq![x[0]] + e1;
            assert(e.skip(1) =~= e1);
            if x1.len() > 0 {
                assert(e1[0] != '"');
            }
            assert(seq![x[0]] + x1 =~= x);
        }
    }
}

/// The value of a string literal: its quotes removed, then `\"` read as `"`.
pub open spec fn string_value(x: Seq<char>) -> Seq<char> {
    unescape(x.subrange(1, x.len() - 1))
}

/// The string literal that writes `x` (in quotes, each quote escaped) has the
/// value `x`.
pub proof fn law_string_value_escaped(x: Seq<char>)
    ensures
        string_value(seq!['"'] + escaped(x) + seq!['"']) == x,
{
    let lit = seq!['"'] + escaped(x) + seq!['"'];
    assert(lit.subrange(1, lit.len() - 1) =~= escaped(x));
    law_unescape_escaped(x);
}

/// The characters `start..end` of `s` with every `\"` replaced by `"`.
pub fn unescape_chars(s: &[char], start: usize, end: usize) -> (r: String)
    requires
        start <= end <= s@.len(),
    ensures
        r@ == unescape(s@.subrange(start as int, end as int)),
{
    let mut r = String::new();
    let mut k = start;
    let ghost whole = s@.subrange(start as int, end as int);
    while k < end
        invariant
            start <= k <= end <= s@.len(),
            whole == s@.subrange(start as int, end as int),
            r@ + unescape(s@.subrange(k as int, end as int)) == unescape(whole),
        decreases end - k,
    {
        let ghost x = s@.subrange(k as int, end as int);
        let ghost before = r@;
        if k + 1 < end && s[k] == '\\' && s[k + 1] == '"' {
            push_char(&mut r, '"');
            assert(x.skip(2) =~= s@.subrange(k + 2, end as int));
            assert(before.push('"') + unescape(x.skip(2)) =~= before + (seq!['"'] + unescape(
                x.skip(2),
            )));
            k = k + 2;
        } else {
            push_char(&mut r, s[k]);
            assert(x.skip(1) =~= s@.subrange(k + 1, end as int));
            assert(before.push(s@[k as int]) + unescape(x.skip(1)) =~= before + (seq![s@[k as int]]
                + unescape(x.skip(1))));
            k = k + 1;
        }
    }
    assert(unescape(s@.subrange(end as int, end as int)) =~= Seq::<char>::empty());
    assert(r@ + Seq::<char>::empty() =~= r@);
    r
}

/// The value of the string literal at `start..end` of `s`.
pub fn string_literal_value(s: &[char], start: usize, end: usize) -> (r: String)
    requires
        start + 2 <= end <= s@.len(),
    ensures
        r@ == string_value(s@.subrange(start as int, end as int)),
{
    let r = unescape_chars(s, start + 1, end - 1);
    assert(s@.subrange(start as int, end as int).subrange(1, end - start - 1) =~= s@.subrange(
        start + 1,
        end - 1,
    ));
    r
}

/// Why an integer literal has no `i64` value.
#[derive(Clone, Copy, Debug, PartialEq, Eq, Structural)]
pub enum IntOverflow {
    /// The literal is larger than `i64::MAX`.
    PosOverflow,
    /// The literal is smaller than `i64::MIN`.
    NegOverflow,
}

pub open spec fn digit_value(c: char) -> int {
    c as int - '0' as int
}

/// The number a run of decimal digits denotes.
pub open spec fn digits_value(d: Seq<char>) -> int
    decreases d.len(),
{
    if d.len() == 0 {
        0
    } else {
        digits_value(d.drop_last()) * 10 + digit_value(d.last())
    }
}

/// The number an integer literal denotes: an optional sign, then digits.
pub open spec fn int_text_value(x: Seq<char>) -> int {
    if x.len() > 0 && x[0] == '-' {
        -digits_value(x.skip(1))
    } else if x.len() > 0 && x[0] == '+' {
        digits_value(x.skip(1))
    } else {
        digits_value(x)
    }
}

/// The `i64` an integer literal denotes, or which bound it passes.
pub open spec fn int_literal_result(x: Seq<char>) -> Result<i64, IntOverflow> {
    let v = int_text_value(x);
    if v > i64::MAX {
        Err(IntOverflow::PosOverflow)
    } else if v < i64::MIN {
        Err(IntOverflow::NegOverflow)
    } else {
        Ok(v as i64)
    }
}

/// The decimal digit for `d`, for `d` in `0..10`.
pub open spec fn digit_char(d: int) -> char {
    seq!['0', '1', '2', '3', '4', '5', '6', '7', '8', '9'][d]
}

/// `n` written in decimal, with no sign and no leading zero.
pub open spec fn decimal(n: nat) -> Seq<char>
    decreases n,
{
    if n < 10 {
        seq![digit_char(n as int)]
    } else {
        decimal(n / 10).push(digit_char(n as int % 10))
    }
}

proof fn lemma_digit_char(d: int)
    requires
        0 <= d < 10,
    ensures
        digit_value(digit_char(d)) == d,
        is_digit(digit_char(d)),
{
    let t = seq!['0', '1', '2', '3', '4', '5', '6', '7', '8', '9'];
    if d == 0 {
        assert(t[0] == '0');
    } else if d == 1 {
        assert(t[1] == '1');
    } else if d == 2 {
        assert(t[2] == '2');
    } else if d == 3 {
        assert(t[3] == '3');
    } else if d == 4 {
        assert(t[4] == '4');
    } else if d == 5 {
        assert(t[5] == '5');
    } else if d == 6 {
        assert(t[6] == '6');
    } else if d == 7 {
        assert(t[7] == '7');
    } else if d == 8 {
        assert(t[8] == '8');
    } else {
        assert(t[9] == '9');
    }
}

proof fn lemma_decimal(n: nat)
    ensures
        decimal(n).len() > 0,
        is_digit(decimal(n)[0]),
        digits_value(decimal(n)) == n,
    decreases n,
{
    if n < 10 {
        lemma_digit_char(n as int);
        let d = seq![digit_char(n as int)];
        assert(d.drop_last() =~= Seq::<char>::empty());
        assert(digits_value(Seq::<char>::empty()) == 0);
        assert(d.last() == digit_char(n as int));
        assert(digits_value(d) == digits_value(d.drop_last()) * 10 + digit_value(d.last()));
    } else {
        let q = (n / 10) as nat;
        lemma_decimal(q);
        lemma_digit_char(n as int % 10);
        let d = decimal(n);
        assert(d.drop_last() =~= decimal(q));
        assert(d[0] == decimal(q)[0]);
        assert(d.last() == digit_char(n as int % 10));
        assert(digits_value(d) == digits_value(decimal(q)) * 10 + (n as int % 10));
        assert(q as int == n as int / 10);
        assert(n as int == (n as int / 10) * 10 + n as int % 10) by (nonlinear_arith);
    }
}

/// An integer written in decimal reads back as itself: with no sign or a `+`
/// as the number, with a `-` as its negation, and past the bounds of `i64` as
/// the bound it passes.
pub proof fn law_int_literal_decimal(n: nat)
    ensures
        n <= i64::MAX ==> int_literal_result(decimal(n)) == Ok::<i64, IntOverflow>(n as i64),
        n <= i64::MAX ==> int_literal_result(seq!['+'] + decimal(n)) == Ok::<i64, IntOverflow>(
            n as i64,
        ),
        n <= i64::MAX + 1 ==> int_literal_result(seq!['-'] + decimal(n)) == Ok::<i64, IntOverflow>(
            (-n) as i64,
        ),
        n > i64::MAX ==> int_literal_result(decimal(n)) == Err::<i64, IntOverflow>(
            IntOverflow::PosOverflow,
        ),
        n > i64::MAX ==> int_literal_result(seq!['+'] + decimal(n)) == Err::<i64, IntOverflow>(
            IntOverflow::PosOverflow,
        ),
        n > i64::MAX + 1 ==> int_literal_result(seq!['-'] + decimal(n)) == Err::<i64, IntOverflow>(
            IntOverflow::NegOverflow,
        ),
{
    lemma_decimal(n);
    let d = decimal(n);
    assert(d[0] != '-' && d[0] != '+');
    assert((seq!['+'] + d).skip(1) =~= d);
    assert((seq!['-'] + d).skip(1) =~= d);
    assert(int_text_value(d) == n);
    assert(int_text_value(seq!['+'] + d) == n);
    assert(int_text_value(seq!['-'] + d) == -n);
}

proof fn lemma_digits_nonneg(d: Seq<char>)
    requires
        forall|k: int| 0 <= k < d.len() ==> is_digit(#[trigger] d[k]),
    ensures
        digits_value(d) >= 0,
    decreases d.len(),
{
    if d.len() > 0 {
        lemma_digits_nonneg(d.drop_last());
        assert(is_digit(d[d.len() - 1]));
    }
}

/// A prefix of a run of digits denotes no more than the whole run.
proof fn lemma_digits_prefix(d: Seq<char>, k: int)
    requires
        forall|m: int| 0 <= m < d.len() ==> is_digit(#[trigger] d[m]),
        0 <= k <= d.len(),
    ensures
        digits_value(d.take(k)) <= digits_value(d),
    decreases d.len(),
{
    if k < d.len() {
        let p = d.drop_last();
        assert(p.take(k) =~= d.take(k));
        lemma_digits_prefix(p, k);
        lemma_digits_nonneg(p);
        assert(is_digit(d[d.len() - 1]));
        let a = digits_value(p);
        assert(a * 10 + digit_value(d.last()) >= a) by (nonlinear_arith)
            requires
                a >= 0,
                digit_value(d.last()) >= 0,
        ;
    } else {
        assert(d.take(k) =~= d);
    }
}

/// Reading one more digit.
proof fn lemma_digits_step(d: Seq<char>, k: int)
    requires
        0 <= k < d.len(),
    ensures
        digits_value(d.take(k + 1)) == digits_value(d.take(k)) * 10 + digit_value(d[k]),
{
    assert(d.take(k + 1).drop_last() =~= d.take(k));
}

/// The value of the integer literal at `start..end` of `s`, as `str::parse::<i64>` reads it.
pub fn int_literal_value(s: &[char], start: usize, end: usize) -> (r: Result<i64, IntOverflow>)
    requires
        start <= end <= s@.len(),
        is_int_text(s@.subrange(start as int, end as int)),
    ensures
        r == int_literal_result(s@.subrange(start as int, end as int)),
{
    let ghost x = s@.subrange(start as int, end as int);
    let negative = s[start] == '-';
    let d0 = if s[start] == '-' || s[start] == '+' {
        start + 1
    } else {
        start
    };
    let ghost d = s@.subrange(d0 as int, end as int);
    proof {
        assert(x[0] == s@[start as int]);
        assert(d =~= (if is_sign(x[0]) { x.skip(1) } else { x }));
        assert forall|m: int| 0 <= m < d.len() implies is_digit(#[trigger] d[m]) by {
            assert(d[m] == x[m + (d0 - start)]);
        }
        assert(d.take(0) =~= Seq::<char>::empty());
        assert(int_text_value(x) == if negative { -digits_value(d) } else { digits_value(d) });
    }
    let mut acc: i64 = 0;
    let mut k = d0;
    while k < end
        invariant
            start <= d0 <= k <= end <= s@.len(),
            d == s@.subrange(d0 as int, end as int),
            x == s@.subrange(start as int, end as int),
            int_text_value(x) == if negative { -digits_value(d) } else { digits_value(d) },
            forall|m: int| 0 <= m < d.len() ==> is_digit(#[trigger] d[m]),
            negative ==> acc == -digits_value(d.take(k - d0)),
            !negative ==> acc == digits_value(d.take(k - d0)),
        decreases end - k,
    {
        proof {
            assert(d[k - d0] == s@[k as int]);
            assert(is_digit(d[k - d0]));
            lemma_digits_step(d, k - d0);
            lemma_digits_prefix(d, k - d0 + 1);
            lemma_digits_nonneg(d.take(k - d0));
        }
        let dig = (s[k] as u32 - '0' as u32) as i64;
        let ghost a = digits_value(d.take(k - d0));
        let ghost b = digits_value(d.take(k - d0 + 1));
        assert(dig == digit_value(d[k - d0]));
        assert(0 <= dig <= 9);
        assert(b == a * 10 + dig);
        assert(digits_value(d) >= b);
        let m = acc.checked_mul(10);
        match m {
            None => {
                proof {
                    lemma_digits_nonneg(d.take(k - d0));
                }
                if negative {
                    return Err(IntOverflow::NegOverflow);
                } else {
                    return Err(IntOverflow::PosOverflow);
                }
            },
            Some(m) => {
                let n = if negative {
                    m.checked_sub(dig)
                } else {
                    m.checked_add(dig)
                };
                match n {
                    None => {
                        if negative {
                            return Err(IntOverflow::NegOverflow);
                        } else {
                            return Err(IntOverflow::PosOverflow);
                        }
                    },
                    Some(n) => {
                        acc = n;
                    },
                }
            },
        }
        k = k + 1;
    }
    assert(d.take(end - d0) =~= d);
    Ok(acc)
}

} // verus!
