//! Values and arguments of a `ConkAST`, and how they are read from the parse tree.
use vstd::prelude::*;
use crate::ast::error::Error;
use crate::grammar::tree::{lemma_children, Pair, Rule, SpecPair};
use crate::grammar::wf::{
    span_ok, text, wf_argument, wf_argument_list, wf_ident, wf_name, wf_string, wf_value,
    wf_value_list,
};
use crate::text::{
    chars_to_string, int_literal_result, int_literal_value, string_literal_value, string_value,
    IntOverflow,
};

verus! {

/// A value written in a config block, an argument or a type parameter.
#[derive(Debug)]
pub enum Value {
    /// A decimal literal such as `-3.14`, kept as written.
    Float(String),
    Integer(i64),
    List(Vec<Value>),
    /// `name(arguments)` or `"schema".name(arguments)`; the schema is kept as
    /// written, quotes included.
    FunctionCall { schema: Option<String>, name: String, arguments: Vec<Argument> },
    /// `a.b.c` or `"schema".a.b`: the first name, then the others in order.
    QualifiedIdentifier { schema: Option<String>, identifier: String, qualifications: Vec<String> },
    /// `a` or `"schema".a`.
    Identifier { schema: Option<String>, identifier: String },
    /// A string literal, quotes removed and `\"` read as `"`.
    String(String),
}

/// One argument of a call or an attribute.
#[derive(Debug)]
pub enum Argument {
    Positional { value: Value },
    Named { name: String, value: Value },
}

/// The first integer literal at or below node `p`, in the order written, that
/// has no `i64` value: why it has none.
pub open spec fn int_err(s: Seq<char>, p: SpecPair) -> Option<IntOverflow>
    decreases p, 1int, 0int,
{
    if p.rule == Rule::integer_literal {
        match int_literal_result(text(s, p)) {
            Ok(_) => None,
            Err(k) => Some(k),
        }
    } else {
        ints_err(s, p, 0)
    }
}

/// The same, below the children of `p` from index `k` on.
pub open spec fn ints_err(s: Seq<char>, p: SpecPair, k: int) -> Option<IntOverflow>
    decreases p, 0int, p.inner.len() - k,
{
    if 0 <= k < p.inner.len() {
        match int_err(s, p.inner[k]) {
            Some(e) => Some(e),
            None => ints_err(s, p, k + 1),
        }
    } else {
        None
    }
}

/// Children `k..m` of `p` hold no bad integer literal, so the search passes them.
pub proof fn lemma_ints_skip(s: Seq<char>, p: SpecPair, k: int, m: int)
    requires
        0 <= k <= m <= p.inner.len(),
        forall|j: int| k <= j < m ==> int_err(s, #[trigger] p.inner[j]) is None,
    ensures
        ints_err(s, p, k) == ints_err(s, p, m),
    decreases m - k,
{
    if k < m {
        lemma_ints_skip(s, p, k + 1, m);
    }
}

/// A node none of whose children holds a bad integer literal holds none.
pub proof fn lemma_ints_none(s: Seq<char>, p: SpecPair)
    requires
        p.rule != Rule::integer_literal,
        forall|j: int| 0 <= j < p.inner.len() ==> int_err(s, #[trigger] p.inner[j]) is None,
    ensures
        int_err(s, p) is None,
{
    lemma_ints_skip(s, p, 0, p.inner.len() as int);
}

/// A node whose children are leaves that are no integer literals holds no bad
/// integer literal.
pub proof fn lemma_flat(s: Seq<char>, p: SpecPair)
    requires
        p.rule != Rule::integer_literal,
        forall|j: int|
            0 <= j < p.inner.len() ==> (#[trigger] p.inner[j]).inner.len() == 0 && p.inner[j].rule
                != Rule::integer_literal,
    ensures
        int_err(s, p) is None,
{
    assert forall|j: int| 0 <= j < p.inner.len() implies int_err(s, #[trigger] p.inner[j]) is None by {
        lemma_ints_none(s, p.inner[j]);
    }
    lemma_ints_none(s, p);
}

/// When only the last child of `p` can hold a bad integer literal, `p` holds
/// what it holds.
pub proof fn lemma_last_child(s: Seq<char>, p: SpecPair)
    requires
        p.rule != Rule::integer_literal,
        p.inner.len() >= 1,
        forall|j: int| 0 <= j < p.inner.len() - 1 ==> int_err(s, #[trigger] p.inner[j]) is None,
    ensures
        int_err(s, p) == int_err(s, p.inner[p.inner.len() - 1]),
{
    let n = p.inner.len() as int;
    lemma_ints_skip(s, p, 0, n - 1);
    assert(ints_err(s, p, n) is None);
    assert(ints_err(s, p, n - 1) == int_err(s, p.inner[n - 1]));
    assert(int_err(s, p) == ints_err(s, p, 0));
}

/// A name, with or without a schema, holds no integer literal.
pub proof fn lemma_name_no_int(s: Seq<char>, n: SpecPair)
    requires
        wf_name(s, n),
    ensures
        int_err(s, n) is None,
{
    lemma_flat(s, n);
}

/// The value node `p` denotes `v`.
pub open spec fn value_of(s: Seq<char>, p: SpecPair, v: Value) -> bool
    decreases p, 1int,
{
    if p.rule == Rule::string_literal {
        v matches Value::String(x) && x@ == string_value(text(s, p))
    } else if p.rule == Rule::integer_literal {
        v matches Value::Integer(n) && int_literal_result(text(s, p)) == Ok::<i64, IntOverflow>(n)
    } else if p.rule == Rule::float_literal {
        v matches Value::Float(x) && x@ == text(s, p)
    } else if p.rule == Rule::identifier {
        v matches Value::Identifier { schema, identifier } && schema is None && identifier@ == text(
            s,
            p,
        )
    } else if p.rule == Rule::schema_identifier {
        &&& v matches Value::Identifier { schema, identifier }
        &&& schema matches Some(x) && x@ == string_value(text(s, p.inner[0]))
        &&& identifier@ == text(s, p.inner[1])
    } else if p.rule == Rule::qualified_identifier {
        &&& v matches Value::QualifiedIdentifier { schema, identifier, qualifications }
        &&& schema is None
        &&& identifier@ == text(s, p.inner[0])
        &&& qualifications@.len() == p.inner.len() - 1
        &&& forall|k: int|
            0 <= k < qualifications@.len() ==> (#[trigger] qualifications@[k])@ == text(
                s,
                p.inner[k + 1],
            )
    } else if p.rule == Rule::schema_qualified_identifier {
        &&& v matches Value::QualifiedIdentifier { schema, identifier, qualifications }
        &&& schema matches Some(x) && x@ == string_value(text(s, p.inner[0]))
        &&& identifier@ == text(s, p.inner[1])
        &&& qualifications@.len() == p.inner.len() - 2
        &&& forall|k: int|
            0 <= k < qualifications@.len() ==> (#[trigger] qualifications@[k])@ == text(
                s,
                p.inner[k + 2],
            )
    } else if p.rule == Rule::list_literal {
        v matches Value::List(items) && if p.inner.len() >= 1 {
            &&& items@.len() == p.inner[0].inner.len()
            &&& forall|k: int|
                0 <= k < items@.len() ==> value_of(s, p.inner[0].inner[k], #[trigger] items@[k])
        } else {
            items@.len() == 0
        }
    } else if p.rule == Rule::function_call {
        &&& v matches Value::FunctionCall { schema, name, arguments }
        &&& callee_of(s, p.inner[0], schema, name)
        &&& if p.inner.len() >= 2 {
            arguments_of(s, p.inner[1], arguments@)
        } else {
            arguments@.len() == 0
        }
    } else {
        false
    }
}

/// The name node of a call denotes `schema` and `name`: a schema is kept as
/// written, quotes included.
pub open spec fn callee_of(s: Seq<char>, n: SpecPair, schema: Option<String>, name: String) -> bool {
    if n.rule == Rule::schema_identifier {
        schema matches Some(x) && x@ == text(s, n.inner[0]) && name@ == text(s, n.inner[1])
    } else {
        schema is None && name@ == text(s, n)
    }
}

/// The argument node `a` denotes `arg`.
pub open spec fn argument_of(s: Seq<char>, a: SpecPair, arg: Argument) -> bool
    decreases a, 1int,
{
    if a.inner.len() >= 1 && a.inner[0].rule == Rule::named_argument && a.inner[0].inner.len() >= 2 {
        arg matches Argument::Named { name, value } && name@ == text(s, a.inner[0].inner[0])
            && value_of(s, a.inner[0].inner[1], value)
    } else if a.inner.len() >= 1 && a.inner[0].inner.len() >= 1 {
        arg matches Argument::Positional { value } && value_of(s, a.inner[0].inner[0], value)
    } else {
        false
    }
}

/// The argument list node `q` denotes `args`, in order.
pub open spec fn arguments_of(s: Seq<char>, q: SpecPair, args: Seq<Argument>) -> bool
    decreases q, 1int,
{
    &&& args.len() == q.inner.len()
    &&& forall|k: int| 0 <= k < args.len() ==> argument_of(s, q.inner[k], #[trigger] args[k])
}

/// Converts value node `p`.
pub fn parse_value(input: &[char], p: &Pair) -> (r: Result<Value, Error>)
    requires
        wf_value(input@, p@),
    ensures
        match r {
            Ok(v) => int_err(input@, p@) is None && value_of(input@, p@, v),
            Err(e) => int_err(input@, p@) matches Some(k) && e == Error::ParseInt(k),
        },
    decreases p@,
{
    proof {
        lemma_children(p);
    }
    match p.rule {
        Rule::string_literal => {
            proof {
                lemma_flat(input@, p@);
            }
            Ok(Value::String(string_literal_value(input, p.start, p.end)))
        },
        Rule::integer_literal => match int_literal_value(input, p.start, p.end) {
            Ok(n) => Ok(Value::Integer(n)),
            Err(k) => Err(Error::ParseInt(k)),
        },
        Rule::float_literal => {
            proof {
                lemma_flat(input@, p@);
            }
            Ok(Value::Float(chars_to_string(input, p.start, p.end)))
        },
        Rule::identifier => {
            proof {
                lemma_flat(input@, p@);
            }
            Ok(Value::Identifier { schema: None, identifier: chars_to_string(input, p.start, p.end) })
        },
        Rule::schema_identifier => {
            proof {
                lemma_flat(input@, p@);
            }
            let sc = &p.inner[0];
            let id = &p.inner[1];
            Ok(
                Value::Identifier {
                    schema: Some(string_literal_value(input, sc.start, sc.end)),
                    identifier: chars_to_string(input, id.start, id.end),
                },
            )
        },
        Rule::qualified_identifier | Rule::schema_qualified_identifier => {
            proof {
                assert forall|j: int| 0 <= j < p@.inner.len() implies (#[trigger] p@.inner[j]).inner.len()
                    == 0 && p@.inner[j].rule != Rule::integer_literal by {
                    if p@.rule == Rule::schema_qualified_identifier && j == 0 {
                        assert(wf_string(input@, p@.inner[0]));
                    } else {
                        assert(wf_ident(input@, p@.inner[j]));
                    }
                }
                lemma_flat(input@, p@);
            }
            let schema_first = p.rule == Rule::schema_qualified_identifier;
            let mut k: usize = 0;
            let mut schema: Option<String> = None;
            if schema_first {
                let sc = &p.inner[0];
                schema = Some(string_literal_value(input, sc.start, sc.end));
                k = 1;
            }
            assert(wf_ident(input@, p@.inner[k as int]));
            let first = &p.inner[k];
            let identifier = chars_to_string(input, first.start, first.end);
            k = k + 1;
            let ghost base = k;
            let mut qualifications: Vec<String> = Vec::new();
            while k < p.inner.len()
                invariant
                    wf_value(input@, p@),
                    p@.rule == Rule::qualified_identifier || p@.rule
                        == Rule::schema_qualified_identifier,
                    p@.inner.len() == p.inner@.len(),
                    forall|m: int| 0 <= m < p.inner@.len() ==> #[trigger] p@.inner[m] == p.inner@[m]@,
                    base == (if p@.rule == Rule::qualified_identifier { 1int } else { 2int }),
                    base <= k <= p@.inner.len(),
                    qualifications@.len() == k - base,
                    forall|m: int|
                        0 <= m < k - base ==> (#[trigger] qualifications@[m])@ == text(
                            input@,
                            p@.inner[m + base],
                        ),
                decreases p@.inner.len() - k,
            {
                assert(wf_ident(input@, p@.inner[k as int]));
                let q = &p.inner[k];
                qualifications.push(chars_to_string(input, q.start, q.end));
                k = k + 1;
            }
            Ok(Value::QualifiedIdentifier { schema, identifier, qualifications })
        },
        Rule::list_literal => {
            let mut items: Vec<Value> = Vec::new();
            if p.inner.len() >= 1 {
                let vl = &p.inner[0];
                proof {
                    lemma_children(vl);
                    lemma_last_child(input@, p@);
                }
                let ghost q = vl@;
                let mut k: usize = 0;
                while k < vl.inner.len()
                    invariant
                        q == vl@,
                        p@.inner.len() == 1,
                        p@.rule == Rule::list_literal,
                        q == p@.inner[0],
                        wf_value_list(input@, q),
                        q.inner.len() == vl.inner@.len(),
                        forall|m: int| 0 <= m < vl.inner@.len() ==> #[trigger] q.inner[m] == vl.inner@[m]@,
                        k <= q.inner.len(),
                        items@.len() == k,
                        forall|m: int| 0 <= m < k ==> value_of(input@, q.inner[m], #[trigger] items@[m]),
                        int_err(input@, p@) == int_err(input@, q),
                        int_err(input@, q) == ints_err(input@, q, k as int),
                    decreases q.inner.len() - k,
                {
                    assert(wf_value(input@, q.inner[k as int]));
                    assert(decreases_to!(p@ => q.inner[k as int]));
                    match parse_value(input, &vl.inner[k]) {
                        Ok(v) => {
                            items.push(v);
                        },
                        Err(e) => {
                            return Err(e);
                        },
                    }
                    k = k + 1;
                }
            } else {
                proof {
                    lemma_ints_none(input@, p@);
                }
            }
            Ok(Value::List(items))
        },
        Rule::function_call => {
            let callee = &p.inner[0];
            proof {
                lemma_children(callee);
                lemma_name_no_int(input@, p@.inner[0]);
            }
            let (schema, name) = if callee.rule == Rule::schema_identifier {
                let sc = &callee.inner[0];
                let id = &callee.inner[1];
                (Some(chars_to_string(input, sc.start, sc.end)), chars_to_string(input, id.start, id.end))
            } else {
                (None, chars_to_string(input, callee.start, callee.end))
            };
            let arguments = if p.inner.len() >= 2 {
                proof {
                    lemma_last_child(input@, p@);
                }
                match parse_arguments(input, &p.inner[1]) {
                    Ok(a) => a,
                    Err(e) => {
                        return Err(e);
                    },
                }
            } else {
                proof {
                    lemma_ints_none(input@, p@);
                }
                Vec::new()
            };
            Ok(Value::FunctionCall { schema, name, arguments })
        },
        _ => {
            assert(false);
            Ok(Value::Integer(0))
        },
    }
}

/// Converts the arguments of argument list node `q`, in order.
pub fn parse_arguments(input: &[char], q: &Pair) -> (r: Result<Vec<Argument>, Error>)
    requires
        wf_argument_list(input@, q@),
    ensures
        match r {
            Ok(args) => int_err(input@, q@) is None && arguments_of(input@, q@, args@),
            Err(e) => int_err(input@, q@) matches Some(k) && e == Error::ParseInt(k),
        },
    decreases q@,
{
    proof {
        lemma_children(q);
    }
    let mut args: Vec<Argument> = Vec::new();
    let mut k: usize = 0;
    while k < q.inner.len()
        invariant
            wf_argument_list(input@, q@),
            q@.inner.len() == q.inner@.len(),
            forall|m: int| 0 <= m < q.inner@.len() ==> #[trigger] q@.inner[m] == q.inner@[m]@,
            k <= q@.inner.len(),
            args@.len() == k,
            forall|m: int| 0 <= m < k ==> argument_of(input@, q@.inner[m], #[trigger] args@[m]),
            int_err(input@, q@) == ints_err(input@, q@, k as int),
        decreases q@.inner.len() - k,
    {
        assert(wf_argument(input@, q@.inner[k as int]));
        match parse_argument(input, &q.inner[k]) {
            Ok(a) => {
                args.push(a);
            },
            Err(e) => {
                return Err(e);
            },
        }
        k = k + 1;
    }
    Ok(args)
}

/// Converts argument node `a`: `name: value` or a value alone.
pub fn parse_argument(input: &[char], a: &Pair) -> (r: Result<Argument, Error>)
    requires
        wf_argument(input@, a@),
    ensures
        match r {
            Ok(arg) => int_err(input@, a@) is None && argument_of(input@, a@, arg),
            Err(e) => int_err(input@, a@) matches Some(k) && e == Error::ParseInt(k),
        },
    decreases a@,
{
    proof {
        lemma_children(a);
    }
    let node = &a.inner[0];
    proof {
        lemma_children(node);
        lemma_last_child(input@, a@);
    }
    if node.rule == Rule::named_argument {
        let n = &node.inner[0];
        proof {
            lemma_flat(input@, node@.inner[0]);
            lemma_last_child(input@, node@);
        }
        let name = chars_to_string(input, n.start, n.end);
        match parse_value(input, &node.inner[1]) {
            Ok(value) => Ok(Argument::Named { name, value }),
            Err(e) => Err(e),
        }
    } else {
        proof {
            lemma_last_child(input@, node@);
        }
        match parse_value(input, &node.inner[0]) {
            Ok(value) => Ok(Argument::Positional { value }),
            Err(e) => Err(e),
        }
    }
}

/// Converts the values of value list node `q`, in order.
pub fn parse_values(input: &[char], q: &Pair) -> (r: Result<Vec<Value>, Error>)
    requires
        wf_value_list(input@, q@),
    ensures
        match r {
            Ok(items) => {
                &&& int_err(input@, q@) is None
                &&& items@.len() == q@.inner.len()
                &&& forall|k: int|
                    0 <= k < items@.len() ==> value_of(input@, q@.inner[k], #[trigger] items@[k])
            },
            Err(e) => int_err(input@, q@) matches Some(k) && e == Error::ParseInt(k),
        },
{
    proof {
        lemma_children(q);
    }
    let mut items: Vec<Value> = Vec::new();
    let mut k: usize = 0;
    while k < q.inner.len()
        invariant
            wf_value_list(input@, q@),
            q@.inner.len() == q.inner@.len(),
            forall|m: int| 0 <= m < q.inner@.len() ==> #[trigger] q@.inner[m] == q.inner@[m]@,
            k <= q@.inner.len(),
            items@.len() == k,
            forall|m: int| 0 <= m < k ==> value_of(input@, q@.inner[m], #[trigger] items@[m]),
            int_err(input@, q@) == ints_err(input@, q@, k as int),
        decreases q@.inner.len() - k,
    {
        assert(wf_value(input@, q@.inner[k as int]));
        match parse_value(input, &q.inner[k]) {
            Ok(v) => {
                items.push(v);
            },
            Err(e) => {
                return Err(e);
            },
        }
        k = k + 1;
    }
    Ok(items)
}

} // verus!
