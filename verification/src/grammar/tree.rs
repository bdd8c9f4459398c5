//! The parse tree: grammar rules and the nodes built for them.
use vstd::prelude::*;

verus! {

/// The rules of the Conk grammar.
#[allow(non_camel_case_types)]
#[derive(Clone, Copy, Debug, PartialEq, Eq, Structural)]
pub enum Rule {
    file,
    config,
    config_entry,
    declaration,
    enum_declaration,
    enum_value,
    template_declaration,
    entity_declaration,
    schema_prefix,
    template_usage,
    identifier_list,
    inheritance_usage,
    inheritance_list,
    field,
    field_type,
    type_params,
    field_attribute,
    block_attribute,
    attribute_args,
    argument_list,
    argument,
    named_argument,
    positional_argument,
    value,
    value_list,
    list_literal,
    function_call,
    schema_qualified_identifier,
    schema_identifier,
    qualified_identifier,
    identifier,
    string_literal,
    integer_literal,
    float_literal,
}

/// A node of the parse tree as a mathematical value: the rule it matched, the
/// character span `start..end` of the input, and its children in order.
pub struct SpecPair {
    pub rule: Rule,
    pub start: int,
    pub end: int,
    pub inner: Seq<SpecPair>,
}

/// A node of the parse tree: the rule it matched, the character span
/// `start..end` of the input, and its children in order.
#[derive(Debug)]
pub struct Pair {
    pub rule: Rule,
    pub start: usize,
    pub end: usize,
    pub inner: Vec<Pair>,
}

pub open spec fn pair_view(p: Pair) -> SpecPair
    decreases p, 1nat,
{
    SpecPair {
        rule: p.rule,
        start: p.start as int,
        end: p.end as int,
        inner: pairs_view(p.inner@),
    }
}

pub open spec fn pairs_view(v: Seq<Pair>) -> Seq<SpecPair>
    decreases v, 0nat,
{
    if v.len() == 0 {
        Seq::empty()
    } else {
        pairs_view(v.drop_last()).push(pair_view(v.last()))
    }
}

impl View for Pair {
    type V = SpecPair;

    open spec fn view(&self) -> SpecPair {
        pair_view(*self)
    }
}

/// The view of a sequence of nodes is taken node by node.
pub proof fn lemma_pairs_view(v: Seq<Pair>)
    ensures
        pairs_view(v).len() == v.len(),
        forall|k: int| 0 <= k < v.len() ==> #[trigger] pairs_view(v)[k] == pair_view(v[k]),
    decreases v.len(),
{
    if v.len() > 0 {
        lemma_pairs_view(v.drop_last());
        assert forall|k: int| 0 <= k < v.len() implies #[trigger] pairs_view(v)[k] == pair_view(
            v[k],
        ) by {
            if k < v.len() - 1 {
                assert(v.drop_last()[k] == v[k]);
            }
        }
    }
}

/// The view of each child of `p` is the child's view.
pub proof fn lemma_children(p: &Pair)
    ensures
        p@.inner.len() == p.inner@.len(),
        forall|k: int| 0 <= k < p.inner@.len() ==> #[trigger] p@.inner[k] == p.inner@[k]@,
{
    lemma_pairs_view(p.inner@);
}

proof fn lemma_pairs_view_push(v: Seq<Pair>, p: Pair)
    ensures
        pairs_view(v.push(p)) == pairs_view(v).push(pair_view(p)),
{
    assert(v.push(p).drop_last() =~= v);
}

impl Pair {
    /// The rule this node matched.
    pub fn as_rule(&self) -> (r: Rule)
        ensures
            r == self@.rule,
    {
        self.rule
    }

    /// The character offset where this node starts.
    pub fn start(&self) -> (r: usize)
        ensures
            r == self@.start,
    {
        self.start
    }

    /// The character offset just after this node.
    pub fn end(&self) -> (r: usize)
        ensures
            r == self@.end,
    {
        self.end
    }

    /// The children of this node, in order.
    pub fn inner(&self) -> (r: &Vec<Pair>)
        ensures
            pairs_view(r@) == self@.inner,
    {
        &self.inner
    }
}

/// Appends a node to a list of children.
pub fn push_pair(v: &mut Vec<Pair>, p: Pair)
    ensures
        pairs_view(final(v)@) == pairs_view(old(v)@).push(p@),
{
    proof {
        lemma_pairs_view_push(v@, p);
    }
    v.push(p);
}

/// The indices of the nodes of `c` with rule `r`, in order.
pub open spec fn positions(c: Seq<SpecPair>, r: Rule) -> Seq<int>
    decreases c.len(),
{
    if c.len() == 0 {
        Seq::empty()
    } else if c.last().rule == r {
        positions(c.drop_last(), r).push(c.len() - 1)
    } else {
        positions(c.drop_last(), r)
    }
}

/// `positions` lists every node with rule `r`, each once, in increasing order.
pub proof fn law_positions(c: Seq<SpecPair>, r: Rule)
    ensures
        forall|k: int|
            0 <= k < positions(c, r).len() ==> 0 <= #[trigger] positions(c, r)[k] < c.len()
                && c[positions(c, r)[k]].rule == r,
        forall|i: int, j: int|
            0 <= i < j < positions(c, r).len() ==> #[trigger] positions(c, r)[i]
                < #[trigger] positions(c, r)[j],
        forall|m: int|
            0 <= m < c.len() && (#[trigger] c[m]).rule == r ==> exists|k: int|
                0 <= k < positions(c, r).len() && #[trigger] positions(c, r)[k] == m,
    decreases c.len(),
{
    if c.len() > 0 {
        let c2 = c.drop_last();
        law_positions(c2, r);
        let p2 = positions(c2, r);
        let p = positions(c, r);
        assert forall|k: int| 0 <= k < p.len() implies 0 <= #[trigger] p[k] < c.len() && c[p[k]].rule
            == r by {
            if k < p2.len() {
                assert(p[k] == p2[k]);
                assert(c2[p2[k]] == c[p2[k]]);
            }
        }
        assert forall|i: int, j: int| 0 <= i < j < p.len() implies #[trigger] p[i] < #[trigger] p[j] by {
            assert(p[i] == p2[i]);
            if j < p2.len() {
                assert(p[j] == p2[j]);
            }
        }
        assert forall|m: int| 0 <= m < c.len() && (#[trigger] c[m]).rule == r implies exists|k: int|
            0 <= k < p.len() && #[trigger] p[k] == m by {
            if m < c.len() - 1 {
                assert(c2[m] == c[m]);
                let k = choose|k: int| 0 <= k < p2.len() && #[trigger] p2[k] == m;
                assert(p[k] == p2[k]);
            } else {
                assert(p[p.len() - 1] == m);
            }
        }
    }
}

} // verus!
