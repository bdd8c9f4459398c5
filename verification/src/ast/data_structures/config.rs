//! The config block of a `ConkAST`, and how it is read from the parse tree.
use vstd::prelude::*;
use crate::ast::data_structures::value::{
    int_err, ints_err, lemma_flat, lemma_last_child, parse_value, value_of, Value,
};
use crate::ast::error::Error;
use crate::grammar::tree::{lemma_children, Pair, SpecPair};
use crate::grammar::wf::{text, wf_config, wf_config_entry};
use crate::text::chars_to_string;

verus! {

/// `config { key: value ... }`: the entries in the order written.
#[derive(Debug)]
pub struct Config {
    pub entries: Vec<(String, Value)>,
}

/// Config node `c` denotes `cfg`: every entry, in the order written.
pub open spec fn config_of(s: Seq<char>, c: SpecPair, cfg: Config) -> bool {
    &&& cfg.entries@.len() == c.inner.len()
    &&& forall|k: int|
        0 <= k < c.inner.len() ==> {
            &&& (#[trigger] cfg.entries@[k]).0@ == text(s, c.inner[k].inner[0])
            &&& value_of(s, c.inner[k].inner[1], cfg.entries@[k].1)
        }
}

/// Converts config node `c`; a key given twice is kept twice.
pub fn parse_config(input: &[char], c: &Pair) -> (r: Result<Config, Error>)
    requires
        wf_config(input@, c@),
    ensures
        match r {
            Ok(cfg) => int_err(input@, c@) is None && config_of(input@, c@, cfg),
            Err(e) => int_err(input@, c@) matches Some(k) && e == Error::ParseInt(k),
        },
{
    proof {
        lemma_children(c);
    }
    let ghost q = c@.inner;
    let mut entries: Vec<(String, Value)> = Vec::new();
    let mut k: usize = 0;
    while k < c.inner.len()
        invariant
            q == c@.inner,
            wf_config(input@, c@),
            q.len() == c.inner@.len(),
            forall|m: int| 0 <= m < c.inner@.len() ==> #[trigger] q[m] == c.inner@[m]@,
            k <= q.len(),
            entries@.len() == k,
            forall|m: int|
                0 <= m < k ==> {
                    &&& (#[trigger] entries@[m]).0@ == text(input@, q[m].inner[0])
                    &&& value_of(input@, q[m].inner[1], entries@[m].1)
                },
            int_err(input@, c@) == ints_err(input@, c@, k as int),
        decreases q.len() - k,
    {
        let entry = &c.inner[k];
        assert(wf_config_entry(input@, q[k as int]));
        proof {
            lemma_children(entry);
            lemma_flat(input@, q[k as int].inner[0]);
            lemma_last_child(input@, q[k as int]);
        }
        let key_node = &entry.inner[0];
        let key = chars_to_string(input, key_node.start, key_node.end);
        match parse_value(input, &entry.inner[1]) {
            Ok(value) => {
                entries.push((key, value));
            },
            Err(e) => {
                return Err(e);
            },
        }
        k = k + 1;
    }
    Ok(Config { entries })
}

} // verus!
