//! The config block as the converter in `parser::convert` builds it.
use vstd::prelude::*;
use crate::ast::value::Value;

verus! {

/// `config { key: value ... }`: the entries in the order written; no key occurs twice.
#[derive(Debug)]
pub struct Config {
    pub entries: Vec<(String, Value)>,
}

impl Config {
    /// The value stored under `key`, if any: that of the first entry with that key.
    pub fn get(&self, key: &str) -> (r: Option<&Value>)
        ensures
            match r {
                Some(v) => exists|k: int|
                    0 <= k < self.entries@.len() && (#[trigger] self.entries@[k]).0@ == key@
                        && self.entries@[k].1 == *v && forall|m: int|
                        0 <= m < k ==> (#[trigger] self.entries@[m]).0@ != key@,
                None => forall|k: int|
                    0 <= k < self.entries@.len() ==> (#[trigger] self.entries@[k]).0@ != key@,
            },
    {
        let mut k: usize = 0;
        while k < self.entries.len()
            invariant
                k <= self.entries@.len(),
                forall|m: int| 0 <= m < k ==> (#[trigger] self.entries@[m]).0@ != key@,
            decreases self.entries@.len() - k,
        {
            if crate::text::str_eq(self.entries[k].0.as_str(), key) {
                return Some(&self.entries[k].1);
            }
            k = k + 1;
        }
        None
    }
}

} // verus!
