use vstd::prelude::*;
use std::collections::HashMap;

verus! {

/// A bag of named values that a node can carry for the widget it stands for.
pub struct Data {
    pub integers: HashMap<String, i64>,
    pub bools: HashMap<String, bool>,
    pub strings: HashMap<String, String>,
}

impl Data {
    /// An empty bag.
    pub fn new() -> (r: Data)
        ensures
            r.integers@.len() == 0,
            r.bools@.len() == 0,
            r.strings@.len() == 0,
    {
        Data { integers: HashMap::new(), bools: HashMap::new(), strings: HashMap::new() }
    }
}

} // verus!
