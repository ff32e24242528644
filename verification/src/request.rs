//! The request bodies a front-end hands to a Brain's worker.

use vstd::prelude::*;

verus! {

/// A line of corpus text to learn.
pub struct Train {
    pub data: String,
}

/// Bounds and optional anchor text for one generation.
pub struct Generate {
    pub min: usize,
    pub max: usize,
    pub query: Option<String>,
}

impl Default for Generate {
    /// The default bounds: a short sentence of three to five words.
    fn default() -> (r: Self)
        ensures
            r.min == 3 && r.max == 5 && r.query is None,
    {
        Generate { min: 3, max: 5, query: None }
    }
}

/// A request to create a fresh Brain persisted at the given path.
pub struct Create {
    pub path: String,
    pub depth: Option<usize>,
}

} // verus!
