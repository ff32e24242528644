//! The response bodies a front-end receives back.

use vstd::prelude::*;

verus! {

/// The produced text.
pub struct Generate {
    pub data: String,
}

/// A reported failure.
pub struct Error {
    pub msg: String,
}

} // verus!
