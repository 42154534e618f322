//! `to-lin`: the options of the LIN conversion.
use vstd::prelude::*;

verus! {

/// The options of `to-lin`.
pub struct Args {
    /// Input PBN file.
    pub input: String,
    /// Output LIN file (defaults to the input with a `.lin` extension).
    pub output: Option<String>,
}

} // verus!
