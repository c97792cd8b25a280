//! Options for conversion to the RVG interchange format.

use vstd::prelude::*;

verus! {

/// The scene file to convert.
pub struct ToRvgArgs {
    pub filename: String,
}

} // verus!
