//! Options for the primitive-count graph.

use vstd::prelude::*;

verus! {

/// Where the sample scenes sit and which chart to produce.
pub struct PrimCountArgs {
    pub dir: String,
    pub chart_type: String,
}

} // verus!
