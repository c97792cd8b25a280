//! Options for the cubic-fit error plot.

use vstd::prelude::*;

verus! {

/// Options for plotting the cubic-to-spiral error metric: whether to use
/// the closed-form estimate instead of sampled ground truth.
pub struct CubicErrPlot {
    pub approx: bool,
}

} // verus!
