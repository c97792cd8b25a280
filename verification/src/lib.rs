//! Verified core of a stroke-to-fill expansion library.
//!
//! The numeric evaluation of Euler spirals and their parallel curves runs on
//! floating point and lives outside this crate's verified boundary; what is
//! verified here is the discrete logic around it: the SVG attribute lexer,
//! the dyadic interval bookkeeping of the adaptive curve fitter, and the
//! contour-assembly state machine that guarantees the emitted outline is
//! contiguous and closed.

pub mod cubic_err_plot;
pub mod euler;
pub mod perf_graph;
pub mod stroke;
pub mod svg;
pub mod to_rvg;
