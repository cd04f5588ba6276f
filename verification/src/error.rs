//! What can go wrong while a trace is read.

use vstd::prelude::*;

verus! {

/// A failure that ends a run.
#[derive(Debug)]
pub enum TimelineError {
    /// A field that should hold a number does not.
    ParseIntError(std::num::ParseIntError),
    /// The track that the zones are to be taken from is not in the trace.
    /// The text names it.
    MainTrack(String),
}

} // verus!
