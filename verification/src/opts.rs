//! The options of a run.

use vstd::prelude::*;

verus! {

/// Where the trace is, which tracks of it to read, and what to ask.
#[derive(Debug, Clone)]
pub struct TimelineOpts {
    /// The file with the track records of the trace.
    pub track_file: String,
    /// The name of the track that the zones are taken from.
    pub main_track: String,
    /// The name of the track that gives the zones their context.
    pub context_track: String,
    /// The file with the zone records of the trace.
    pub zone_file: String,
    /// The file with the queries to answer.
    pub query_file: String,
}

} // verus!
