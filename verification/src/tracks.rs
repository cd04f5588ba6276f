//! Tracks: the lanes that zones are recorded on.

use crate::record::{field, record_fields};
use crate::text::{parse_usize, parsed_usize};
use vstd::prelude::*;

verus! {

/// One lane of a trace.
pub struct Track {
    pub name: String,
    pub id: usize,
}

impl Track {
    /// Reads a track from a record of at least three fields: the id in the
    /// second, the name in the third.  Fails when the id cannot be read.
    pub fn from_record(record: &csv::StringRecord) -> (r: Result<Track, std::num::ParseIntError>)
        requires
            record_fields(*record).len() >= 3,
        ensures
            r is Ok <==> parsed_usize(record_fields(*record)[1]) is Some,
            r matches Ok(track) ==> track.name@ == record_fields(*record)[2] && parsed_usize(
                record_fields(*record)[1],
            ) == Some(track.id),
    {
        let name = field(record, 2).to_owned();
        match parse_usize(field(record, 1)) {
            Ok(id) => Ok(Track { name, id }),
            Err(e) => Err(e),
        }
    }
}

} // verus!
