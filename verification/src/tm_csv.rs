//! The tracks of a timeline: the main track and the track of its context.

use crate::error::TimelineError;
use crate::opts::TimelineOpts;
use crate::record::{all_have_fields, field, record_fields};
use crate::text::{parse_u64, parsed_u64};
use vstd::prelude::*;
use vstd::string::*;

verus! {

/// One lane of a trace, with the time at which it starts.
#[derive(Debug)]
pub struct Track {
    pub id: u64,
    pub name: String,
    pub time_start: u64,
}

/// The two tracks that a timeline is built from, as far as the trace holds
/// them.
#[derive(Debug)]
pub struct Tracks {
    pub main_track: Option<Track>,
    pub context: Option<Track>,
}

/// The two numbers of a track record can be read: the id in the second field
/// and the start time in the fourth.
pub open spec fn track_parses(fields: Seq<Seq<char>>) -> bool {
    parsed_u64(fields[1]) is Some && parsed_u64(fields[3]) is Some
}

/// `track` is the track that a record with these fields describes.
pub open spec fn track_matches(track: Track, fields: Seq<Seq<char>>) -> bool {
    &&& parsed_u64(fields[1]) == Some(track.id)
    &&& track.name@ == fields[2]
    &&& parsed_u64(fields[3]) == Some(track.time_start)
}

/// Every record can be read as a track.
pub open spec fn all_tracks_parse(records: Seq<csv::StringRecord>) -> bool {
    forall|i: int| 0 <= i < records.len() ==> track_parses(record_fields(#[trigger] records[i]))
}

/// The record at `i` names the main track.
pub open spec fn is_main(records: Seq<csv::StringRecord>, opts: TimelineOpts, i: int) -> bool {
    record_fields(records[i])[2] == opts.main_track@
}

/// The record at `i` names the context track, and not the main track.
pub open spec fn is_context(records: Seq<csv::StringRecord>, opts: TimelineOpts, i: int) -> bool {
    record_fields(records[i])[2] != opts.main_track@ && record_fields(records[i])[2]
        == opts.context_track@
}

impl Track {
    /// Reads a track from a record of at least four fields.  Fails when the
    /// id or the start time cannot be read.
    pub fn from_record(record: &csv::StringRecord) -> (r: Result<Track, std::num::ParseIntError>)
        requires
            record_fields(*record).len() >= 4,
        ensures
            r is Ok <==> track_parses(record_fields(*record)),
            r matches Ok(track) ==> track_matches(track, record_fields(*record)),
    {
        let id: u64 = match parse_u64(field(record, 1)) {
            Ok(n) => n,
            Err(e) => {
                return Err(e);
            },
        };
        let name = field(record, 2).to_owned();
        match parse_u64(field(record, 3)) {
            Ok(time_start) => Ok(Track { id, name, time_start }),
            Err(e) => Err(e),
        }
    }
}

impl Tracks {
    /// Neither track.
    pub fn empty() -> (tracks: Tracks)
        ensures
            tracks.main_track is None,
            tracks.context is None,
    {
        Tracks { main_track: None, context: None }
    }

    /// Fails, naming the track, unless the main track was found.
    pub fn require_main_track(&self, opts: &TimelineOpts) -> (r: Result<(), TimelineError>)
        ensures
            r is Ok <==> self.main_track is Some,
            r matches Err(e) ==> e matches TimelineError::MainTrack(text) && text@
                == "Did not find the main track that you provided: "@ + opts.main_track@,
    {
        if self.main_track.is_none() {
            let mut text = "Did not find the main track that you provided: ".to_owned();
            text.append(opts.main_track.as_str());
            return Err(TimelineError::MainTrack(text));
        }
        Ok(())
    }
}

/// Reads the tracks and picks the two that the options name: among the
/// records that name the main track the last one, and likewise for the
/// context track.  A record that names both counts as the main track.
/// Fails when a record cannot be read as a track.
pub fn parse_tracks(records: &Vec<csv::StringRecord>, opts: &TimelineOpts) -> (r: Result<
    Tracks,
    TimelineError,
>)
    requires
        all_have_fields(records@, 4),
    ensures
        r is Ok <==> all_tracks_parse(records@),
        r matches Err(e) ==> e is ParseIntError,
        r matches Ok(tracks) ==> {
            &&& tracks.main_track is Some <==> exists|i: int|
                0 <= i < records.len() && is_main(records@, *opts, i)
            &&& tracks.main_track matches Some(track) ==> exists|i: int|
                0 <= i < records.len() && is_main(records@, *opts, i) && track_matches(
                    track,
                    record_fields(records[i]),
                ) && forall|j: int| i < j < records.len() ==> !is_main(records@, *opts, j)
            &&& tracks.context is Some <==> exists|i: int|
                0 <= i < records.len() && is_context(records@, *opts, i)
            &&& tracks.context matches Some(track) ==> exists|i: int|
                0 <= i < records.len() && is_context(records@, *opts, i) && track_matches(
                    track,
                    record_fields(records[i]),
                ) && forall|j: int| i < j < records.len() ==> !is_context(records@, *opts, j)
        },
{
    let mut found = Tracks::empty();
    let ghost mut main_at: int = -1;
    let ghost mut context_at: int = -1;
    let mut k: usize = 0;
    while k < records.len()
        invariant
            k <= records.len(),
            all_have_fields(records@, 4),
            forall|j: int| 0 <= j < k ==> track_parses(record_fields(#[trigger] records[j])),
            found.main_track is Some <==> exists|i: int| 0 <= i < k && is_main(records@, *opts, i),
            found.main_track matches Some(track) ==> 0 <= main_at < k && is_main(
                records@,
                *opts,
                main_at,
            ) && track_matches(track, record_fields(records[main_at])) && forall|j: int|
                main_at < j < k ==> !is_main(records@, *opts, j),
            found.context is Some <==> exists|i: int|
                0 <= i < k && is_context(records@, *opts, i),
            found.context matches Some(track) ==> 0 <= context_at < k && is_context(
                records@,
                *opts,
                context_at,
            ) && track_matches(track, record_fields(records[context_at])) && forall|j: int|
                context_at < j < k ==> !is_context(records@, *opts, j),
        decreases records.len() - k,
    {
        let track = match Track::from_record(&records[k]) {
            Ok(track) => track,
            Err(e) => {
                return Err(TimelineError::ParseIntError(e));
            },
        };
        if track.name == opts.main_track {
            assert(is_main(records@, *opts, k as int));
            found.main_track = Some(track);
            proof {
                main_at = k as int;
            }
        } else if track.name == opts.context_track {
            assert(is_context(records@, *opts, k as int));
            found.context = Some(track);
            proof {
                context_at = k as int;
            }
        }
        k += 1;
    }
    Ok(found)
}

} // verus!
