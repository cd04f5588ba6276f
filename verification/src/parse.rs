//! Turning the records of a trace into tracks and zones.

use crate::error::TimelineError;
use crate::record::{all_have_fields, field, record_fields};
use crate::text::{parse_usize, parsed_usize};
use crate::tracks::Track;
use crate::seqs::lemma_filter_take_step;
use crate::zones::{zone_matches, zone_parses, Zone};
use vstd::prelude::*;

verus! {

/// One of the tracks has this id.
pub open spec fn has_track(tracks: Seq<Track>, id: usize) -> bool {
    exists|k: int| 0 <= k < tracks.len() && (#[trigger] tracks[k]).id == id
}

/// The test "this record lies on one of the tracks".
pub open spec fn on_tracks(tracks: Seq<Track>) -> spec_fn(csv::StringRecord) -> bool {
    |record: csv::StringRecord|
        parsed_usize(record_fields(record)[1]) matches Some(id) && has_track(tracks, id)
}

/// A zone record can be read as far as it has to be: its track in any case,
/// and the rest where it lies on one of the tracks.
pub open spec fn zone_record_reads(record: csv::StringRecord, tracks: Seq<Track>) -> bool {
    parsed_usize(record_fields(record)[1]) is Some && (on_tracks(tracks)(record) ==> zone_parses(
        record_fields(record),
    ))
}

/// Whether one of the tracks has this id.
pub fn track_allowed(allowed_tracks: &Vec<Track>, id: usize) -> (found: bool)
    ensures
        found == has_track(allowed_tracks@, id),
{
    let mut k: usize = 0;
    while k < allowed_tracks.len()
        invariant
            k <= allowed_tracks.len(),
            forall|j: int| 0 <= j < k ==> (#[trigger] allowed_tracks[j]).id != id,
        decreases allowed_tracks.len() - k,
    {
        if allowed_tracks[k].id == id {
            return true;
        }
        k += 1;
    }
    false
}

/// Reads one track from each record, in order.  Fails on the first record
/// whose id cannot be read.
pub fn parse_tracks(records: &Vec<csv::StringRecord>) -> (r: Result<Vec<Track>, TimelineError>)
    requires
        all_have_fields(records@, 3),
    ensures
        r is Ok <==> forall|i: int|
            0 <= i < records.len() ==> parsed_usize(record_fields(#[trigger] records[i])[1])
                is Some,
        r matches Ok(tracks) ==> tracks.len() == records.len() && forall|i: int|
            0 <= i < records.len() ==> (#[trigger] tracks[i]).name@ == record_fields(records[i])[2]
                && parsed_usize(record_fields(records[i])[1]) == Some(tracks[i].id),
        r matches Err(e) ==> e is ParseIntError,
{
    let mut tracks: Vec<Track> = Vec::new();
    let mut i: usize = 0;
    while i < records.len()
        invariant
            i <= records.len(),
            all_have_fields(records@, 3),
            tracks.len() == i,
            forall|j: int|
                0 <= j < i ==> parsed_usize(record_fields(#[trigger] records[j])[1]) is Some,
            forall|j: int|
                0 <= j < i ==> (#[trigger] tracks[j]).name@ == record_fields(records[j])[2]
                    && parsed_usize(record_fields(records[j])[1]) == Some(tracks[j].id),
        decreases records.len() - i,
    {
        match Track::from_record(&records[i]) {
            Ok(track) => {
                tracks.push(track);
            },
            Err(e) => {
                return Err(TimelineError::ParseIntError(e));
            },
        }
        i += 1;
    }
    Ok(tracks)
}

/// Reads the zones that lie on one of `allowed_tracks`, in the order of the
/// records.  Fails on the first record whose track cannot be read, or that
/// lies on one of the tracks and cannot be read as a zone.
pub fn parse_zones(records: &Vec<csv::StringRecord>, allowed_tracks: &Vec<Track>) -> (r: Result<
    Vec<Zone>,
    TimelineError,
>)
    requires
        all_have_fields(records@, 5),
    ensures
        r is Ok <==> forall|i: int|
            0 <= i < records.len() ==> zone_record_reads(#[trigger] records[i], allowed_tracks@),
        r matches Ok(zones) ==> zones.len() == records@.filter(on_tracks(allowed_tracks@)).len()
            && forall|k: int|
            0 <= k < zones.len() ==> zone_matches(
                #[trigger] zones[k],
                record_fields(records@.filter(on_tracks(allowed_tracks@))[k]),
            ),
        r matches Err(e) ==> e is ParseIntError,
{
    let mut zones: Vec<Zone> = Vec::new();
    let ghost pred = on_tracks(allowed_tracks@);
    let mut i: usize = 0;
    while i < records.len()
        invariant
            i <= records.len(),
            all_have_fields(records@, 5),
            pred == on_tracks(allowed_tracks@),
            forall|j: int| 0 <= j < i ==> zone_record_reads(#[trigger] records[j], allowed_tracks@),
            zones.len() == records@.take(i as int).filter(pred).len(),
            forall|k: int|
                0 <= k < zones.len() ==> zone_matches(
                    #[trigger] zones[k],
                    record_fields(records@.take(i as int).filter(pred)[k]),
                ),
        decreases records.len() - i,
    {
        let record = &records[i];
        proof {
            lemma_filter_take_step(records@, pred, i as int);
        }
        let id: usize = match parse_usize(field(record, 1)) {
            Ok(id) => id,
            Err(e) => {
                return Err(TimelineError::ParseIntError(e));
            },
        };
        if track_allowed(allowed_tracks, id) {
            match Zone::from_record(record) {
                Ok(zone) => {
                    zones.push(zone);
                },
                Err(e) => {
                    return Err(e);
                },
            }
        }
        i += 1;
    }
    assert(records@.take(i as int) =~= records@);
    Ok(zones)
}

} // verus!
