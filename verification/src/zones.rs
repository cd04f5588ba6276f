//! Zones: named time intervals and the relations between two of them.

use crate::error::TimelineError;
use crate::record::{field, join_fields, joined, record_fields};
use crate::sorting::Timed;
use crate::text::{decimal, parse_u64, parse_usize, parsed_u64, parsed_usize, u64_to_string};
use vstd::prelude::*;
use vstd::string::*;

verus! {

/// One recorded interval of a trace.
///
/// `idx` is the zone's offset in the sorted list it belongs to, `duration`
/// is the distance between the two timestamps, and `original_csv` is the
/// record the zone was read from, kept only to be printed again.
#[derive(Debug, PartialEq, Eq)]
pub struct Zone {
    pub name: String,
    pub start_time: u64,
    pub end_time: u64,
    pub duration: u64,
    pub idx: usize,
    pub track_id: usize,
    pub original_csv: String,
}

/// Distance between two timestamps.
pub open spec fn distance(a: int, b: int) -> int {
    if a <= b {
        b - a
    } else {
        a - b
    }
}

/// Length of the stretch of time that the intervals `[s1, e1]` and
/// `[s2, e2]` share: the later start up to the earlier end, or nothing
/// where the later start lies beyond the earlier end.
pub open spec fn overlap(s1: int, e1: int, s2: int, e2: int) -> int {
    let lo = if s1 >= s2 { s1 } else { s2 };
    let hi = if e1 <= e2 { e1 } else { e2 };
    if hi >= lo {
        hi - lo
    } else {
        0
    }
}

/// Distance between two timestamps, computed without overflow.
pub fn timestamp_distance(a: u64, b: u64) -> (d: u64)
    ensures
        d == distance(a as int, b as int),
{
    if a <= b {
        b - a
    } else {
        a - b
    }
}

/// The three numbers of a zone record can be read: the start and end times
/// in the fourth and fifth field, and the track in the second.
pub open spec fn zone_parses(fields: Seq<Seq<char>>) -> bool {
    parsed_u64(fields[3]) is Some && parsed_u64(fields[4]) is Some && parsed_usize(fields[1])
        is Some
}

/// `zone` is the zone that a record with these fields describes: named by
/// the third field, timed by the fourth and fifth, on the track of the
/// second, outside any list, and with the whole record kept as its source.
pub open spec fn zone_matches(zone: Zone, fields: Seq<Seq<char>>) -> bool {
    &&& zone.name@ == fields[2]
    &&& parsed_u64(fields[3]) == Some(zone.start_time)
    &&& parsed_u64(fields[4]) == Some(zone.end_time)
    &&& parsed_usize(fields[1]) == Some(zone.track_id)
    &&& zone.well_formed()
    &&& zone.idx == 0
    &&& zone.original_csv@ == joined(fields, ","@)
}

impl Zone {
    /// Reads a zone from a record of at least five fields.  Fails when one
    /// of the three numbers cannot be read.
    pub fn from_record(record: &csv::StringRecord) -> (r: Result<Zone, TimelineError>)
        requires
            record_fields(*record).len() >= 5,
        ensures
            r is Ok <==> zone_parses(record_fields(*record)),
            r matches Ok(zone) ==> zone_matches(zone, record_fields(*record)),
            r matches Err(e) ==> e is ParseIntError,
    {
        let name = field(record, 2).to_owned();
        let start_time: u64 = match parse_u64(field(record, 3)) {
            Ok(n) => n,
            Err(e) => {
                return Err(TimelineError::ParseIntError(e));
            },
        };
        let end_time: u64 = match parse_u64(field(record, 4)) {
            Ok(n) => n,
            Err(e) => {
                return Err(TimelineError::ParseIntError(e));
            },
        };
        let track_id: usize = match parse_usize(field(record, 1)) {
            Ok(n) => n,
            Err(e) => {
                return Err(TimelineError::ParseIntError(e));
            },
        };
        let mut zone = Zone::new(name, start_time, end_time, track_id);
        zone.original_csv = join_fields(record, ",");
        Ok(zone)
    }

    /// The duration is the distance between the two timestamps.
    pub open spec fn well_formed(&self) -> bool {
        self.duration == distance(self.start_time as int, self.end_time as int)
    }

    /// `self` starts earlier than `zone` does.
    pub open spec fn spec_starts_before(&self, zone: &Zone) -> bool {
        self.start_time < zone.start_time
    }

    /// `zone` starts after `self` has ended: the two are disjoint.
    pub open spec fn spec_completes_before(&self, zone: &Zone) -> bool {
        zone.start_time > self.end_time
    }

    /// `zone` lies within `self`; shared boundaries count as inside.
    pub open spec fn spec_contains(&self, zone: &Zone) -> bool {
        self.start_time <= zone.start_time && self.end_time >= zone.end_time
    }

    /// `self` straddles one boundary of `zone`: it starts inside `zone` and
    /// reaches its end, or it ends inside `zone` and starts no later.
    pub open spec fn spec_partial_contains(&self, zone: &Zone) -> bool {
        ||| (self.start_time > zone.start_time && self.start_time <= zone.end_time
            && self.end_time >= zone.end_time)
        ||| (self.end_time < zone.end_time && self.end_time >= zone.start_time
            && self.start_time <= zone.start_time)
    }

    /// Time shared by `self` and `zone`.
    pub open spec fn spec_duration_intersection(&self, zone: &Zone) -> int {
        overlap(
            self.start_time as int,
            self.end_time as int,
            zone.start_time as int,
            zone.end_time as int,
        )
    }

    /// A zone outside any list: index 0 and no source record.
    pub fn new(name: String, start_time: u64, end_time: u64, track_id: usize) -> (zone: Zone)
        ensures
            zone.name == name,
            zone.start_time == start_time,
            zone.end_time == end_time,
            zone.duration == distance(start_time as int, end_time as int),
            zone.idx == 0,
            zone.track_id == track_id,
            zone.original_csv@ == Seq::<char>::empty(),
            zone.well_formed(),
    {
        Zone {
            name,
            start_time,
            end_time,
            duration: timestamp_distance(start_time, end_time),
            idx: 0,
            track_id,
            original_csv: String::new(),
        }
    }

    #[verifier::when_used_as_spec(spec_starts_before)]
    pub fn starts_before(&self, zone: &Zone) -> (b: bool)
        ensures
            b == self.spec_starts_before(zone),
    {
        self.start_time < zone.start_time
    }

    #[verifier::when_used_as_spec(spec_completes_before)]
    pub fn completes_before(&self, zone: &Zone) -> (b: bool)
        ensures
            b == self.spec_completes_before(zone),
    {
        zone.start_time > self.end_time
    }

    #[verifier::when_used_as_spec(spec_contains)]
    pub fn contains(&self, zone: &Zone) -> (b: bool)
        ensures
            b == self.spec_contains(zone),
    {
        self.start_time <= zone.start_time && self.end_time >= zone.end_time
    }

    #[verifier::when_used_as_spec(spec_partial_contains)]
    pub fn partial_contains(&self, zone: &Zone) -> (b: bool)
        ensures
            b == self.spec_partial_contains(zone),
    {
        self.start_time > zone.start_time && self.start_time <= zone.end_time && self.end_time
            >= zone.end_time || self.end_time < zone.end_time && self.end_time >= zone.start_time
            && self.start_time <= zone.start_time
    }

    /// The span covered by both zones, less the two distances between their
    /// boundaries, stopping at zero: that is the time the two share.
    pub fn get_duration_intersection(&self, zone: &Zone) -> (d: u64)
        ensures
            d == self.spec_duration_intersection(zone),
    {
        let s: u64 = timestamp_distance(self.start_time, zone.start_time);
        let e: u64 = timestamp_distance(self.end_time, zone.end_time);
        let last: u64 = if zone.end_time >= self.end_time {
            zone.end_time
        } else {
            self.end_time
        };
        let first: u64 = if zone.start_time <= self.start_time {
            zone.start_time
        } else {
            self.start_time
        };
        last.saturating_sub(first).saturating_sub(s).saturating_sub(e)
    }
}

/// A zone on one line: its track, its duration, its name and its
/// boundaries.
pub open spec fn rendered(zone: Zone) -> Seq<char> {
    decimal(zone.track_id as nat) + ": Zone("@ + decimal(zone.duration as nat) + "): "@ + zone.name@
        + ","@ + decimal(zone.start_time as nat) + ","@ + decimal(zone.end_time as nat)
}

impl Zone {
    /// The zone on one line.
    pub fn to_string(&self) -> (line: String)
        ensures
            line@ == rendered(*self),
    {
        let mut line = u64_to_string(self.track_id as u64);
        line.append(": Zone(");
        line.append(u64_to_string(self.duration).as_str());
        line.append("): ");
        line.append(self.name.as_str());
        line.append(",");
        line.append(u64_to_string(self.start_time).as_str());
        line.append(",");
        line.append(u64_to_string(self.end_time).as_str());
        line
    }
}

impl Timed for Zone {
    open spec fn spec_start(&self) -> u64 {
        self.start_time
    }

    fn start(&self) -> (t: u64) {
        self.start_time
    }
}

/// Every zone contains itself, and none straddles itself.
pub proof fn lemma_zone_reflexive(a: Zone)
    ensures
        a.spec_contains(&a),
        !a.spec_partial_contains(&a),
{
}

/// The shared time does not depend on which zone is asked, and two zones of
/// which one completes before the other starts share none.
pub proof fn lemma_intersection_symmetric(a: Zone, b: Zone)
    ensures
        a.spec_duration_intersection(&b) == b.spec_duration_intersection(&a),
        a.spec_completes_before(&b) || b.spec_completes_before(&a)
            ==> a.spec_duration_intersection(&b) == 0,
{
}

/// A zone shares with a zone inside it the whole time of that zone, and two
/// zones never share more time than either of them lasts.
pub proof fn lemma_intersection_bounds(a: Zone, b: Zone)
    requires
        a.start_time <= a.end_time,
        b.start_time <= b.end_time,
    ensures
        a.spec_contains(&b) ==> a.spec_duration_intersection(&b) == b.end_time - b.start_time,
        0 <= a.spec_duration_intersection(&b) <= a.end_time - a.start_time,
        a.spec_duration_intersection(&b) <= b.end_time - b.start_time,
{
}

} // verus!
