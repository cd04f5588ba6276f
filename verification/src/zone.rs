//! Zones of a timeline: named intervals that start no later than they end.

use crate::error::TimelineError;
use crate::record::{all_have_fields, field, record_fields};
use crate::seqs::lemma_filter_take_step;
use crate::sorting::{is_sorted_copy, sort_by_start, Timed};
use crate::tm_csv::Tracks;
use crate::zone_search::{contains_name, has_name};
use crate::text::{parse_u64, parsed_u64};
use vstd::prelude::*;

verus! {

/// One interval of a timeline.  `duration` is the time from start to end.
#[derive(Eq, Debug)]
pub struct Zone {
    pub name: String,
    pub time_start: u64,
    pub time_end: u64,
    pub duration: u64,
}

impl PartialEq for Zone {
    /// Two zones are the same when they have the same name and the same
    /// boundaries.
    fn eq(&self, other: &Self) -> (r: bool) {
        self.time_start == other.time_start && self.time_end == other.time_end && self.name
            == other.name
    }
}

impl vstd::std_specs::cmp::PartialEqSpecImpl for Zone {
    open spec fn obeys_eq_spec() -> bool {
        true
    }

    open spec fn eq_spec(&self, other: &Self) -> bool {
        self.time_start == other.time_start && self.time_end == other.time_end && self.name@
            == other.name@
    }
}

impl PartialOrd for Zone {
    /// Zones are ordered by their start times alone.
    fn partial_cmp(&self, other: &Self) -> (r: Option<std::cmp::Ordering>) {
        if self.time_start < other.time_start {
            Some(std::cmp::Ordering::Less)
        } else if self.time_start == other.time_start {
            Some(std::cmp::Ordering::Equal)
        } else {
            Some(std::cmp::Ordering::Greater)
        }
    }
}

impl vstd::std_specs::cmp::PartialOrdSpecImpl for Zone {
    open spec fn obeys_partial_cmp_spec() -> bool {
        true
    }

    open spec fn partial_cmp_spec(&self, other: &Self) -> Option<std::cmp::Ordering> {
        if self.time_start < other.time_start {
            Some(std::cmp::Ordering::Less)
        } else if self.time_start == other.time_start {
            Some(std::cmp::Ordering::Equal)
        } else {
            Some(std::cmp::Ordering::Greater)
        }
    }
}

/// The two numbers of a zone record can be read: the start and end times in
/// the fourth and fifth field.
pub open spec fn zone_parses(fields: Seq<Seq<char>>) -> bool {
    parsed_u64(fields[3]) is Some && parsed_u64(fields[4]) is Some
}

/// Where both times of a zone record can be read, the start is no later
/// than the end.
pub open spec fn times_ordered(fields: Seq<Seq<char>>) -> bool {
    zone_parses(fields) ==> parsed_u64(fields[3]).unwrap() <= parsed_u64(fields[4]).unwrap()
}

/// `zone` is the zone that a record with these fields describes: named by
/// the third field and timed by the fourth and fifth.
pub open spec fn zone_matches(zone: Zone, fields: Seq<Seq<char>>) -> bool {
    &&& zone.name@ == fields[2]
    &&& parsed_u64(fields[3]) == Some(zone.time_start)
    &&& parsed_u64(fields[4]) == Some(zone.time_end)
    &&& zone.well_formed()
}

/// Whether the times of a record of at least five fields are in order, as
/// far as both can be read.
pub fn record_times_ordered(record: &csv::StringRecord) -> (ordered: bool)
    requires
        record_fields(*record).len() >= 5,
    ensures
        ordered == times_ordered(record_fields(*record)),
{
    match parse_u64(field(record, 3)) {
        Ok(ts) => match parse_u64(field(record, 4)) {
            Ok(te) => ts <= te,
            Err(_) => true,
        },
        Err(_) => true,
    }
}

impl Zone {
    /// The zone ends no earlier than it starts, and lasts from the one to
    /// the other.
    pub open spec fn well_formed(&self) -> bool {
        self.time_start <= self.time_end && self.duration == self.time_end - self.time_start
    }

    /// Whether two zones are the same: same name, same boundaries.
    pub open spec fn same(&self, other: &Zone) -> bool {
        self.time_start == other.time_start && self.time_end == other.time_end && self.name@
            == other.name@
    }

    /// `zone` lies within `self`; shared boundaries count as inside.
    pub open spec fn spec_contains(&self, zone: &Zone) -> bool {
        self.time_start <= zone.time_start && self.time_end >= zone.time_end
    }

    /// `self` ends later than `zone` does.
    pub open spec fn spec_ends_after(&self, zone: &Zone) -> bool {
        self.time_end > zone.time_end
    }

    /// `self` has ended before `zone` starts.
    pub open spec fn spec_completes_by(&self, zone: &Zone) -> bool {
        self.time_end < zone.time_start
    }

    /// A zone from `time_start` to `time_end`.
    pub fn new(name: String, time_start: u64, time_end: u64) -> (zone: Zone)
        requires
            time_start <= time_end,
        ensures
            zone.name == name,
            zone.time_start == time_start,
            zone.time_end == time_end,
            zone.duration == time_end - time_start,
            zone.well_formed(),
    {
        Zone { name, time_start, time_end, duration: time_end - time_start }
    }

    /// Reads a zone from a record of at least five fields: the name in the
    /// third, the start and end times in the fourth and fifth.  Fails when
    /// one of the times cannot be read.
    pub fn from_record(record: &csv::StringRecord) -> (r: Result<Zone, TimelineError>)
        requires
            record_fields(*record).len() >= 5,
            times_ordered(record_fields(*record)),
        ensures
            r is Ok <==> zone_parses(record_fields(*record)),
            r matches Ok(zone) ==> zone_matches(zone, record_fields(*record)),
            r matches Err(e) ==> e is ParseIntError,
    {
        let ts: u64 = match parse_u64(field(record, 3)) {
            Ok(n) => n,
            Err(e) => {
                return Err(TimelineError::ParseIntError(e));
            },
        };
        let te: u64 = match parse_u64(field(record, 4)) {
            Ok(n) => n,
            Err(e) => {
                return Err(TimelineError::ParseIntError(e));
            },
        };
        Ok(Zone::new(field(record, 2).to_owned(), ts, te))
    }

    #[verifier::when_used_as_spec(spec_contains)]
    pub fn contains(&self, zone: &Zone) -> (b: bool)
        ensures
            b == self.spec_contains(zone),
    {
        self.time_start <= zone.time_start && self.time_end >= zone.time_end
    }

    #[verifier::when_used_as_spec(spec_ends_after)]
    pub fn ends_after(&self, zone: &Zone) -> (b: bool)
        ensures
            b == self.spec_ends_after(zone),
    {
        self.time_end > zone.time_end
    }

    #[verifier::when_used_as_spec(spec_completes_by)]
    pub fn completes_by(&self, zone: &Zone) -> (b: bool)
        ensures
            b == self.spec_completes_by(zone),
    {
        self.time_end < zone.time_start
    }

    /// The distance between the two starts.
    pub fn get_start_distance(&self, zone: &Zone) -> (d: u64)
        ensures
            d == crate::zones::distance(self.time_start as int, zone.time_start as int),
    {
        crate::zones::timestamp_distance(zone.time_start, self.time_start)
    }

    /// The distance between the two ends.
    pub fn get_end_distance(&self, zone: &Zone) -> (d: u64)
        ensures
            d == crate::zones::distance(self.time_end as int, zone.time_end as int),
    {
        crate::zones::timestamp_distance(zone.time_end, self.time_end)
    }
}

impl Timed for Zone {
    open spec fn spec_start(&self) -> u64 {
        self.time_start
    }

    fn start(&self) -> (t: u64) {
        self.time_start
    }
}

/// The record lies on the context track.
pub open spec fn is_context_record(record: csv::StringRecord, tracks: Tracks) -> bool {
    &&& parsed_u64(record_fields(record)[1]) matches Some(id)
    &&& tracks.context matches Some(c)
    &&& c.id == id
}

/// The record lies on the main track, and not on the context track.
pub open spec fn is_main_record(record: csv::StringRecord, tracks: Tracks) -> bool {
    &&& !is_context_record(record, tracks)
    &&& parsed_u64(record_fields(record)[1]) matches Some(id)
    &&& tracks.main_track matches Some(m)
    &&& m.id == id
}

/// The test "the record lies on the context track".
pub open spec fn on_context(tracks: Tracks) -> spec_fn(csv::StringRecord) -> bool {
    |record: csv::StringRecord| is_context_record(record, tracks)
}

/// The test "the record lies on the main track and its zone carries one of
/// `names`".
pub open spec fn on_main_named(tracks: Tracks, names: Seq<String>) -> spec_fn(
    csv::StringRecord,
) -> bool {
    |record: csv::StringRecord|
        is_main_record(record, tracks) && has_name(names, record_fields(record)[2])
}

/// The record can be read as far as it has to be: its track in any case, and
/// its times where it lies on one of the two tracks.
pub open spec fn record_reads(record: csv::StringRecord, tracks: Tracks) -> bool {
    parsed_u64(record_fields(record)[1]) is Some && ((is_context_record(record, tracks)
        || is_main_record(record, tracks)) ==> zone_parses(record_fields(record)))
}

/// Where the record lies on one of the two tracks, its times are in order.
pub open spec fn record_ordered(record: csv::StringRecord, tracks: Tracks) -> bool {
    (is_context_record(record, tracks) || is_main_record(record, tracks)) ==> times_ordered(
        record_fields(record),
    )
}

/// Whether the times of a record of at least five fields are in order, as
/// far as the record lies on one of the two tracks and both can be read.
pub fn record_is_ordered(record: &csv::StringRecord, tracks: &Tracks) -> (ordered: bool)
    requires
        record_fields(*record).len() >= 5,
    ensures
        ordered == record_ordered(*record, *tracks),
{
    let id: u64 = match parse_u64(field(record, 1)) {
        Ok(id) => id,
        Err(_) => {
            return true;
        },
    };
    let on_context_track: bool = match &tracks.context {
        Some(c) => id == c.id,
        None => false,
    };
    let on_main_track: bool = match &tracks.main_track {
        Some(m) => id == m.id,
        None => false,
    };
    if on_context_track || on_main_track {
        record_times_ordered(record)
    } else {
        true
    }
}

/// `zones` are the zones that `records` describe, one for one.
pub open spec fn zones_of(zones: Seq<Zone>, records: Seq<csv::StringRecord>) -> bool {
    zones.len() == records.len() && forall|k: int|
        0 <= k < zones.len() ==> zone_matches(#[trigger] zones[k], record_fields(records[k]))
}

/// `sorted` are the zones that `records` describe, in ascending order of
/// start time, with those that start together in the order of their records.
pub open spec fn sorted_zones_of(sorted: Seq<Zone>, records: Seq<csv::StringRecord>) -> bool {
    exists|unsorted: Seq<Zone>|
        zones_of(unsorted, records) && #[trigger] is_sorted_copy(unsorted, sorted)
}

/// Reads the zones of the main track that carry one of `names`, and the
/// zones of the context track, each list in ascending order of start time.
/// A record on both tracks counts for the context.  Fails on the first
/// record whose track cannot be read, or that lies on one of the two tracks
/// and whose times cannot be read.
pub fn parse_zones(records: &Vec<csv::StringRecord>, tracks: &Tracks, names: &Vec<String>) -> (r:
    Result<(Vec<Zone>, Vec<Zone>), TimelineError>)
    requires
        tracks.main_track is Some,
        all_have_fields(records@, 5),
        forall|i: int| 0 <= i < records.len() ==> record_ordered(#[trigger] records[i], *tracks),
    ensures
        r is Ok <==> forall|i: int|
            0 <= i < records.len() ==> record_reads(#[trigger] records[i], *tracks),
        r matches Ok(found) ==> sorted_zones_of(
            found.0@,
            records@.filter(on_main_named(*tracks, names@)),
        ) && sorted_zones_of(found.1@, records@.filter(on_context(*tracks))),
        r matches Err(e) ==> e is ParseIntError,
{
    let mut main_track: Vec<Zone> = Vec::new();
    let mut context: Vec<Zone> = Vec::new();
    let ghost is_main = on_main_named(*tracks, names@);
    let ghost is_context = on_context(*tracks);
    let main_id: u64 = match &tracks.main_track {
        Some(m) => m.id,
        None => 0,
    };
    let mut i: usize = 0;
    while i < records.len()
        invariant
            i <= records.len(),
            tracks.main_track matches Some(m) && m.id == main_id,
            all_have_fields(records@, 5),
            forall|j: int|
                0 <= j < records.len() ==> record_ordered(#[trigger] records[j], *tracks),
            is_main == on_main_named(*tracks, names@),
            is_context == on_context(*tracks),
            forall|j: int| 0 <= j < i ==> record_reads(#[trigger] records[j], *tracks),
            zones_of(main_track@, records@.take(i as int).filter(is_main)),
            zones_of(context@, records@.take(i as int).filter(is_context)),
        decreases records.len() - i,
    {
        let record = &records[i];
        proof {
            lemma_filter_take_step(records@, is_main, i as int);
            lemma_filter_take_step(records@, is_context, i as int);
            assert(record_ordered(*record, *tracks));
        }
        let id: u64 = match parse_u64(field(record, 1)) {
            Ok(id) => id,
            Err(e) => {
                return Err(TimelineError::ParseIntError(e));
            },
        };
        let on_context_track: bool = match &tracks.context {
            Some(c) => id == c.id,
            None => false,
        };
        if on_context_track {
            match Zone::from_record(record) {
                Ok(zone) => {
                    context.push(zone);
                },
                Err(e) => {
                    return Err(e);
                },
            }
        } else if id == main_id {
            match Zone::from_record(record) {
                Ok(zone) => {
                    if contains_name(names, &zone.name) {
                        main_track.push(zone);
                    }
                },
                Err(e) => {
                    return Err(e);
                },
            }
        }
        i += 1;
    }
    assert(records@.take(i as int) =~= records@);
    let ghost m = main_track@;
    let ghost c = context@;
    sort_by_start(&mut main_track);
    sort_by_start(&mut context);
    assert(is_sorted_copy(m, main_track@));
    assert(is_sorted_copy(c, context@));
    Ok((main_track, context))
}

} // verus!
