use calculate_differences::error::TimelineError;
use calculate_differences::opts::TimelineOpts;
use calculate_differences::parse::{parse_tracks, parse_zones, track_allowed};
use calculate_differences::record::{field, has_fields};
use calculate_differences::tm_csv;
use calculate_differences::tracks::Track;
use calculate_differences::zone;
use calculate_differences::zone_search::sort_and_index;
use calculate_differences::zones::Zone;
use csv::StringRecord;

fn zone_record(track: &str, name: &str, start: &str, end: &str) -> StringRecord {
    StringRecord::from(vec!["TM_ZONE", track, name, start, end, "6", "0x0"])
}

fn track_record(id: &str, name: &str, start: &str) -> StringRecord {
    StringRecord::from(vec!["TM_TRACK", id, name, start])
}

fn opts() -> TimelineOpts {
    TimelineOpts {
        track_file: "tracks.csv".to_string(),
        main_track: "Main Thread".to_string(),
        context_track: "Instrumentation".to_string(),
        zone_file: "zones.csv".to_string(),
        query_file: "query.json".to_string(),
    }
}

#[test]
fn field_reads_by_offset() {
    let record = zone_record("65536", "foo", "10", "50");
    assert_eq!(field(&record, 0), "TM_ZONE");
    assert_eq!(field(&record, 2), "foo");
    assert_eq!(field(&record, 6), "0x0");
    assert!(has_fields(&record, 7));
    assert!(has_fields(&record, 0));
    assert!(!has_fields(&record, 8));
    assert!(!has_fields(&StringRecord::new(), 1));
}

#[test]
fn zone_from_record() {
    let record = zone_record("65536", "V8.ExternalCallback", "1642630333023852127", "1642630333023877210");
    let zone = Zone::from_record(&record).unwrap();
    assert_eq!(zone.name, "V8.ExternalCallback");
    assert_eq!(zone.start_time, 1642630333023852127);
    assert_eq!(zone.end_time, 1642630333023877210);
    assert_eq!(zone.duration, 1642630333023877210 - 1642630333023852127);
    assert_eq!(zone.track_id, 65536);
    assert_eq!(zone.idx, 0);
    assert_eq!(
        zone.original_csv,
        "TM_ZONE,65536,V8.ExternalCallback,1642630333023852127,1642630333023877210,6,0x0"
    );
}

#[test]
fn zone_from_record_with_reversed_times() {
    let zone = Zone::from_record(&zone_record("1", "foo", "50", "10")).unwrap();
    assert_eq!(zone.duration, 40);
}

#[test]
fn zone_from_record_accepts_a_plus_sign_and_leading_zeros() {
    let zone = Zone::from_record(&zone_record("+1", "foo", "+10", "0050")).unwrap();
    assert_eq!((zone.track_id, zone.start_time, zone.end_time), (1, 10, 50));
}

#[test]
fn zone_from_record_fails_on_a_malformed_number() {
    for (track, start, end) in [
        ("1", "", "50"),
        ("1", "10", "5x"),
        ("x", "10", "50"),
        ("1", "-10", "50"),
        ("1", " 10", "50"),
        ("1", "10", "18446744073709551616"),
        ("1", "+", "50"),
        ("1", "1+0", "50"),
    ] {
        match Zone::from_record(&zone_record(track, "foo", start, end)) {
            Err(TimelineError::ParseIntError(_)) => {}
            _ => panic!("{} {} {} should not parse", track, start, end),
        }
    }
    let zone = Zone::from_record(&zone_record("1", "foo", "0", "18446744073709551615")).unwrap();
    assert_eq!(zone.end_time, u64::MAX);
}

#[test]
fn track_from_record() {
    let track = Track::from_record(&track_record("65536", "Main Thread", "12")).unwrap();
    assert_eq!(track.id, 65536);
    assert_eq!(track.name, "Main Thread");
    assert!(Track::from_record(&track_record("a", "Main Thread", "12")).is_err());
}

#[test]
fn parse_tracks_reads_every_record() {
    let records = vec![
        track_record("1", "Main Thread", "0"),
        track_record("2", "Instrumentation", "0"),
    ];
    let tracks = parse_tracks(&records).unwrap();
    assert_eq!(tracks.len(), 2);
    assert_eq!((tracks[0].id, tracks[0].name.as_str()), (1, "Main Thread"));
    assert_eq!((tracks[1].id, tracks[1].name.as_str()), (2, "Instrumentation"));

    let records = vec![track_record("1", "Main Thread", "0"), track_record("", "x", "0")];
    assert!(matches!(parse_tracks(&records), Err(TimelineError::ParseIntError(_))));
    assert_eq!(parse_tracks(&vec![]).unwrap().len(), 0);
}

#[test]
fn parse_zones_keeps_the_allowed_tracks() {
    let tracks = vec![
        Track { name: "a".to_string(), id: 1 },
        Track { name: "b".to_string(), id: 3 },
    ];
    assert!(track_allowed(&tracks, 3));
    assert!(!track_allowed(&tracks, 2));
    let records = vec![
        zone_record("1", "one", "10", "20"),
        zone_record("2", "two", "bad", "20"),
        zone_record("3", "three", "5", "8"),
        zone_record("1", "four", "1", "2"),
    ];
    let zones = parse_zones(&records, &tracks).unwrap();
    assert_eq!(
        zones.iter().map(|z| z.name.as_str()).collect::<Vec<&str>>(),
        vec!["one", "three", "four"]
    );
    assert_eq!(zones[1].track_id, 3);
    assert_eq!(zones[1].original_csv, "TM_ZONE,3,three,5,8,6,0x0");
}

#[test]
fn parse_zones_fails_on_what_it_has_to_read() {
    let tracks = vec![Track { name: "a".to_string(), id: 1 }];
    let records = vec![zone_record("1", "one", "10", "20"), zone_record("1", "two", "bad", "20")];
    assert!(matches!(parse_zones(&records, &tracks), Err(TimelineError::ParseIntError(_))));
    let records = vec![zone_record("x", "one", "10", "20")];
    assert!(matches!(parse_zones(&records, &tracks), Err(TimelineError::ParseIntError(_))));
}

#[test]
fn sort_and_index_is_stable() {
    let mut zones = vec![
        Zone::new("c".to_string(), 30, 40, 0),
        Zone::new("a1".to_string(), 10, 50, 0),
        Zone::new("b".to_string(), 20, 25, 0),
        Zone::new("a2".to_string(), 10, 12, 0),
    ];
    zones[0].original_csv = "kept".to_string();
    sort_and_index(&mut zones);
    assert_eq!(
        zones.iter().map(|z| z.name.as_str()).collect::<Vec<&str>>(),
        vec!["a1", "a2", "b", "c"]
    );
    assert_eq!(zones.iter().map(|z| z.idx).collect::<Vec<usize>>(), vec![0, 1, 2, 3]);
    assert_eq!(zones[3].original_csv, "kept");
    assert_eq!(zones[3].duration, 10);
}

#[test]
fn timeline_track_from_record() {
    let track = tm_csv::Track::from_record(&track_record("7", "Main Thread", "99")).unwrap();
    assert_eq!((track.id, track.name.as_str(), track.time_start), (7, "Main Thread", 99));
    assert!(tm_csv::Track::from_record(&track_record("7", "Main Thread", "")).is_err());
    assert!(tm_csv::Track::from_record(&track_record("x", "Main Thread", "1")).is_err());
}

#[test]
fn timeline_tracks_pick_the_last_of_each_name() {
    let records = vec![
        track_record("1", "Main Thread", "0"),
        track_record("2", "Instrumentation", "0"),
        track_record("3", "Other", "0"),
        track_record("4", "Main Thread", "5"),
    ];
    let tracks = tm_csv::parse_tracks(&records, &opts()).unwrap();
    assert_eq!(tracks.main_track.as_ref().unwrap().id, 4);
    assert_eq!(tracks.context.as_ref().unwrap().id, 2);
    assert!(tracks.require_main_track(&opts()).is_ok());

    let tracks = tm_csv::parse_tracks(&vec![track_record("3", "Other", "0")], &opts()).unwrap();
    assert!(tracks.main_track.is_none());
    assert!(tracks.context.is_none());
    match tracks.require_main_track(&opts()) {
        Err(TimelineError::MainTrack(text)) => {
            assert_eq!(text, "Did not find the main track that you provided: Main Thread")
        }
        _ => panic!("the main track is missing"),
    }
    let empty = tm_csv::Tracks::empty();
    assert!(empty.main_track.is_none() && empty.context.is_none());

    let records = vec![track_record("1", "Main Thread", "0"), track_record("2", "Other", "x")];
    assert!(matches!(
        tm_csv::parse_tracks(&records, &opts()),
        Err(TimelineError::ParseIntError(_))
    ));
}

#[test]
fn timeline_tracks_with_one_name_for_both() {
    let mut same = opts();
    same.context_track = "Main Thread".to_string();
    let tracks = tm_csv::parse_tracks(&vec![track_record("1", "Main Thread", "0")], &same).unwrap();
    assert_eq!(tracks.main_track.as_ref().unwrap().id, 1);
    assert!(tracks.context.is_none());
}

#[test]
fn timeline_zone_from_record() {
    let record = zone_record("1", "foo", "10", "50");
    assert!(zone::record_times_ordered(&record));
    let z = zone::Zone::from_record(&record).unwrap();
    assert_eq!((z.name.as_str(), z.time_start, z.time_end, z.duration), ("foo", 10, 50, 40));
    assert!(!zone::record_times_ordered(&zone_record("1", "foo", "50", "10")));
    assert!(zone::record_times_ordered(&zone_record("1", "foo", "x", "10")));
    assert!(matches!(
        zone::Zone::from_record(&zone_record("1", "foo", "x", "10")),
        Err(TimelineError::ParseIntError(_))
    ));
}

#[test]
fn timeline_zones_are_parted_and_sorted() {
    let tracks = tm_csv::Tracks {
        main_track: Some(tm_csv::Track { id: 1, name: "Main Thread".to_string(), time_start: 0 }),
        context: Some(tm_csv::Track { id: 2, name: "Instrumentation".to_string(), time_start: 0 }),
    };
    let names = vec!["A".to_string(), "B".to_string()];
    let records = vec![
        zone_record("1", "B", "68", "71"),
        zone_record("2", "ctx2", "30", "31"),
        zone_record("1", "A", "50", "100"),
        zone_record("3", "A", "bad", "bad"),
        zone_record("1", "unnamed", "1", "2"),
        zone_record("2", "ctx1", "10", "11"),
        zone_record("1", "A", "50", "60"),
    ];
    let (main, context) = zone::parse_zones(&records, &tracks, &names).unwrap();
    assert_eq!(
        main.iter().map(|z| (z.name.as_str(), z.time_end)).collect::<Vec<(&str, u64)>>(),
        vec![("A", 100), ("A", 60), ("B", 71)]
    );
    assert_eq!(
        context.iter().map(|z| z.name.as_str()).collect::<Vec<&str>>(),
        vec!["ctx1", "ctx2"]
    );

    let records = vec![zone_record("1", "unnamed", "x", "2")];
    assert!(matches!(
        zone::parse_zones(&records, &tracks, &names),
        Err(TimelineError::ParseIntError(_))
    ));
    let records = vec![zone_record("", "A", "1", "2")];
    assert!(matches!(
        zone::parse_zones(&records, &tracks, &names),
        Err(TimelineError::ParseIntError(_))
    ));
}
