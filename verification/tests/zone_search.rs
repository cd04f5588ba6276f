use calculate_differences::zone_search::{
    contained_ignores, contains_intersect, filter_by_name, filter_by_name_on_idx,
    filter_out_contains, first_by_name_on_idx, get_by_name, get_parents, partial_intersect,
    set_zone_idx, sum_zone_indices, ZoneIdx,
};
use calculate_differences::zones::Zone;

fn from_timestamps(start_time: u64, end_time: u64) -> Zone {
    Zone::new("foo".to_string(), start_time, end_time, 0)
}

fn named_zones() -> Vec<Zone> {
    let mut zones = vec![
        Zone::new("foo".to_string(), 8, 20, 0),
        Zone::new("foo2".to_string(), 10, 50, 0),
        Zone::new("foo".to_string(), 30, 40, 0),
        Zone::new("foo4".to_string(), 32, 56, 0),
        Zone::new("foo".to_string(), 48, 55, 0),
        Zone::new("foo6".to_string(), 55, 65, 0),
    ];
    set_zone_idx(&mut zones);
    zones
}

#[test]
fn test_filter_by_name() {
    let mut zones = vec![
        Zone::new("foo".to_string(), 8, 20, 0),
        Zone::new("foo2".to_string(), 10, 50, 0),
        Zone::new("foo".to_string(), 30, 40, 0),
        Zone::new("foo4".to_string(), 32, 56, 0),
        Zone::new("foo".to_string(), 48, 55, 0),
        Zone::new("foo6".to_string(), 55, 65, 0),
    ];
    set_zone_idx(&mut zones);

    let filtered_zones = filter_by_name(&zones, &vec!["foo".to_string()]);
    assert_eq!(filtered_zones.len(), 3);
    assert_eq!(filtered_zones.get(0).unwrap(), &0);
    assert_eq!(filtered_zones.get(1).unwrap(), &2);
    assert_eq!(filtered_zones.get(2).unwrap(), &4);
}

#[test]
fn test_get_by_name() {
    let mut zones = vec![
        Zone::new("foo".to_string(), 8, 20, 0),
        Zone::new("foo2".to_string(), 10, 50, 0),
        Zone::new("foo".to_string(), 30, 40, 0),
        Zone::new("foo4".to_string(), 32, 56, 0),
        Zone::new("foo".to_string(), 48, 55, 0),
        Zone::new("foo6".to_string(), 55, 65, 0),
    ];
    set_zone_idx(&mut zones);

    assert_eq!(get_by_name(&zones, "foo"), vec![0, 2, 4],);
}

#[test]
fn test_partial_intersection() {
    let mut zones = vec![
        from_timestamps(8, 20),
        from_timestamps(10, 50),
        from_timestamps(30, 40),
        from_timestamps(32, 56),
        from_timestamps(48, 55),
        from_timestamps(55, 65),
    ];
    set_zone_idx(&mut zones);

    assert_eq!(partial_intersect(&zones, 3), vec![2, 1, 5]);

    assert_eq!(partial_intersect(&zones, 5), vec![4, 3]);

    assert_eq!(partial_intersect(&zones, 0), vec![1]);
}

#[test]
fn test_partial_intersection_with_super_container() {
    let mut zones = vec![from_timestamps(8, 55), from_timestamps(10, 50)];
    set_zone_idx(&mut zones);

    let expected: Vec<usize> = vec![];
    assert_eq!(partial_intersect(&zones, 1), expected);
}

#[test]
fn test_filter_out_contains() {
    let mut zones = vec![
        from_timestamps(8, 20),
        from_timestamps(15, 18),
        from_timestamps(10, 50),
        from_timestamps(40, 42),
    ];
    set_zone_idx(&mut zones);

    let partials = vec![0];

    let contains = vec![1];
    let contains = filter_out_contains(&zones, &partials, &contains);
    assert_eq!(contains.len(), 0);

    let contains = vec![1, 3];
    let contains = filter_out_contains(&zones, &partials, &contains);
    assert_eq!(contains.len(), 1);
    assert_eq!(contains.get(0).unwrap(), &3);
}

#[test]
fn set_zone_idx_writes_offsets_and_keeps_the_rest() {
    let mut zones = vec![from_timestamps(3, 4), from_timestamps(1, 2), from_timestamps(5, 9)];
    zones[1].idx = 17;
    set_zone_idx(&mut zones);
    assert_eq!(zones.iter().map(|z| z.idx).collect::<Vec<usize>>(), vec![0, 1, 2]);
    assert_eq!(zones[0].start_time, 3);
    assert_eq!(zones[1].end_time, 2);
    assert_eq!(zones[2].duration, 4);

    let mut empty: Vec<Zone> = vec![];
    set_zone_idx(&mut empty);
    assert!(empty.is_empty());
}

#[test]
fn zone_idx_from_offset() {
    let idx: ZoneIdx = 7usize.into();
    assert_eq!(idx.0, 7);
    assert_eq!(ZoneIdx::from(0).0, 0);
}

#[test]
fn get_by_name_without_match_is_empty() {
    let zones = named_zones();
    assert_eq!(get_by_name(&zones, "bar"), Vec::<usize>::new());
    assert_eq!(filter_by_name(&zones, &vec![]), Vec::<usize>::new());
    assert_eq!(
        filter_by_name(&zones, &vec!["foo6".to_string(), "foo2".to_string()]),
        vec![1, 5]
    );
}

#[test]
fn filter_by_name_on_idx_keeps_the_given_order() {
    let zones = named_zones();
    let names = vec!["foo".to_string(), "foo4".to_string()];
    assert_eq!(filter_by_name_on_idx(&zones, &vec![5, 4, 3, 1, 0], &names), vec![4, 3, 0]);
    assert_eq!(filter_by_name_on_idx(&zones, &vec![2, 2], &names), vec![2, 2]);
    assert_eq!(filter_by_name_on_idx(&zones, &vec![], &names), Vec::<usize>::new());
}

#[test]
fn first_by_name_on_idx_takes_the_first_in_the_given_order() {
    let zones = named_zones();
    assert_eq!(first_by_name_on_idx(&zones, &vec![5, 4, 2, 0], "foo"), Some(4));
    assert_eq!(first_by_name_on_idx(&zones, &vec![5, 3], "foo"), None);
    assert_eq!(first_by_name_on_idx(&zones, &vec![], "foo"), None);
}

#[test]
fn contains_intersect_of_nested_zones() {
    let mut zones = vec![
        Zone::new("A".to_string(), 50, 100, 0),
        Zone::new("B".to_string(), 68, 71, 0),
        Zone::new("C".to_string(), 68, 70, 0),
    ];
    set_zone_idx(&mut zones);

    assert_eq!(contains_intersect(&zones, 1), vec![2]);
    assert_eq!(contains_intersect(&zones, 0), vec![1, 2]);
    assert_eq!(contains_intersect(&zones, 2), Vec::<usize>::new());
}

#[test]
fn contains_intersect_stops_at_the_first_zone_outside() {
    let mut zones = vec![
        from_timestamps(10, 50),
        from_timestamps(12, 20),
        from_timestamps(45, 60),
        from_timestamps(46, 48),
    ];
    set_zone_idx(&mut zones);
    assert_eq!(contains_intersect(&zones, 0), vec![1]);
}

#[test]
fn a_stop_on_the_left_does_not_end_the_pass_to_the_right() {
    let mut zones = vec![
        from_timestamps(1, 2),
        from_timestamps(10, 50),
        from_timestamps(12, 20),
    ];
    set_zone_idx(&mut zones);
    assert_eq!(contains_intersect(&zones, 1), vec![2]);
}

#[test]
fn zones_with_shared_boundaries() {
    let mut zones = vec![
        from_timestamps(10, 20),
        from_timestamps(10, 30),
        from_timestamps(20, 30),
        from_timestamps(30, 40),
    ];
    set_zone_idx(&mut zones);
    // a shared start or end is containment; a pivot that ends inside a zone
    // and starts no later than it straddles that zone, also where both start together
    assert_eq!(contains_intersect(&zones, 1), vec![0, 2]);
    assert_eq!(partial_intersect(&zones, 1), vec![3]);
    assert_eq!(partial_intersect(&zones, 0), vec![1, 2]);
    assert_eq!(partial_intersect(&zones, 3), vec![2, 1]);
}

#[test]
fn contained_ignores_looks_past_overlapping_neighbours() {
    let mut zones = vec![
        Zone::new("before".to_string(), 1, 5, 0),
        Zone::new("drop".to_string(), 6, 8, 0),
        Zone::new("outer".to_string(), 8, 60, 0),
        Zone::new("pivot".to_string(), 10, 50, 0),
        Zone::new("keep".to_string(), 12, 20, 0),
        Zone::new("straddle".to_string(), 45, 60, 0),
        Zone::new("drop".to_string(), 46, 48, 0),
        Zone::new("after".to_string(), 51, 52, 0),
        Zone::new("drop".to_string(), 52, 53, 0),
    ];
    set_zone_idx(&mut zones);
    let names = vec!["drop".to_string()];
    assert_eq!(contained_ignores(&zones, 3, &names), vec![6]);
    assert_eq!(contained_ignores(&zones, 3, &vec![]), Vec::<usize>::new());
    assert_eq!(
        contained_ignores(&zones, 3, &vec!["keep".to_string(), "drop".to_string()]),
        vec![4, 6]
    );
}

#[test]
fn get_parents_finds_every_enclosing_zone() {
    let mut zones = vec![
        Zone::new("outer".to_string(), 0, 100, 0),
        Zone::new("sibling".to_string(), 5, 10, 0),
        Zone::new("inner".to_string(), 20, 80, 0),
        Zone::new("sibling".to_string(), 22, 25, 0),
        Zone::new("pivot".to_string(), 30, 40, 0),
        Zone::new("twin".to_string(), 30, 40, 0),
        Zone::new("after".to_string(), 50, 60, 0),
        Zone::new("late".to_string(), 25, 45, 0),
    ];
    set_zone_idx(&mut zones);
    assert_eq!(get_parents(&zones, 4), vec![2, 0, 5, 7]);
    assert_eq!(get_parents(&zones, 0), Vec::<usize>::new());
}

#[test]
fn sum_zone_indices_adds_the_shared_time() {
    let mut zones = vec![
        from_timestamps(8, 20),
        from_timestamps(10, 50),
        from_timestamps(30, 40),
        from_timestamps(48, 55),
        from_timestamps(60, 70),
    ];
    set_zone_idx(&mut zones);
    assert_eq!(sum_zone_indices(&zones, &zones[1], &vec![0, 2, 3]), 10 + 10 + 2);
    assert_eq!(sum_zone_indices(&zones, &zones[1], &vec![4]), 0);
    assert_eq!(sum_zone_indices(&zones, &zones[1], &vec![]), 0);
    assert_eq!(sum_zone_indices(&zones, &zones[1], &vec![2, 2]), 20);
}

#[test]
fn sum_zone_indices_stops_at_the_largest_timestamp() {
    let mut zones = vec![from_timestamps(0, u64::MAX), from_timestamps(0, u64::MAX)];
    set_zone_idx(&mut zones);
    assert_eq!(sum_zone_indices(&zones, &zones[0], &vec![1, 1]), u64::MAX);
}
