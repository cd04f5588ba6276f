use calculate_differences::zone::Zone;

#[test]
fn new() {
    let zone = Zone::new("foo".to_string(), 0, 100);
    assert_eq!(zone.duration, 100);
}

#[test]
fn contains() {
    let zone = Zone::new("foo".to_string(), 50, 100);
    let zone2 = Zone::new("foo".to_string(), 68, 71);
    let zone3 = Zone::new("foo".to_string(), 68, 101);
    let zone4 = Zone::new("foo".to_string(), 49, 100);
    let zone5 = Zone::new("foo".to_string(), 49, 101);

    assert_eq!(zone.contains(&zone), true);
    assert_eq!(zone.contains(&zone2), true);

    assert_eq!(zone.contains(&zone3), false);
    assert_eq!(zone.contains(&zone4), false);
    assert_eq!(zone.contains(&zone5), false);
}

#[test]
fn ends_after() {
    let zone = Zone::new("foo".to_string(), 50, 100);
    let zone2 = Zone::new("foo".to_string(), 68, 71);
    let zone3 = Zone::new("foo".to_string(), 68, 101);
    let zone4 = Zone::new("foo".to_string(), 101, 102);

    assert_eq!(zone.ends_after(&zone), false);
    assert_eq!(zone.ends_after(&zone2), true);
    assert_eq!(zone.ends_after(&zone3), false);

    assert_eq!(zone.completes_by(&zone), false);
    assert_eq!(zone.completes_by(&zone2), false);
    assert_eq!(zone.completes_by(&zone3), false);
    assert_eq!(zone.completes_by(&zone4), true);
}

#[test]
fn get_start_distance() {
    let zone = Zone::new("foo".to_string(), 50, 100);
    let zone2 = Zone::new("foo".to_string(), 68, 71);
    let zone3 = Zone::new("foo".to_string(), 68, 101);

    assert_eq!(zone.get_start_distance(&zone), 0);
    assert_eq!(zone.get_start_distance(&zone2), 18);
    assert_eq!(zone.get_start_distance(&zone3), 18);
}

#[test]
fn get_end_distance() {
    let zone = Zone::new("foo".to_string(), 50, 100);
    let zone2 = Zone::new("foo".to_string(), 68, 71);
    let zone3 = Zone::new("foo".to_string(), 68, 101);

    assert_eq!(zone.get_end_distance(&zone), 0);
    assert_eq!(zone.get_end_distance(&zone2), 29);
    assert_eq!(zone.get_end_distance(&zone3), 1);
}

#[test]
fn distances_do_not_depend_on_the_side() {
    let zone = Zone::new("foo".to_string(), 50, 100);
    let zone2 = Zone::new("foo".to_string(), 68, 71);
    assert_eq!(zone2.get_start_distance(&zone), 18);
    assert_eq!(zone2.get_end_distance(&zone), 29);
}

#[test]
fn zones_are_the_same_by_name_and_boundaries() {
    let a = Zone::new("foo".to_string(), 50, 100);
    let mut b = Zone::new("foo".to_string(), 50, 100);
    b.duration = 7;
    assert!(a == b);
    assert!(a != Zone::new("bar".to_string(), 50, 100));
    assert!(a != Zone::new("foo".to_string(), 51, 100));
    assert!(a != Zone::new("foo".to_string(), 50, 99));
}
