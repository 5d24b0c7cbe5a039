use logic_gates::cable::{Cable, State};
use logic_gates::geometry::Point;

#[test]
fn state_from_level() {
    assert_eq!(State::from_level(true), State::On);
    assert_eq!(State::from_level(false), State::Off);
    assert!(State::On.is_on());
    assert!(!State::Off.is_on());
}

#[test]
fn cable_new_keeps_its_ends_and_level() {
    let cable = Cable::new(true, Point::new(1, 2), Point::new(3, 4));
    assert_eq!(cable.state, State::On);
    assert_eq!(cable.start_point, Point::new(1, 2));
    assert_eq!(cable.end_point, Point::new(3, 4));
    let low = Cable::new(false, Point::new(1, 2), Point::new(3, 4));
    assert_eq!(low.state, State::Off);
}

#[test]
fn same_edge_ignores_the_level() {
    let on = Cable::new(true, Point::new(1, 2), Point::new(3, 4));
    let off = Cable::new(false, Point::new(1, 2), Point::new(3, 4));
    assert!(on.same_edge(&off));
    assert!(on.same_edge(&on));
    assert_ne!(on, off);
}

#[test]
fn same_edge_needs_both_ends() {
    let cable = Cable::new(true, Point::new(1, 2), Point::new(3, 4));
    assert!(!cable.same_edge(&Cable::new(true, Point::new(1, 2), Point::new(3, 5))));
    assert!(!cable.same_edge(&Cable::new(true, Point::new(0, 2), Point::new(3, 4))));
    assert!(!cable.same_edge(&Cable::new(true, Point::new(3, 4), Point::new(1, 2))));
}
