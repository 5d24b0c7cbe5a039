use logic_gates::geometry::{Point, Rect, MAX_COORDINATE, MIN_COORDINATE};

#[test]
fn point_new_keeps_coordinates_in_range() {
    let p = Point::new(120, -45);
    assert_eq!(p.x(), 120);
    assert_eq!(p.y(), -45);
}

#[test]
fn point_new_clamps_far_coordinates() {
    let p = Point::new(i32::MAX, i32::MIN);
    assert_eq!(p.x(), 1_073_741_823);
    assert_eq!(p.y(), -1_073_741_824);
    assert_eq!(MAX_COORDINATE, 1_073_741_823);
    assert_eq!(MIN_COORDINATE, -1_073_741_824);
}

#[test]
fn point_new_keeps_the_edges_of_the_range() {
    let p = Point::new(MAX_COORDINATE, MIN_COORDINATE);
    assert_eq!((p.x(), p.y()), (MAX_COORDINATE, MIN_COORDINATE));
    let q = Point::new(MAX_COORDINATE + 1, MIN_COORDINATE - 1);
    assert_eq!(q, p);
}

#[test]
fn point_clamped_takes_wide_coordinates() {
    assert_eq!(Point::clamped(38, 682), Point::new(38, 682));
    assert_eq!(Point::clamped(i64::MAX, i64::MIN), Point::new(i32::MAX, i32::MIN));
    assert_eq!(Point::clamped(4_294_967_257, -5), Point::new(MAX_COORDINATE, -5));
}

#[test]
fn points_are_equal_by_coordinates() {
    assert_eq!(Point::new(3, 4), Point::new(3, 4));
    assert_ne!(Point::new(3, 4), Point::new(4, 3));
    assert_ne!(Point::new(3, 4), Point::new(3, 5));
}

#[test]
fn rect_new_keeps_fields_in_range() {
    let r = Rect::new(0, 0, 64, 64);
    assert_eq!((r.x(), r.y(), r.width(), r.height()), (0, 0, 64, 64));
    let s = Rect::new(-7, 9, 1, 1_073_741_823);
    assert_eq!((s.x(), s.y(), s.width(), s.height()), (-7, 9, 1, 1_073_741_823));
}

#[test]
fn rect_new_is_never_empty() {
    let r = Rect::new(5, 6, 0, 0);
    assert_eq!((r.width(), r.height()), (1, 1));
}

#[test]
fn rect_new_clamps_far_fields() {
    let r = Rect::new(i32::MAX, i32::MIN, u32::MAX, 1_073_741_824);
    assert_eq!(r.x(), 1_073_741_823);
    assert_eq!(r.y(), -1_073_741_824);
    assert_eq!(r.width(), 1_073_741_823);
    assert_eq!(r.height(), 1_073_741_823);
}
