use logic_gates::cable::State;
use logic_gates::drawing::{
    cable_color, match_create_pos, match_mouse_pos, match_mouse_pos_con, Color,
};
use logic_gates::gate::{Gate, GateType, Texture};
use logic_gates::geometry::{Point, Rect};
use logic_gates::operations::BoolFn;

fn gate(
    kind: GateType,
    func: BoolFn,
    inputs: usize,
    outputs: usize,
    x: i32,
    y: i32,
) -> Gate<'static> {
    Gate::new(
        kind,
        "G",
        Point::new(x, y),
        Texture::And,
        Rect::new(0, 0, 64, 64),
        inputs,
        outputs,
        func,
        None,
    )
}

#[test]
fn cable_colours() {
    assert_eq!(cable_color(State::On), Color { r: 125, g: 226, b: 209 });
    assert_eq!(cable_color(State::Off), Color { r: 19, g: 21, b: 21 });
}

#[test]
fn pointer_hits_the_box_around_a_position() {
    let positions = [Point::new(100, 100)];
    assert_eq!(match_mouse_pos(100, 100, &positions, 64, 64), Some(0));
    assert_eq!(match_mouse_pos(69, 131, &positions, 64, 64), Some(0));
    assert_eq!(match_mouse_pos(131, 69, &positions, 64, 64), Some(0));
}

#[test]
fn the_edge_of_the_box_is_outside() {
    let positions = [Point::new(100, 100)];
    assert_eq!(match_mouse_pos(68, 100, &positions, 64, 64), None);
    assert_eq!(match_mouse_pos(132, 100, &positions, 64, 64), None);
    assert_eq!(match_mouse_pos(100, 68, &positions, 64, 64), None);
    assert_eq!(match_mouse_pos(100, 132, &positions, 64, 64), None);
}

#[test]
fn first_position_under_the_pointer_wins() {
    let positions =
        [Point::new(0, 0), Point::new(100, 100), Point::new(110, 110), Point::new(100, 100)];
    assert_eq!(match_mouse_pos(105, 105, &positions, 64, 64), Some(1));
    assert_eq!(match_mouse_pos(140, 140, &positions, 64, 64), Some(2));
    assert_eq!(match_mouse_pos(500, 500, &positions, 64, 64), None);
    assert_eq!(match_mouse_pos(0, 0, &[], 64, 64), None);
}

#[test]
fn height_reaches_sideways_and_width_reaches_up_and_down() {
    let positions = [Point::new(100, 100)];
    // width 10, height 100: 50 to each side, 5 up and down.
    assert_eq!(match_mouse_pos(149, 100, &positions, 10, 100), Some(0));
    assert_eq!(match_mouse_pos(51, 104, &positions, 10, 100), Some(0));
    assert_eq!(match_mouse_pos(100, 105, &positions, 10, 100), None);
    assert_eq!(match_mouse_pos(100, 106, &positions, 10, 100), None);
    assert_eq!(match_mouse_pos(150, 100, &positions, 10, 100), None);
}

#[test]
fn odd_sizes_are_halved_towards_zero() {
    let positions = [Point::new(0, 0)];
    // Size 5: reach 2.
    assert_eq!(match_mouse_pos(1, 1, &positions, 5, 5), Some(0));
    assert_eq!(match_mouse_pos(2, 0, &positions, 5, 5), None);
    assert_eq!(match_mouse_pos(0, -2, &positions, 5, 5), None);
}

#[test]
fn empty_or_negative_boxes_are_never_hit() {
    let positions = [Point::new(0, 0)];
    assert_eq!(match_mouse_pos(0, 0, &positions, 0, 0), None);
    assert_eq!(match_mouse_pos(0, 0, &positions, 1, 1), None);
    assert_eq!(match_mouse_pos(0, 0, &positions, -64, -64), None);
    assert_eq!(match_mouse_pos(0, 0, &positions, i32::MIN, i32::MIN), None);
}

#[test]
fn huge_boxes_do_not_overflow() {
    let positions = [Point::new(i32::MAX, i32::MAX), Point::new(i32::MIN, i32::MIN)];
    // Positions are clamped to 2^30 - 1 and -2^30; the reach is 2^30 - 1.
    assert_eq!(match_mouse_pos(i32::MAX, i32::MAX, &positions, i32::MAX, i32::MAX), None);
    assert_eq!(
        match_mouse_pos(i32::MAX - 2, i32::MAX - 2, &positions, i32::MAX, i32::MAX),
        Some(0)
    );
    assert_eq!(match_mouse_pos(1, 1, &positions, i32::MAX, i32::MAX), Some(0));
    assert_eq!(match_mouse_pos(0, 0, &positions, i32::MAX, i32::MAX), None);
    assert_eq!(match_mouse_pos(-5, -5, &positions, i32::MAX, i32::MAX), Some(1));
    assert_eq!(match_mouse_pos(i32::MIN, i32::MIN, &positions, i32::MAX, i32::MAX), None);
}

#[test]
fn input_pin_under_the_pointer() {
    let gates = [
        gate(GateType::Switch, BoolFn::Switch, 0, 1, 100, 100),
        gate(GateType::And, BoolFn::And, 2, 1, 300, 100),
    ];
    // Input pins of the second gate sit at (268, 88) and (268, 112).
    assert_eq!(match_mouse_pos_con(268, 88, true, &gates, 16, 16), Some((1, 0, 0)));
    assert_eq!(match_mouse_pos_con(270, 115, true, &gates, 16, 16), Some((1, 1, 0)));
    assert_eq!(match_mouse_pos_con(268, 100, true, &gates, 16, 16), None);
    assert_eq!(match_mouse_pos_con(276, 88, true, &gates, 16, 16), None);
    assert_eq!(match_mouse_pos_con(132, 100, true, &gates, 16, 16), None);
}

#[test]
fn output_pin_under_the_pointer() {
    let gates = [
        gate(GateType::Switch, BoolFn::Switch, 0, 1, 100, 100),
        gate(GateType::Custom, BoolFn::Adder, 3, 2, 300, 100),
    ];
    assert_eq!(match_mouse_pos_con(132, 100, false, &gates, 16, 16), Some((0, 0, 0)));
    // Output pins of the adder sit at (332, 88) and (332, 112).
    assert_eq!(match_mouse_pos_con(330, 90, false, &gates, 16, 16), Some((1, 0, 0)));
    assert_eq!(match_mouse_pos_con(339, 119, false, &gates, 16, 16), Some((1, 1, 1)));
    assert_eq!(match_mouse_pos_con(340, 112, false, &gates, 16, 16), None);
    assert_eq!(match_mouse_pos_con(268, 100, false, &gates, 16, 16), None);
}

#[test]
fn first_gate_with_a_pin_under_the_pointer_wins() {
    let gates = [
        gate(GateType::And, BoolFn::And, 2, 1, 300, 100),
        gate(GateType::Not, BoolFn::Not, 1, 1, 300, 88),
        gate(GateType::And, BoolFn::And, 2, 1, 300, 100),
    ];
    // The single input pin of the second gate sits on the first input pin of
    // the others.
    assert_eq!(match_mouse_pos_con(268, 88, true, &gates, 16, 16), Some((0, 0, 0)));
    assert_eq!(match_mouse_pos_con(268, 112, true, &gates, 16, 16), Some((0, 1, 0)));
    assert_eq!(match_mouse_pos_con(332, 88, false, &gates, 16, 16), Some((1, 0, 0)));
    assert_eq!(match_mouse_pos_con(0, 0, true, &[], 16, 16), None);
}

#[test]
fn create_button_sits_in_the_top_right_corner() {
    assert!(match_create_pos(1280, 1250, 20, 50, 30));
    assert!(match_create_pos(1280, 1221, 11, 50, 30));
    assert!(match_create_pos(1280, 1269, 39, 50, 30));
}

#[test]
fn create_button_edges_are_outside() {
    assert!(!match_create_pos(1280, 1220, 20, 50, 30));
    assert!(!match_create_pos(1280, 1270, 20, 50, 30));
    assert!(!match_create_pos(1280, 1250, 10, 50, 30));
    assert!(!match_create_pos(1280, 1250, 40, 50, 30));
    assert!(!match_create_pos(1280, 0, 0, 50, 30));
}

#[test]
fn create_button_with_extreme_sizes() {
    assert!(!match_create_pos(u32::MAX, i32::MAX, 20, 50, 30));
    assert!(match_create_pos(0, -11, 11, i32::MAX, i32::MAX));
    assert!(!match_create_pos(0, -10, 11, i32::MAX, i32::MAX));
    assert!(!match_create_pos(1280, 1250, 20, i32::MIN, i32::MIN));
}
