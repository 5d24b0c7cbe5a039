use logic_gates::cable::State;
use logic_gates::drawing::{cable_color, Color};
use logic_gates::editor::{Drag, Editor};
use logic_gates::gate::{GateType, Texture};
use logic_gates::geometry::Point;

const HEIGHT: u32 = 720;
const PALETTE_Y: i32 = 682;

fn palette_x(item: i32) -> i32 {
    38 + item * 66
}

/// Drags palette item `item` to `(x, y)` and lets go. Returns its index.
fn place(editor: &mut Editor<'static>, item: i32, x: i32, y: i32) -> usize {
    editor.left_down(palette_x(item), PALETTE_Y);
    assert_eq!(editor.drag, Drag::New);
    editor.tick(x, y);
    editor.left_up(x, y);
    assert_eq!(editor.drag, Drag::Idle);
    editor.circuit.gates.len() - 1
}

/// Picks a wire up at output pin `out` of gate `from` and drops it on input
/// pin `pin` of gate `to`.
fn wire(editor: &mut Editor<'static>, from: usize, out: usize, to: usize, pin: usize) {
    let start = editor.circuit.gates[from].output_positions()[out];
    let end = editor.circuit.gates[to].input_positions()[pin];
    editor.left_down(start.x(), start.y());
    editor.left_up(end.x(), end.y());
}

fn toggle(editor: &mut Editor<'static>, gate: usize) {
    let centre = editor.circuit.gates[gate].position;
    editor.toggle_key(centre.x(), centre.y());
}

#[test]
fn and_gate_follows_its_switches() {
    let mut editor = Editor::new(HEIGHT);
    let upper = place(&mut editor, 0, 100, 100);
    let lower = place(&mut editor, 0, 100, 250);
    let and = place(&mut editor, 1, 300, 175);
    assert_eq!(editor.circuit.gates[and].gatetype, GateType::And);
    wire(&mut editor, upper, 0, and, 0);
    wire(&mut editor, lower, 0, and, 1);
    assert_eq!(editor.circuit.cables.len(), 2);
    editor.tick(0, 0);
    assert_eq!(editor.circuit.gates[and].output_is_on(), vec![true]);
    assert_eq!(editor.circuit.gates[and].input_values, Some(0b11));

    toggle(&mut editor, upper);
    assert_eq!(editor.circuit.gates[upper].input_values, Some(0));
    assert_eq!(editor.circuit.gates[upper].texture, Texture::SwitchOff);
    editor.tick(0, 0);
    assert_eq!(editor.circuit.gates[and].output_is_on(), vec![false]);
    assert_eq!(editor.circuit.gates[and].input_values, Some(0b10));
    assert_eq!(editor.circuit.cables[0].state, State::Off);
    assert_eq!(editor.circuit.cables[1].state, State::On);
    assert_eq!(cable_color(editor.circuit.cables[0].state), Color { r: 19, g: 21, b: 21 });
    assert_eq!(cable_color(editor.circuit.cables[1].state), Color { r: 125, g: 226, b: 209 });
}

#[test]
fn lamp_shows_the_level_of_its_switch() {
    let mut editor = Editor::new(HEIGHT);
    let s = place(&mut editor, 0, 100, 100);
    let lamp = place(&mut editor, 6, 300, 100);
    assert_eq!(editor.circuit.gates[lamp].gatetype, GateType::Lamp);
    toggle(&mut editor, s);
    assert_eq!(editor.circuit.gates[s].input_values, Some(0));
    wire(&mut editor, s, 0, lamp, 0);
    editor.tick(0, 0);
    assert_eq!(editor.circuit.gates[lamp].texture, Texture::SwitchOff);
    assert!(!editor.circuit.gates[lamp].evaluate_as_lamp());

    toggle(&mut editor, s);
    editor.tick(0, 0);
    assert_eq!(editor.circuit.gates[lamp].texture, Texture::SwitchOn);
    assert!(editor.circuit.gates[lamp].evaluate_as_lamp());
    assert_eq!(editor.circuit.gates[lamp].output_is_on(), Vec::<bool>::new());

    toggle(&mut editor, s);
    editor.tick(0, 0);
    assert_eq!(editor.circuit.gates[lamp].texture, Texture::SwitchOff);
    assert!(!editor.circuit.gates[lamp].evaluate_as_lamp());
}

#[test]
fn full_adder_adds_its_three_switches() {
    let mut editor = Editor::new(HEIGHT);
    let a = place(&mut editor, 0, 100, 100);
    let b = place(&mut editor, 0, 100, 200);
    let carry_in = place(&mut editor, 0, 100, 300);
    let adder = place(&mut editor, 7, 400, 200);
    assert_eq!(editor.circuit.gates[adder].inputs, 3);
    assert_eq!(editor.circuit.gates[adder].outputs, 2);
    toggle(&mut editor, carry_in);
    wire(&mut editor, a, 0, adder, 0);
    wire(&mut editor, b, 0, adder, 1);
    wire(&mut editor, carry_in, 0, adder, 2);
    assert_eq!(editor.circuit.cables.len(), 3);
    editor.tick(0, 0);
    editor.tick(0, 0);
    assert_eq!(editor.circuit.gates[adder].output_is_on(), vec![false, true]);
}

#[test]
fn moving_a_gate_keeps_its_cable() {
    let mut editor = Editor::new(HEIGHT);
    let upper = place(&mut editor, 0, 100, 100);
    let and = place(&mut editor, 1, 300, 100);
    wire(&mut editor, upper, 0, and, 0);
    editor.tick(0, 0);
    let before = editor.circuit.cables[0];
    assert_eq!(before.state, State::On);

    editor.left_down(300, 100);
    assert_eq!(editor.drag, Drag::Old(and));
    editor.tick(420, 330);
    editor.tick(450, 360);
    editor.left_up(450, 360);
    editor.tick(450, 360);

    assert_eq!(editor.circuit.gates[and].position, Point::new(450, 360));
    assert_eq!(editor.circuit.cables.len(), 1);
    let after = editor.circuit.cables[0];
    assert_eq!(after.end_point, editor.circuit.gates[and].input_positions()[0]);
    assert_eq!(after.end_point, Point::new(418, 348));
    assert_eq!(after.start_point, before.start_point);
    assert_eq!(after.state, before.state);
}

#[test]
fn deleting_a_gate_removes_its_cables() {
    let mut editor = Editor::new(HEIGHT);
    let upper = place(&mut editor, 0, 100, 100);
    let lower = place(&mut editor, 0, 100, 250);
    let and = place(&mut editor, 1, 300, 175);
    wire(&mut editor, upper, 0, and, 0);
    wire(&mut editor, lower, 0, and, 1);
    assert_eq!(editor.circuit.cables.len(), 2);

    editor.right_down(300, 175);
    assert_eq!(editor.circuit.gates.len(), 2);
    assert_eq!(editor.circuit.cables.len(), 0);
    assert_eq!(editor.circuit.gates[upper].gatetype, GateType::Switch);
    assert_eq!(editor.circuit.gates[lower].gatetype, GateType::Switch);
    assert_eq!(editor.circuit.gates[upper].position, Point::new(100, 100));
    assert_eq!(editor.circuit.gates[lower].position, Point::new(100, 250));
}

#[test]
fn wiring_the_same_pins_twice_removes_the_cable() {
    let mut editor = Editor::new(HEIGHT);
    let upper = place(&mut editor, 0, 100, 100);
    let not = place(&mut editor, 5, 300, 100);
    assert_eq!(editor.circuit.gates[not].gatetype, GateType::Not);
    let before = editor.circuit.gates[not];
    assert_eq!(before.input_values, None);
    assert_eq!(before.output_is_on(), vec![false]);
    wire(&mut editor, upper, 0, not, 0);
    assert_eq!(editor.circuit.cables.len(), 1);
    assert_eq!(editor.circuit.gates[not].input_values, Some(1));
    assert_eq!(editor.circuit.gates[not].output_is_on(), vec![false]);

    wire(&mut editor, upper, 0, not, 0);
    assert_eq!(editor.circuit.cables.len(), 0);
    assert_eq!(editor.circuit.gates[not].input_values, None);
    assert_eq!(editor.circuit.gates[not].input_values.unwrap_or(0) & 1, 0);
    assert_eq!(editor.circuit.gates[not].output_is_on(), vec![false]);
}

#[test]
fn wiring_the_same_pins_twice_on_a_wired_gate_flips_the_bit_back() {
    let mut editor = Editor::new(HEIGHT);
    let upper = place(&mut editor, 0, 100, 100);
    let lower = place(&mut editor, 0, 100, 250);
    let and = place(&mut editor, 1, 300, 175);
    wire(&mut editor, lower, 0, and, 1);
    editor.tick(0, 0);
    let before = editor.circuit.gates[and].input_values;
    assert_eq!(before, Some(0b10));

    wire(&mut editor, upper, 0, and, 0);
    assert_eq!(editor.circuit.gates[and].input_values, Some(0b11));
    editor.tick(0, 0);
    wire(&mut editor, upper, 0, and, 0);
    assert_eq!(editor.circuit.cables.len(), 1);
    assert_eq!(editor.circuit.gates[and].input_values, before);
}

#[test]
fn lamp_goes_dark_when_its_cable_is_removed() {
    let mut editor = Editor::new(HEIGHT);
    let s = place(&mut editor, 0, 100, 100);
    let lamp = place(&mut editor, 6, 300, 100);
    wire(&mut editor, s, 0, lamp, 0);
    editor.tick(0, 0);
    assert_eq!(editor.circuit.gates[lamp].texture, Texture::SwitchOn);
    assert!(editor.circuit.gates[lamp].evaluate_as_lamp());

    wire(&mut editor, s, 0, lamp, 0);
    assert!(editor.circuit.cables.is_empty());
    assert_eq!(editor.circuit.gates[lamp].input_values, None);
    editor.tick(0, 0);
    assert_eq!(editor.circuit.gates[lamp].texture, Texture::SwitchOff);
    editor.tick(0, 0);
    assert_eq!(editor.circuit.gates[lamp].texture, Texture::SwitchOff);
}

#[test]
fn lamp_goes_dark_when_its_switch_is_deleted() {
    let mut editor = Editor::new(HEIGHT);
    let s = place(&mut editor, 0, 100, 100);
    let lamp = place(&mut editor, 6, 300, 100);
    wire(&mut editor, s, 0, lamp, 0);
    editor.tick(0, 0);
    assert_eq!(editor.circuit.gates[lamp].texture, Texture::SwitchOn);
    editor.right_down(100, 100);
    assert_eq!(editor.circuit.gates.len(), 1);
    assert_eq!(editor.circuit.gates[0].input_values, None);
    editor.tick(0, 0);
    assert_eq!(editor.circuit.gates[0].texture, Texture::SwitchOff);
    assert!(!editor.circuit.gates[0].evaluate_as_lamp());
}
