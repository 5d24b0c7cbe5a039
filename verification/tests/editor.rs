use logic_gates::cable::State;
use logic_gates::editor::{
    palette_gate, palette_position, palette_positions, positions, Action, Drag, Editor, Event, Wire,
    PALETTE_BAND, PALETTE_ITEMS, PIN_REACH, SPRITE_HEIGHT, SPRITE_WIDTH,
};
use logic_gates::gate::{GateType, Texture};
use logic_gates::geometry::{Point, Rect};
use logic_gates::operations::BoolFn;

const HEIGHT: u32 = 720;

fn put(editor: &mut Editor<'static>, item: i32, x: i32, y: i32) -> usize {
    assert_eq!(editor.handle_event(Event::LeftDown, 38 + 66 * item, 682), Action::Continue);
    editor.tick(x, y);
    assert_eq!(editor.handle_event(Event::LeftUp, x, y), Action::Continue);
    editor.circuit.gates.len() - 1
}

#[test]
fn layout_constants() {
    assert_eq!(PALETTE_ITEMS, 8);
    assert_eq!(PALETTE_BAND, 64);
    assert_eq!(SPRITE_WIDTH, 64);
    assert_eq!(SPRITE_HEIGHT, 64);
    assert_eq!(PIN_REACH, 16);
}

#[test]
fn palette_items_stand_in_a_row_above_the_bottom_edge() {
    assert_eq!(palette_position(0, 720), Point::new(38, 682));
    assert_eq!(palette_position(1, 720), Point::new(104, 682));
    assert_eq!(palette_position(7, 720), Point::new(500, 682));
    assert_eq!(palette_position(3, 100), Point::new(236, 62));
    let all = palette_positions(720);
    assert_eq!(all.len(), 8);
    for (item, position) in all.iter().enumerate() {
        assert_eq!(*position, Point::new(38 + 66 * item as i32, 682));
    }
}

#[test]
fn palette_on_a_canvas_of_any_height() {
    assert_eq!(palette_position(2, 0), Point::new(170, -38));
    assert_eq!(palette_position(2, u32::MAX), Point::new(170, 1_073_741_823));
}

#[test]
fn palette_gate_kinds() {
    let at = Point::new(5, 6);
    let expected = [
        (GateType::Switch, " ", Texture::SwitchOn, 0, 1, BoolFn::Switch, Some(1)),
        (GateType::And, "AND", Texture::And, 2, 1, BoolFn::And, None),
        (GateType::Or, "OR", Texture::Or, 2, 1, BoolFn::Or, None),
        (GateType::XOr, "XOR", Texture::Xor, 2, 1, BoolFn::Xor, None),
        (GateType::Nand, "NAND", Texture::Nand, 2, 1, BoolFn::Nand, None),
        (GateType::Not, "NOT", Texture::Not, 1, 1, BoolFn::Not, None),
        (GateType::Lamp, " ", Texture::SwitchOn, 1, 0, BoolFn::Lamp, None),
        (GateType::Custom, "ADD", Texture::Not, 3, 2, BoolFn::Adder, None),
    ];
    for (item, (kind, name, texture, inputs, outputs, func, levels)) in
        expected.into_iter().enumerate()
    {
        let gate = palette_gate(item, at);
        assert_eq!(gate.gatetype, kind);
        assert_eq!(gate.gatename, name);
        assert_eq!(gate.position, at);
        assert_eq!(gate.texture, texture);
        assert_eq!(gate.sprite, Rect::new(0, 0, 64, 64));
        assert_eq!(gate.inputs, inputs);
        assert_eq!(gate.outputs, outputs);
        assert_eq!(gate.comp_func, func);
        assert_eq!(gate.input_values, levels);
    }
}

#[test]
fn positions_lists_gate_centres() {
    let gates = [palette_gate(0, Point::new(1, 2)), palette_gate(1, Point::new(3, 4))];
    assert_eq!(positions(&gates), vec![Point::new(1, 2), Point::new(3, 4)]);
    assert_eq!(positions(&[]), Vec::<Point>::new());
}

#[test]
fn new_editor_is_idle_and_empty() {
    let editor = Editor::new(HEIGHT);
    assert!(editor.circuit.gates.is_empty());
    assert!(editor.circuit.cables.is_empty());
    assert_eq!(editor.drag, Drag::Idle);
    assert_eq!(editor.wire, None);
    assert_eq!(editor.canvas_height, 720);
}

#[test]
fn left_down_on_the_palette_places_a_gate_at_the_pointer() {
    let mut editor = Editor::new(HEIGHT);
    editor.left_down(110, 690);
    assert_eq!(editor.drag, Drag::New);
    assert_eq!(editor.circuit.gates.len(), 1);
    assert_eq!(editor.circuit.gates[0].gatetype, GateType::And);
    assert_eq!(editor.circuit.gates[0].position, Point::new(110, 690));
    assert_eq!(editor.wire, None);
}

#[test]
fn left_down_between_palette_items_does_nothing() {
    let mut editor = Editor::new(HEIGHT);
    editor.left_down(71, 682);
    assert!(editor.circuit.gates.is_empty());
    assert_eq!(editor.drag, Drag::Idle);
    editor.left_down(600, 682);
    assert!(editor.circuit.gates.is_empty());
}

#[test]
fn palette_band_starts_below_its_top_row() {
    let mut editor = Editor::new(HEIGHT);
    // Row 656 is the last row outside the band; item 0 reaches up to row 651.
    editor.left_down(38, 656);
    assert!(editor.circuit.gates.is_empty());
    editor.left_down(38, 657);
    assert_eq!(editor.circuit.gates.len(), 1);
    assert_eq!(editor.circuit.gates[0].gatetype, GateType::Switch);
}

#[test]
fn gates_in_the_band_cannot_be_picked_up_again() {
    let mut editor = Editor::new(HEIGHT);
    let gate = put(&mut editor, 1, 900, 700);
    editor.left_down(900, 700);
    assert_eq!(editor.drag, Drag::Idle);
    assert_eq!(editor.circuit.gates.len(), gate + 1);
}

#[test]
fn dragging_a_new_gate_follows_the_pointer_until_release() {
    let mut editor = Editor::new(HEIGHT);
    editor.left_down(38, 682);
    editor.tick(50, 600);
    assert_eq!(editor.circuit.gates[0].position, Point::new(50, 600));
    editor.tick(200, 300);
    assert_eq!(editor.circuit.gates[0].position, Point::new(200, 300));
    editor.left_up(200, 300);
    assert_eq!(editor.drag, Drag::Idle);
    editor.tick(400, 400);
    assert_eq!(editor.circuit.gates[0].position, Point::new(200, 300));
}

#[test]
fn dragging_an_old_gate_picks_the_first_under_the_pointer() {
    let mut editor = Editor::new(HEIGHT);
    let first = put(&mut editor, 1, 300, 300);
    let second = put(&mut editor, 2, 320, 300);
    editor.left_down(310, 300);
    assert_eq!(editor.drag, Drag::Old(first));
    editor.tick(100, 100);
    assert_eq!(editor.circuit.gates[first].position, Point::new(100, 100));
    assert_eq!(editor.circuit.gates[second].position, Point::new(320, 300));
    editor.left_up(100, 100);
    editor.left_down(345, 300);
    assert_eq!(editor.drag, Drag::Old(second));
    editor.left_up(345, 300);
    editor.left_down(10, 10);
    assert_eq!(editor.drag, Drag::Idle);
}

#[test]
fn left_down_on_an_output_pin_picks_up_a_wire() {
    let mut editor = Editor::new(HEIGHT);
    let switch = put(&mut editor, 0, 100, 100);
    editor.left_down(135, 103);
    assert_eq!(editor.wire, Some(Wire { start: Point::new(132, 100), on: true }));
    assert_eq!(editor.drag, Drag::Idle);

    editor.toggle_key(100, 100);
    editor.left_down(132, 100);
    assert_eq!(editor.wire, Some(Wire { start: Point::new(132, 100), on: false }));
    assert_eq!(editor.circuit.gates[switch].input_values, Some(0));
}

#[test]
fn left_down_near_the_edge_drags_and_picks_up_a_wire() {
    let mut editor = Editor::new(HEIGHT);
    let switch = put(&mut editor, 0, 100, 100);
    editor.left_down(130, 100);
    assert_eq!(editor.drag, Drag::Old(switch));
    assert_eq!(editor.wire, Some(Wire { start: Point::new(132, 100), on: true }));
}

#[test]
fn wire_of_the_second_output_carries_the_second_level() {
    let mut editor = Editor::new(HEIGHT);
    let adder = put(&mut editor, 7, 400, 200);
    editor.circuit.gates[adder].input_values = Some(0b011);
    editor.left_down(432, 212);
    assert_eq!(editor.wire, Some(Wire { start: Point::new(432, 212), on: true }));
    editor.left_down(432, 188);
    assert_eq!(editor.wire, Some(Wire { start: Point::new(432, 188), on: false }));
}

#[test]
fn left_up_on_an_input_pin_drops_the_wire() {
    let mut editor = Editor::new(HEIGHT);
    put(&mut editor, 0, 100, 100);
    let and = put(&mut editor, 1, 300, 100);
    editor.left_down(132, 100);
    editor.left_up(270, 110);
    assert_eq!(editor.wire, None);
    assert_eq!(editor.circuit.cables.len(), 1);
    assert_eq!(editor.circuit.cables[0].start_point, Point::new(132, 100));
    assert_eq!(editor.circuit.cables[0].end_point, Point::new(268, 112));
    assert_eq!(editor.circuit.cables[0].state, State::On);
    assert_eq!(editor.circuit.gates[and].input_values, Some(0b10));
}

#[test]
fn left_up_without_a_wire_in_hand_connects_nothing() {
    let mut editor = Editor::new(HEIGHT);
    let and = put(&mut editor, 1, 300, 100);
    editor.left_up(268, 88);
    assert!(editor.circuit.cables.is_empty());
    assert_eq!(editor.circuit.gates[and].input_values, None);
}

#[test]
fn a_wire_stays_in_hand_until_it_is_dropped_on_an_input_pin() {
    let mut editor = Editor::new(HEIGHT);
    put(&mut editor, 0, 100, 100);
    put(&mut editor, 1, 300, 100);
    editor.left_down(132, 100);
    editor.left_up(200, 200);
    assert_eq!(editor.wire, Some(Wire { start: Point::new(132, 100), on: true }));
    assert!(editor.circuit.cables.is_empty());
    editor.left_up(268, 88);
    assert_eq!(editor.wire, None);
    assert_eq!(editor.circuit.cables.len(), 1);
    editor.left_up(268, 112);
    assert_eq!(editor.circuit.cables.len(), 1);
}

#[test]
fn a_rejected_drop_still_uses_the_wire_up() {
    let mut editor = Editor::new(HEIGHT);
    put(&mut editor, 0, 100, 100);
    put(&mut editor, 0, 100, 300);
    let and = put(&mut editor, 1, 300, 100);
    editor.left_down(132, 100);
    editor.left_up(268, 88);
    editor.left_down(132, 300);
    editor.left_up(268, 88);
    assert_eq!(editor.wire, None);
    assert_eq!(editor.circuit.cables.len(), 1);
    assert_eq!(editor.circuit.cables[0].start_point, Point::new(132, 100));
    assert_eq!(editor.circuit.gates[and].input_values, Some(0b01));
}

#[test]
fn right_down_deletes_the_first_gate_under_the_pointer() {
    let mut editor = Editor::new(HEIGHT);
    put(&mut editor, 0, 100, 100);
    put(&mut editor, 1, 300, 100);
    editor.right_down(500, 500);
    assert_eq!(editor.circuit.gates.len(), 2);
    editor.right_down(90, 110);
    assert_eq!(editor.circuit.gates.len(), 1);
    assert_eq!(editor.circuit.gates[0].gatetype, GateType::And);
}

#[test]
fn middle_up_clears_the_circuit() {
    let mut editor = Editor::new(HEIGHT);
    put(&mut editor, 0, 100, 100);
    put(&mut editor, 1, 300, 100);
    editor.left_down(132, 100);
    editor.left_up(268, 88);
    assert_eq!(editor.handle_event(Event::MiddleUp, 0, 0), Action::Continue);
    assert!(editor.circuit.gates.is_empty());
    assert!(editor.circuit.cables.is_empty());
    assert_eq!(editor.canvas_height, 720);
}

#[test]
fn clearing_while_dragging_is_harmless() {
    let mut editor = Editor::new(HEIGHT);
    editor.left_down(38, 682);
    editor.middle_up();
    assert_eq!(editor.drag, Drag::New);
    editor.tick(10, 10);
    assert!(editor.circuit.gates.is_empty());

    let gate = put(&mut editor, 1, 300, 100);
    editor.left_down(300, 100);
    assert_eq!(editor.drag, Drag::Old(gate));
    editor.right_down(300, 100);
    editor.tick(10, 10);
    assert!(editor.circuit.gates.is_empty());
}

#[test]
fn toggle_key_throws_only_switches() {
    let mut editor = Editor::new(HEIGHT);
    let switch = put(&mut editor, 0, 100, 100);
    let and = put(&mut editor, 1, 300, 100);
    editor.handle_event(Event::ToggleKey, 300, 100);
    assert_eq!(editor.circuit.gates[and].input_values, None);
    assert_eq!(editor.circuit.gates[and].texture, Texture::And);
    editor.handle_event(Event::ToggleKey, 600, 600);
    assert_eq!(editor.circuit.gates[switch].input_values, Some(1));
    editor.handle_event(Event::ToggleKey, 100, 100);
    assert_eq!(editor.circuit.gates[switch].input_values, Some(0));
    assert_eq!(editor.circuit.gates[switch].texture, Texture::SwitchOff);
    editor.handle_event(Event::ToggleKey, 100, 100);
    assert_eq!(editor.circuit.gates[switch].input_values, Some(1));
    assert_eq!(editor.circuit.gates[switch].texture, Texture::SwitchOn);
}

#[test]
fn quit_ends_the_program_and_changes_nothing() {
    let mut editor = Editor::new(HEIGHT);
    put(&mut editor, 0, 100, 100);
    editor.left_down(100, 100);
    assert_eq!(editor.handle_event(Event::Quit, 100, 100), Action::Quit);
    assert_eq!(editor.circuit.gates.len(), 1);
    assert_eq!(editor.drag, Drag::Old(0));
}

#[test]
fn other_events_change_nothing() {
    let mut editor = Editor::new(HEIGHT);
    put(&mut editor, 0, 100, 100);
    editor.left_down(132, 100);
    assert_eq!(editor.handle_event(Event::Other, 100, 100), Action::Continue);
    assert_eq!(editor.circuit.gates.len(), 1);
    assert_eq!(editor.circuit.gates[0].input_values, Some(1));
    assert_eq!(editor.wire, Some(Wire { start: Point::new(132, 100), on: true }));
}

#[test]
fn gate_under_the_pointer() {
    let mut editor = Editor::new(HEIGHT);
    put(&mut editor, 0, 100, 100);
    put(&mut editor, 1, 120, 100);
    assert_eq!(editor.gate_under(110, 100), Some(0));
    assert_eq!(editor.gate_under(140, 100), Some(1));
    assert_eq!(editor.gate_under(152, 100), None);
    assert_eq!(editor.gate_under(100, 68), None);
}

#[test]
fn a_wire_from_a_gate_that_was_carried_away_is_swept() {
    let mut editor = Editor::new(HEIGHT);
    put(&mut editor, 0, 100, 100);
    put(&mut editor, 1, 300, 100);
    // Pressed where both the sprite and its output pin are hit: the switch
    // comes along to the input pin, and the wire's start is left behind.
    editor.left_down(130, 100);
    editor.tick(268, 88);
    editor.left_up(268, 88);
    assert_eq!(editor.circuit.cables.len(), 1);
    assert_eq!(editor.circuit.cables[0].start_point, Point::new(132, 100));
    editor.tick(268, 88);
    assert!(editor.circuit.cables.is_empty());
    assert_eq!(editor.circuit.gates[1].input_values, None);
}
