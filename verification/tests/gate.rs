use logic_gates::gate::{Gate, GateType, Texture, OFFSET};
use logic_gates::geometry::{Point, Rect};
use logic_gates::operations::BoolFn;

fn sprite() -> Rect {
    Rect::new(0, 0, 64, 64)
}

fn and_gate(x: i32, y: i32, input_values: Option<u64>) -> Gate<'static> {
    Gate::new(
        GateType::And,
        "AND",
        Point::new(x, y),
        Texture::And,
        sprite(),
        2,
        1,
        BoolFn::And,
        input_values,
    )
}

fn switch(input_values: Option<u64>) -> Gate<'static> {
    Gate::new(
        GateType::Switch,
        " ",
        Point::new(100, 100),
        Texture::SwitchOn,
        sprite(),
        0,
        1,
        BoolFn::Switch,
        input_values,
    )
}

fn adder(input_values: Option<u64>) -> Gate<'static> {
    Gate::new(
        GateType::Custom,
        "ADD",
        Point::new(400, 200),
        Texture::Not,
        sprite(),
        3,
        2,
        BoolFn::Adder,
        input_values,
    )
}

#[test]
fn gate_new_keeps_its_arguments() {
    let gate = and_gate(300, 100, Some(2));
    assert_eq!(gate.gatetype, GateType::And);
    assert_eq!(gate.gatename, "AND");
    assert_eq!(gate.position, Point::new(300, 100));
    assert_eq!(gate.texture, Texture::And);
    assert_eq!(gate.sprite, sprite());
    assert_eq!(gate.inputs, 2);
    assert_eq!(gate.outputs, 1);
    assert_eq!(gate.comp_func, BoolFn::And);
    assert_eq!(gate.input_values, Some(2));
}

#[test]
fn two_input_pins_sit_on_the_left_edge() {
    assert_eq!(OFFSET, 8);
    let gate = and_gate(300, 100, None);
    assert_eq!(gate.input_positions(), vec![Point::new(268, 88), Point::new(268, 112)]);
}

#[test]
fn one_output_pin_sits_on_the_right_edge() {
    let gate = and_gate(300, 100, None);
    assert_eq!(gate.output_positions(), vec![Point::new(332, 100)]);
}

#[test]
fn adder_has_three_inputs_and_two_outputs() {
    let gate = adder(None);
    assert_eq!(
        gate.input_positions(),
        vec![Point::new(368, 182), Point::new(368, 200), Point::new(368, 218)]
    );
    assert_eq!(gate.output_positions(), vec![Point::new(432, 188), Point::new(432, 212)]);
}

#[test]
fn gate_without_pins_on_a_side_has_no_positions_there() {
    let gate = switch(Some(1));
    assert_eq!(gate.input_positions(), Vec::<Point>::new());
    assert_eq!(gate.output_positions(), vec![Point::new(132, 100)]);
}

#[test]
fn pin_spacing_rounds_down_before_it_is_multiplied() {
    let gate = Gate::new(
        GateType::Custom,
        "WIDE",
        Point::new(0, 0),
        Texture::And,
        Rect::new(0, 0, 65, 60),
        4,
        1,
        BoolFn::And,
        None,
    );
    // Span 68, four pins: steps of 68 / 5 = 13 below 0 - 34.
    assert_eq!(
        gate.input_positions(),
        vec![Point::new(-32, -21), Point::new(-32, -8), Point::new(-32, 5), Point::new(-32, 18)]
    );
    assert_eq!(gate.output_positions(), vec![Point::new(32, 0)]);
}

#[test]
fn many_pins_on_a_small_sprite_share_a_spot() {
    let gate = Gate::new(
        GateType::Custom,
        "TINY",
        Point::new(10, 10),
        Texture::And,
        Rect::new(0, 0, 1, 1),
        64,
        1,
        BoolFn::And,
        None,
    );
    let pins = gate.input_positions();
    assert_eq!(pins.len(), 64);
    assert!(pins.iter().all(|pin| *pin == Point::new(10, 6)));
}

#[test]
fn pins_beyond_the_range_are_clamped() {
    let gate = Gate::new(
        GateType::And,
        "AND",
        Point::new(i32::MIN, i32::MAX),
        Texture::And,
        Rect::new(0, 0, u32::MAX, u32::MAX),
        1,
        1,
        BoolFn::And,
        None,
    );
    // Centre (-2^30, 2^30 - 1), box of side 2^30 - 1: the input pin would sit
    // left of the range.
    assert_eq!(gate.input_positions(), vec![Point::new(-1_073_741_824, 1_073_741_823)]);
    assert_eq!(gate.output_positions(), vec![Point::new(-536_870_913, 1_073_741_823)]);

    let low = and_gate(0, i32::MAX, None);
    assert_eq!(
        low.input_positions(),
        vec![Point::new(-32, 1_073_741_811), Point::new(-32, 1_073_741_823)]
    );
}

#[test]
fn pin_positions_are_the_same_on_every_call() {
    let gates = [and_gate(300, 100, None), adder(Some(5)), switch(Some(0))];
    for gate in gates {
        for k in 0..gate.inputs {
            assert_eq!(gate.input_positions()[k], gate.input_positions()[k]);
        }
        for k in 0..gate.outputs {
            assert_eq!(gate.output_positions()[k], gate.output_positions()[k]);
        }
        let copy = gate;
        assert_eq!(copy.input_positions(), gate.input_positions());
        assert_eq!(copy.output_positions(), gate.output_positions());
    }
}

#[test]
fn pin_positions_follow_the_position() {
    let here = and_gate(300, 100, None);
    let there = and_gate(310, 95, None);
    assert_eq!(there.input_positions(), vec![Point::new(278, 83), Point::new(278, 107)]);
    assert_ne!(here.input_positions(), there.input_positions());
}

#[test]
fn output_is_low_while_no_levels_are_stored() {
    assert_eq!(and_gate(0, 0, None).output_is_on(), vec![false]);
    assert_eq!(adder(None).output_is_on(), vec![false, false]);
    assert_eq!(switch(None).output_is_on(), vec![false]);
}

#[test]
fn and_gate_evaluates_its_stored_levels() {
    assert_eq!(and_gate(0, 0, Some(0b00)).output_is_on(), vec![false]);
    assert_eq!(and_gate(0, 0, Some(0b01)).output_is_on(), vec![false]);
    assert_eq!(and_gate(0, 0, Some(0b10)).output_is_on(), vec![false]);
    assert_eq!(and_gate(0, 0, Some(0b11)).output_is_on(), vec![true]);
}

#[test]
fn levels_above_the_input_count_are_ignored() {
    let gate = Gate::new(
        GateType::Or,
        "OR",
        Point::new(0, 0),
        Texture::Or,
        sprite(),
        2,
        1,
        BoolFn::Or,
        Some(0b100),
    );
    assert_eq!(gate.output_is_on(), vec![false]);
}

#[test]
fn switch_drives_its_stored_level() {
    assert_eq!(switch(Some(1)).output_is_on(), vec![true]);
    assert_eq!(switch(Some(0)).output_is_on(), vec![false]);
}

#[test]
fn adder_reads_pins_from_the_low_bit_up() {
    // a = 1, b = 1, carry in = 0
    assert_eq!(adder(Some(0b011)).output_is_on(), vec![false, true]);
    assert_eq!(adder(Some(0b111)).output_is_on(), vec![true, true]);
    assert_eq!(adder(Some(0b100)).output_is_on(), vec![true, false]);
    assert_eq!(adder(Some(0b000)).output_is_on(), vec![false, false]);
}

#[test]
fn input_pin_k_is_bit_k() {
    let gate = Gate::new(
        GateType::Custom,
        "FIRST",
        Point::new(0, 0),
        Texture::And,
        sprite(),
        3,
        1,
        BoolFn::Switch,
        Some(0b110),
    );
    assert_eq!(gate.output_is_on(), vec![false]);
    let gate = Gate { input_values: Some(0b001), ..gate };
    assert_eq!(gate.output_is_on(), vec![true]);
}

#[test]
fn lamp_has_no_outputs_and_shows_bit_zero() {
    let lamp = Gate::new(
        GateType::Lamp,
        " ",
        Point::new(0, 0),
        Texture::SwitchOn,
        sprite(),
        1,
        0,
        BoolFn::Lamp,
        None,
    );
    assert_eq!(lamp.output_is_on(), Vec::<bool>::new());
    assert!(!lamp.evaluate_as_lamp());
    let lit = Gate { input_values: Some(1), ..lamp };
    assert_eq!(lit.output_is_on(), Vec::<bool>::new());
    assert!(lit.evaluate_as_lamp());
    let dark = Gate { input_values: Some(0), ..lamp };
    assert!(!dark.evaluate_as_lamp());
    let other_bits = Gate { input_values: Some(0b10), ..lamp };
    assert!(!other_bits.evaluate_as_lamp());
}

#[test]
fn well_formed_gates() {
    assert!(and_gate(0, 0, None).is_well_formed());
    assert!(switch(Some(1)).is_well_formed());
    assert!(adder(None).is_well_formed());
    let many = Gate { inputs: 64, ..and_gate(0, 0, None) };
    assert!(many.is_well_formed());
}

#[test]
fn malformed_gates() {
    let too_many = Gate { inputs: 65, ..and_gate(0, 0, None) };
    assert!(!too_many.is_well_formed());
    let too_many_outputs = Gate { outputs: 65, ..and_gate(0, 0, None) };
    assert!(!too_many_outputs.is_well_formed());
    let wrong_outputs = Gate { outputs: 2, ..and_gate(0, 0, None) };
    assert!(!wrong_outputs.is_well_formed());
    let starved_adder = Gate { inputs: 2, ..adder(None) };
    assert!(!starved_adder.is_well_formed());
    let switch_with_input = Gate { inputs: 1, ..switch(Some(1)) };
    assert!(!switch_with_input.is_well_formed());
    let lamp_with_output = Gate { gatetype: GateType::Lamp, ..and_gate(0, 0, None) };
    assert!(!lamp_with_output.is_well_formed());
}
