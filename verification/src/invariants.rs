//! What holds of a circuit between any two steps, and why every step keeps
//! it.
//!
//! A circuit is `sound` when every cable ends on exactly one input pin, no
//! input pin has two cables, every stored input level is the level of the
//! cable on that pin (low where there is none), and a gate with input pins
//! stores levels exactly while a cable ends on it. Each edit and each tick takes
//! a sound circuit to a sound one, provided that it leaves no cable end on a
//! spot that two input pins share.

use crate::bits::{
    bit_is_set, lemma_bit_round_trip, lemma_with_bit, lemma_with_bit_flipped, lemma_zero_mask,
    with_bit,
};
use crate::cable::{Cable, State};
use crate::drawing::{
    first_hit, first_pin_hit, lemma_first_hit_from, lemma_first_pin_hit_from, pins_of,
};
use crate::editor::{
    spec_dragged, spec_palette_gate, spec_palette_positions, spec_positions, EditorView, Event,
    PIN_REACH, SPRITE_HEIGHT, SPRITE_WIDTH,
};
use crate::gate::Gate;
use crate::geometry::Point;
use crate::model::{
    cable_ends_at, doomed, driven_state, ends_on_gate, index_of_edge_from,
    lemma_change_input_keeps_shape, lemma_index_of_edge_from, lemma_pin_at_from,
    lemma_pin_at_same_shape, lemma_propagate_from_cables, lemma_remove_cable_keeps_shape,
    lemma_wired_same_shape, pin_at, rebound, same_shape, wired, with_input_changed,
    with_input_set, BitChange, CircuitView,
};
use vstd::prelude::*;

verus! {

/// Gate `gate` exists and has an input pin `pin`.
pub open spec fn is_input_pin(gates: Seq<Gate>, gate: int, pin: int) -> bool {
    0 <= gate < gates.len() && 0 <= pin < gates[gate].inputs
}

/// Gate `gate` exists and has an output pin `pin`.
pub open spec fn is_output_pin(gates: Seq<Gate>, gate: int, pin: int) -> bool {
    0 <= gate < gates.len() && 0 <= pin < gates[gate].outputs
}

/// At most one input pin sits at `p`.
pub open spec fn unshared(gates: Seq<Gate>, p: Point) -> bool {
    forall|gate_a: int, pin_a: int, gate_b: int, pin_b: int|
        #![trigger is_input_pin(gates, gate_a, pin_a), is_input_pin(gates, gate_b, pin_b)]
        is_input_pin(gates, gate_a, pin_a) && is_input_pin(gates, gate_b, pin_b)
            && gates[gate_a].spec_input_position(pin_a) == p && gates[gate_b].spec_input_position(
            pin_b,
        ) == p ==> gate_a == gate_b && pin_a == pin_b
}

/// `p` is the spot of some input pin.
pub open spec fn on_input_pin(gates: Seq<Gate>, p: Point) -> bool {
    exists|gate: int, pin: int|
        #![trigger is_input_pin(gates, gate, pin)]
        is_input_pin(gates, gate, pin) && gates[gate].spec_input_position(pin) == p
}

/// `p` is the spot of some output pin.
pub open spec fn on_output_pin(gates: Seq<Gate>, p: Point) -> bool {
    exists|gate: int, pin: int|
        #![trigger is_output_pin(gates, gate, pin)]
        is_output_pin(gates, gate, pin) && gates[gate].spec_output_position(pin) == p
}

/// Whether `gate` stores a high level for input pin `pin`.
pub open spec fn stored_level(gate: Gate, pin: int) -> bool {
    gate.input_values is Some && bit_is_set(gate.input_values->0, pin)
}

/// Whether some cable that carries a high level ends at `p`.
pub open spec fn on_cable_at(cables: Seq<Cable>, p: Point) -> bool {
    exists|c: int|
        0 <= c < cables.len() && (#[trigger] cables[c]).end_point == p && cables[c].state
            == State::On
}

/// No two of the cables end on the same spot.
pub open spec fn ends_apart(cables: Seq<Cable>) -> bool {
    forall|c1: int, c2: int|
        0 <= c1 < c2 < cables.len() ==> (#[trigger] cables[c1]).end_point != (
        #[trigger] cables[c2]).end_point
}

impl<'a> CircuitView<'a> {
    /// Every cable starts on an output pin and ends on an input pin of a
    /// gate of the circuit.
    pub open spec fn attached(self) -> bool {
        forall|c: int|
            0 <= c < self.cables.len() ==> on_output_pin(
                self.gates,
                (#[trigger] self.cables[c]).start_point,
            ) && on_input_pin(self.gates, self.cables[c].end_point)
    }

    /// Every cable ends on an input pin of a gate of the circuit.
    pub open spec fn ends_attached(self) -> bool {
        forall|c: int|
            0 <= c < self.cables.len() ==> on_input_pin(
                self.gates,
                (#[trigger] self.cables[c]).end_point,
            )
    }

    /// No cable ends on a spot that two input pins share.
    pub open spec fn ends_unshared(self) -> bool {
        forall|c: int|
            0 <= c < self.cables.len() ==> unshared(
                self.gates,
                (#[trigger] self.cables[c]).end_point,
            )
    }

    /// At most one cable ends on any input pin.
    pub open spec fn single_driver(self) -> bool {
        ends_apart(self.cables)
    }

    /// A gate with a cable on one of its input pins stores input levels.
    pub open spec fn present(self) -> bool {
        forall|gate: int, pin: int|
            #![trigger is_input_pin(self.gates, gate, pin)]
            is_input_pin(self.gates, gate, pin) && cable_ends_at(
                self.cables,
                self.gates[gate].spec_input_position(pin),
            ) ==> self.gates[gate].input_values is Some
    }

    /// The stored level of every input pin is high exactly when a cable that
    /// carries a high level ends on the pin.
    pub open spec fn faithful(self) -> bool {
        forall|gate: int, pin: int|
            #![trigger is_input_pin(self.gates, gate, pin)]
            is_input_pin(self.gates, gate, pin) ==> stored_level(self.gates[gate], pin)
                == on_cable_at(self.cables, self.gates[gate].spec_input_position(pin))
    }

    /// Wherever a gate stores levels, the level stored for an input pin is
    /// the level of every cable that ends on the pin.
    pub open spec fn levels_agree(self) -> bool {
        forall|gate: int, pin: int, c: int|
            #![trigger is_input_pin(self.gates, gate, pin), self.cables[c]]
            is_input_pin(self.gates, gate, pin) && 0 <= c < self.cables.len()
                && self.cables[c].end_point == self.gates[gate].spec_input_position(pin)
                && self.gates[gate].input_values is Some ==> stored_level(self.gates[gate], pin)
                == self.cables[c].state.spec_is_on()
    }

    /// What a pass of levels may start from: well-formed gates, at most one
    /// cable on any spot, no cable end on a spot that two input pins share,
    /// and stored levels that agree with the cables.
    pub open spec fn passable(self) -> bool {
        &&& self.wf()
        &&& self.single_driver()
        &&& self.ends_unshared()
        &&& self.levels_agree()
    }

    /// A gate with input pins stores input levels only while a cable ends
    /// on one of them.
    pub open spec fn stores_only_wired(self) -> bool {
        forall|gate: int|
            0 <= gate < self.gates.len() && (#[trigger] self.gates[gate]).inputs > 0
                && self.gates[gate].input_values is Some ==> wired(self, gate)
    }

    /// The circuit is coherent: gates are well formed, every cable ends on
    /// exactly one input pin, at most one cable ends on any pin, a gate with
    /// input pins stores levels exactly while a cable ends on it, and stored
    /// levels are those of the cables.
    pub open spec fn sound(self) -> bool {
        &&& self.wf()
        &&& self.ends_attached()
        &&& self.ends_unshared()
        &&& self.single_driver()
        &&& self.present()
        &&& self.stores_only_wired()
        &&& self.faithful()
    }
}

/// A spot is found to hold a pin exactly when some pin sits there.
pub proof fn lemma_pin_at_finds_pins(gates: Seq<Gate>, p: Point)
    ensures
        pin_at(gates, p, true) is Some <==> on_input_pin(gates, p),
        pin_at(gates, p, false) is Some <==> on_output_pin(gates, p),
        pin_at(gates, p, true) matches Some((gate, pin)) ==> is_input_pin(gates, gate, pin)
            && gates[gate].spec_input_position(pin) == p,
        pin_at(gates, p, false) matches Some((gate, pin)) ==> is_output_pin(gates, gate, pin)
            && gates[gate].spec_output_position(pin) == p,
{
    lemma_pin_at_from(gates, p, true, 0);
    lemma_pin_at_from(gates, p, false, 0);
    if on_input_pin(gates, p) {
        let (gate, pin) = choose|gate: int, pin: int|
            #![trigger is_input_pin(gates, gate, pin)]
            is_input_pin(gates, gate, pin) && gates[gate].spec_input_position(pin) == p;
        assert(pins_of(gates[gate], true)[pin] == p);
    }
    if on_output_pin(gates, p) {
        let (gate, pin) = choose|gate: int, pin: int|
            #![trigger is_output_pin(gates, gate, pin)]
            is_output_pin(gates, gate, pin) && gates[gate].spec_output_position(pin) == p;
        assert(pins_of(gates[gate], false)[pin] == p);
    }
    if let Some((gate, pin)) = pin_at(gates, p, true) {
        assert(is_input_pin(gates, gate, pin));
        assert(pins_of(gates[gate], true)[pin] == gates[gate].spec_input_position(pin));
    }
    if let Some((gate, pin)) = pin_at(gates, p, false) {
        assert(is_output_pin(gates, gate, pin));
        assert(pins_of(gates[gate], false)[pin] == gates[gate].spec_output_position(pin));
    }
}

/// The pin found at a pin's spot is that pin, where no other input pin sits
/// there.
pub proof fn lemma_pin_at_own_spot(gates: Seq<Gate>, gate: int, pin: int)
    requires
        is_input_pin(gates, gate, pin),
        unshared(gates, gates[gate].spec_input_position(pin)),
    ensures
        pin_at(gates, gates[gate].spec_input_position(pin), true) == Some((gate, pin)),
{
    let p = gates[gate].spec_input_position(pin);
    lemma_pin_at_finds_pins(gates, p);
    assert(on_input_pin(gates, p));
    let (found_gate, found_pin) = pin_at(gates, p, true)->0;
    assert(is_input_pin(gates, found_gate, found_pin));
}

/// Gates of the same shape have their input pins on the same spots.
pub proof fn lemma_same_shape_pins(before: Seq<Gate>, after: Seq<Gate>)
    requires
        same_shape(before, after),
    ensures
        forall|gate: int, pin: int|
            #![trigger is_input_pin(after, gate, pin)]
            #![trigger is_input_pin(before, gate, pin)]
            is_input_pin(before, gate, pin) == is_input_pin(after, gate, pin),
        forall|gate: int, pin: int|
            0 <= gate < before.len() ==> #[trigger] after[gate].spec_input_position(pin)
                == before[gate].spec_input_position(pin),
        forall|p: Point| #[trigger] unshared(before, p) ==> unshared(after, p),
        forall|p: Point| #[trigger] on_input_pin(before, p) ==> on_input_pin(after, p),
{
    assert forall|gate: int, pin: int|
        #![trigger is_input_pin(after, gate, pin)]
        #![trigger is_input_pin(before, gate, pin)]
        is_input_pin(before, gate, pin) == is_input_pin(after, gate, pin) by {
        if 0 <= gate < before.len() {
            assert(after[gate].inputs == before[gate].inputs);
        }
    }
    assert forall|gate: int, pin: int| 0 <= gate < before.len() implies #[trigger] after[gate].spec_input_position(
        pin,
    ) == before[gate].spec_input_position(pin) by {
        assert(after[gate].position == before[gate].position);
    }
    assert forall|p: Point| #[trigger] unshared(before, p) implies unshared(after, p) by {
        assert forall|gate_a: int, pin_a: int, gate_b: int, pin_b: int|
            #![trigger is_input_pin(after, gate_a, pin_a), is_input_pin(after, gate_b, pin_b)]
            is_input_pin(after, gate_a, pin_a) && is_input_pin(after, gate_b, pin_b)
                && after[gate_a].spec_input_position(pin_a) == p && after[gate_b].spec_input_position(pin_b)
                == p implies gate_a == gate_b && pin_a == pin_b by {
            assert(is_input_pin(before, gate_a, pin_a) && is_input_pin(before, gate_b, pin_b));
        }
    }
    assert forall|p: Point| #[trigger] on_input_pin(before, p) implies on_input_pin(after, p) by {
        let (gate, pin) = choose|gate: int, pin: int|
            #![trigger is_input_pin(before, gate, pin)]
            is_input_pin(before, gate, pin) && before[gate].spec_input_position(pin) == p;
        assert(is_input_pin(after, gate, pin));
    }
}

/// What removing cable `i` does to the cables that end at a spot.
pub proof fn lemma_cables_after_remove(cables: Seq<Cable>, i: int, at: Point)
    requires
        0 <= i < cables.len(),
    ensures
        cable_ends_at(cables.remove(i), at) ==> cable_ends_at(cables, at),
        on_cable_at(cables.remove(i), at) ==> on_cable_at(cables, at),
        cables[i].end_point != at ==> cable_ends_at(cables.remove(i), at) == cable_ends_at(
            cables,
            at,
        ) && on_cable_at(cables.remove(i), at) == on_cable_at(cables, at),
        ends_apart(cables) ==> ends_apart(cables.remove(i)),
        ends_apart(cables) && cables[i].end_point == at ==> !cable_ends_at(cables.remove(i), at),
{
    let rest = cables.remove(i);
    assert forall|c: int| 0 <= c < rest.len() implies #[trigger] rest[c] == cables[if c < i {
        c
    } else {
        c + 1
    }] by {}
    if cable_ends_at(rest, at) {
        let c = choose|c: int| 0 <= c < rest.len() && (#[trigger] rest[c]).end_point == at;
        let k = if c < i {
            c
        } else {
            c + 1
        };
        assert(cables[k].end_point == at);
    }
    if on_cable_at(rest, at) {
        let c = choose|c: int|
            0 <= c < rest.len() && (#[trigger] rest[c]).end_point == at && rest[c].state
                == State::On;
        let k = if c < i {
            c
        } else {
            c + 1
        };
        assert(cables[k].end_point == at && cables[k].state == State::On);
    }
    if cables[i].end_point != at {
        if cable_ends_at(cables, at) {
            let k = choose|k: int| 0 <= k < cables.len() && (#[trigger] cables[k]).end_point == at;
            let c = if k < i {
                k
            } else {
                k - 1
            };
            assert(rest[c].end_point == at);
        }
        if on_cable_at(cables, at) {
            let k = choose|k: int|
                0 <= k < cables.len() && (#[trigger] cables[k]).end_point == at && cables[k].state
                    == State::On;
            let c = if k < i {
                k
            } else {
                k - 1
            };
            assert(rest[c].end_point == at && rest[c].state == State::On);
        }
    }
    if ends_apart(cables) {
        assert forall|c1: int, c2: int| 0 <= c1 < c2 < rest.len() implies (#[trigger] rest[c1]).end_point
            != (#[trigger] rest[c2]).end_point by {
            let k1 = if c1 < i {
                c1
            } else {
                c1 + 1
            };
            let k2 = if c2 < i {
                c2
            } else {
                c2 + 1
            };
            assert(cables[k1].end_point != cables[k2].end_point);
        }
        if cables[i].end_point == at && cable_ends_at(rest, at) {
            let c = choose|c: int| 0 <= c < rest.len() && (#[trigger] rest[c]).end_point == at;
            let k = if c < i {
                c
            } else {
                c + 1
            };
            if k < i {
                assert(cables[k].end_point != cables[i].end_point);
            } else {
                assert(cables[i].end_point != cables[k].end_point);
            }
        }
    }
}

/// What a new state for cable `i` does to the cables that end at a spot.
pub proof fn lemma_cables_after_state(cables: Seq<Cable>, i: int, state: State, at: Point)
    requires
        0 <= i < cables.len(),
    ensures
        ({
            let after = cables.update(i, Cable { state, ..cables[i] });
            &&& cable_ends_at(after, at) == cable_ends_at(cables, at)
            &&& cables[i].end_point != at ==> on_cable_at(after, at) == on_cable_at(cables, at)
            &&& ends_apart(cables) ==> ends_apart(after)
            &&& ends_apart(cables) && cables[i].end_point == at ==> on_cable_at(after, at) == (state
                == State::On)
        }),
{
    let after = cables.update(i, Cable { state, ..cables[i] });
    assert forall|c: int| 0 <= c < cables.len() implies (#[trigger] after[c]).end_point
        == cables[c].end_point by {}
    if cable_ends_at(after, at) {
        let c = choose|c: int| 0 <= c < after.len() && (#[trigger] after[c]).end_point == at;
        assert(cables[c].end_point == at);
    }
    if cable_ends_at(cables, at) {
        let c = choose|c: int| 0 <= c < cables.len() && (#[trigger] cables[c]).end_point == at;
        assert(after[c].end_point == at);
    }
    if cables[i].end_point != at {
        if on_cable_at(after, at) {
            let c = choose|c: int|
                0 <= c < after.len() && (#[trigger] after[c]).end_point == at && after[c].state
                    == State::On;
            assert(cables[c].end_point == at && cables[c].state == State::On);
        }
        if on_cable_at(cables, at) {
            let c = choose|c: int|
                0 <= c < cables.len() && (#[trigger] cables[c]).end_point == at && cables[c].state
                    == State::On;
            assert(after[c].end_point == at && after[c].state == State::On);
        }
    }
    if ends_apart(cables) {
        assert forall|c1: int, c2: int| 0 <= c1 < c2 < after.len() implies (#[trigger] after[c1]).end_point
            != (#[trigger] after[c2]).end_point by {
            assert(cables[c1].end_point != cables[c2].end_point);
        }
        if cables[i].end_point == at {
            if on_cable_at(after, at) {
                let c = choose|c: int|
                    0 <= c < after.len() && (#[trigger] after[c]).end_point == at && after[c].state
                        == State::On;
                if c < i {
                    assert(cables[c].end_point != cables[i].end_point);
                } else if c > i {
                    assert(cables[i].end_point != cables[c].end_point);
                }
            }
            if state == State::On {
                assert(after[i].end_point == at && after[i].state == State::On);
            }
        }
    }
}

/// What one more cable does to the cables that end at a spot.
pub proof fn lemma_cables_after_push(cables: Seq<Cable>, cable: Cable, at: Point)
    ensures
        cable_ends_at(cables.push(cable), at) == (cable_ends_at(cables, at) || cable.end_point
            == at),
        on_cable_at(cables.push(cable), at) == (on_cable_at(cables, at) || (cable.end_point == at
            && cable.state == State::On)),
        ends_apart(cables) && !cable_ends_at(cables, cable.end_point) ==> ends_apart(
            cables.push(cable),
        ),
{
    let after = cables.push(cable);
    assert forall|c: int| 0 <= c < cables.len() implies #[trigger] after[c] == cables[c] by {}
    assert(after[cables.len() as int] == cable);
    if cable_ends_at(after, at) {
        let c = choose|c: int| 0 <= c < after.len() && (#[trigger] after[c]).end_point == at;
        if c < cables.len() {
            assert(cables[c].end_point == at);
        }
    }
    if cable_ends_at(cables, at) {
        let c = choose|c: int| 0 <= c < cables.len() && (#[trigger] cables[c]).end_point == at;
        assert(after[c].end_point == at);
    }
    if on_cable_at(after, at) {
        let c = choose|c: int|
            0 <= c < after.len() && (#[trigger] after[c]).end_point == at && after[c].state
                == State::On;
        if c < cables.len() {
            assert(cables[c].end_point == at && cables[c].state == State::On);
        }
    }
    if on_cable_at(cables, at) {
        let c = choose|c: int|
            0 <= c < cables.len() && (#[trigger] cables[c]).end_point == at && cables[c].state
                == State::On;
        assert(after[c].end_point == at && after[c].state == State::On);
    }
    if ends_apart(cables) && !cable_ends_at(cables, cable.end_point) {
        assert forall|c1: int, c2: int| 0 <= c1 < c2 < after.len() implies (#[trigger] after[c1]).end_point
            != (#[trigger] after[c2]).end_point by {
            if c2 < cables.len() {
                assert(cables[c1].end_point != cables[c2].end_point);
            } else {
                assert(cables[c1].end_point != cable.end_point);
            }
        }
    }
}

/// A cable that carries a high level to a spot is a cable that ends there.
pub proof fn lemma_on_cable_ends(cables: Seq<Cable>, at: Point)
    ensures
        on_cable_at(cables, at) ==> cable_ends_at(cables, at),
{
    if on_cable_at(cables, at) {
        let c = choose|c: int|
            0 <= c < cables.len() && (#[trigger] cables[c]).end_point == at && cables[c].state
                == State::On;
        assert(cables[c].end_point == at);
    }
}

/// A cable that ends on a pin which shares its spot with no other pin ends
/// on that pin's gate, and a cable that ends on a gate ends on one of its
/// pins.
pub proof fn lemma_ends_on_gate(gates: Seq<Gate>, cable: Cable, gate: int)
    ensures
        ends_on_gate(gates, cable, gate) ==> exists|pin: int|
            #![trigger is_input_pin(gates, gate, pin)]
            is_input_pin(gates, gate, pin) && gates[gate].spec_input_position(pin)
                == cable.end_point,
        forall|pin: int|
            #![trigger is_input_pin(gates, gate, pin)]
            is_input_pin(gates, gate, pin) && gates[gate].spec_input_position(pin)
                == cable.end_point && unshared(gates, cable.end_point) ==> ends_on_gate(
                gates,
                cable,
                gate,
            ),
{
    lemma_pin_at_finds_pins(gates, cable.end_point);
    if ends_on_gate(gates, cable, gate) {
        let (found, pin) = pin_at(gates, cable.end_point, true)->0;
        assert(is_input_pin(gates, gate, pin));
    }
    assert forall|pin: int|
        #![trigger is_input_pin(gates, gate, pin)]
        is_input_pin(gates, gate, pin) && gates[gate].spec_input_position(pin) == cable.end_point
            && unshared(gates, cable.end_point) implies ends_on_gate(gates, cable, gate) by {
        lemma_pin_at_own_spot(gates, gate, pin);
    }
}

/// A step that touches one input pin keeps a sound circuit sound.
///
/// The step may change the stored levels of gate `gate` and the cables that
/// end on its pin `pin`, which no other pin shares its spot with. It must
/// leave every other gate and every other pin's stored level and cables
/// alone, leave at most one cable on each spot, leave the pin's stored level
/// equal to the level of the cable on it, and leave its gate storing levels
/// exactly if a cable ends on it.
pub proof fn lemma_step_on_one_pin(before: CircuitView, after: CircuitView, gate: int, pin: int)
    requires
        before.sound(),
        is_input_pin(before.gates, gate, pin),
        unshared(before.gates, before.gates[gate].spec_input_position(pin)),
        same_shape(before.gates, after.gates),
        forall|g: int| 0 <= g < before.gates.len() && g != gate ==> after.gates[g] == before.gates[g],
        forall|p: int|
            0 <= p < before.gates[gate].inputs && p != pin ==> stored_level(after.gates[gate], p)
                == stored_level(before.gates[gate], p),
        after.gates[gate].input_values is Some <==> wired(after, gate),
        ends_apart(after.cables),
        forall|c: int|
            0 <= c < after.cables.len() ==> (#[trigger] after.cables[c]).end_point
                == before.gates[gate].spec_input_position(pin) || cable_ends_at(
                before.cables,
                after.cables[c].end_point,
            ),
        forall|at: Point|
            at != before.gates[gate].spec_input_position(pin) ==> #[trigger] cable_ends_at(
                after.cables,
                at,
            ) == cable_ends_at(before.cables, at),
        forall|at: Point|
            at != before.gates[gate].spec_input_position(pin) ==> #[trigger] on_cable_at(
                after.cables,
                at,
            ) == on_cable_at(before.cables, at),
        stored_level(after.gates[gate], pin) == on_cable_at(
            after.cables,
            before.gates[gate].spec_input_position(pin),
        ),
    ensures
        after.sound(),
{
    lemma_same_shape_pins(before.gates, after.gates);
    let spot = before.gates[gate].spec_input_position(pin);
    assert forall|g: int| 0 <= g < after.gates.len() implies (#[trigger] after.gates[g]).wf() by {
        assert(before.gates[g].wf());
    }
    assert forall|c: int| 0 <= c < after.cables.len() implies on_input_pin(
        after.gates,
        (#[trigger] after.cables[c]).end_point,
    ) && unshared(after.gates, after.cables[c].end_point) by {
        let end = after.cables[c].end_point;
        if end == spot {
            assert(is_input_pin(before.gates, gate, pin));
            assert(on_input_pin(before.gates, end));
        } else {
            let k = choose|k: int|
                0 <= k < before.cables.len() && (#[trigger] before.cables[k]).end_point == end;
            assert(on_input_pin(before.gates, before.cables[k].end_point));
            assert(unshared(before.gates, before.cables[k].end_point));
        }
    }
    assert forall|g: int, p: int|
        #![trigger is_input_pin(after.gates, g, p)]
        is_input_pin(after.gates, g, p) implies {
        &&& cable_ends_at(after.cables, after.gates[g].spec_input_position(p))
            ==> after.gates[g].input_values is Some
        &&& stored_level(after.gates[g], p) == on_cable_at(
            after.cables,
            after.gates[g].spec_input_position(p),
        )
    } by {
        assert(is_input_pin(before.gates, g, p));
        let at = after.gates[g].spec_input_position(p);
        assert(at == before.gates[g].spec_input_position(p));
        if at == spot {
            assert(g == gate && p == pin);
        } else {
            assert(cable_ends_at(after.cables, at) == cable_ends_at(before.cables, at));
            assert(on_cable_at(after.cables, at) == on_cable_at(before.cables, at));
            if g == gate {
                assert(p != pin);
            }
        }
        if g == gate && cable_ends_at(after.cables, at) {
            let c = choose|c: int|
                0 <= c < after.cables.len() && (#[trigger] after.cables[c]).end_point == at;
            assert(unshared(after.gates, after.cables[c].end_point));
            lemma_ends_on_gate(after.gates, after.cables[c], gate);
            assert(is_input_pin(after.gates, gate, p));
            assert(ends_on_gate(after.gates, after.cables[c], gate));
        }
    }
    assert forall|g: int|
        0 <= g < after.gates.len() && (#[trigger] after.gates[g]).inputs > 0
            && after.gates[g].input_values is Some implies wired(after, g) by {
        if g != gate {
            assert(before.gates[g].inputs > 0 && before.gates[g].input_values is Some);
            assert(wired(before, g));
            let c = choose|c: int|
                0 <= c < before.cables.len() && ends_on_gate(
                    before.gates,
                    #[trigger] before.cables[c],
                    g,
                );
            let end = before.cables[c].end_point;
            lemma_ends_on_gate(before.gates, before.cables[c], g);
            let p = choose|p: int|
                #![trigger is_input_pin(before.gates, g, p)]
                is_input_pin(before.gates, g, p) && before.gates[g].spec_input_position(p) == end;
            assert(is_input_pin(before.gates, g, p));
            assert(end != spot);
            assert(cable_ends_at(before.cables, end));
            assert(cable_ends_at(after.cables, end));
            let k = choose|k: int|
                0 <= k < after.cables.len() && (#[trigger] after.cables[k]).end_point == end;
            lemma_pin_at_same_shape(before.gates, after.gates, end, true, 0);
            assert(ends_on_gate(after.gates, after.cables[k], g));
        }
    }
}

/// The circuit with cable `i` taken out and nothing else changed.
pub open spec fn without_cable<'a>(view: CircuitView<'a>, i: int) -> CircuitView<'a> {
    CircuitView { cables: view.cables.remove(i), ..view }
}

/// Whether a cable other than cable `i` ends on gate `gate`.
pub open spec fn wired_besides(view: CircuitView, gate: int, i: int) -> bool {
    exists|k: int|
        0 <= k < view.cables.len() && k != i && ends_on_gate(
            view.gates,
            #[trigger] view.cables[k],
            gate,
        )
}

/// After cable `i` is gone, a gate is wired exactly if another cable ends on
/// it.
pub proof fn lemma_wired_after_remove(view: CircuitView, i: int, gate: int)
    requires
        0 <= i < view.cables.len(),
    ensures
        wired(without_cable(view, i), gate) == wired_besides(view, gate, i),
{
    let rest = without_cable(view, i);
    assert forall|c: int| 0 <= c < rest.cables.len() implies #[trigger] rest.cables[c]
        == view.cables[if c < i {
        c
    } else {
        c + 1
    }] by {}
    if wired(rest, gate) {
        let c = choose|c: int|
            0 <= c < rest.cables.len() && ends_on_gate(rest.gates, #[trigger] rest.cables[c], gate);
        let k = if c < i {
            c
        } else {
            c + 1
        };
        assert(ends_on_gate(view.gates, view.cables[k], gate));
    }
    if wired_besides(view, gate, i) {
        let k = choose|k: int|
            0 <= k < view.cables.len() && k != i && ends_on_gate(
                view.gates,
                #[trigger] view.cables[k],
                gate,
            );
        let c = if k < i {
            k
        } else {
            k - 1
        };
        assert(rest.cables[c] == view.cables[k]);
        assert(ends_on_gate(rest.gates, rest.cables[c], gate));
    }
}

/// In a sound circuit, a cable on another pin of a gate is another cable on
/// that gate than cable `i`, which ends on pin `pin`.
proof fn lemma_other_pin_keeps_wired(view: CircuitView, i: int, gate: int, pin: int, p: int)
    requires
        view.ends_unshared(),
        0 <= i < view.cables.len(),
        is_input_pin(view.gates, gate, pin),
        is_input_pin(view.gates, gate, p),
        p != pin,
        view.gates[gate].spec_input_position(pin) == view.cables[i].end_point,
        cable_ends_at(view.cables, view.gates[gate].spec_input_position(p)),
    ensures
        wired_besides(view, gate, i),
{
    let at = view.gates[gate].spec_input_position(p);
    let k = choose|k: int| 0 <= k < view.cables.len() && (#[trigger] view.cables[k]).end_point == at;
    assert(unshared(view.gates, view.cables[i].end_point));
    assert(unshared(view.gates, view.cables[k].end_point));
    lemma_ends_on_gate(view.gates, view.cables[k], gate);
    assert(ends_on_gate(view.gates, view.cables[k], gate));
}

/// In a sound circuit, a gate that a cable ends on stores levels.
proof fn lemma_wired_stores(view: CircuitView, gate: int, k: int)
    requires
        view.present(),
        0 <= k < view.cables.len(),
        ends_on_gate(view.gates, view.cables[k], gate),
    ensures
        view.gates[gate].input_values is Some,
{
    lemma_ends_on_gate(view.gates, view.cables[k], gate);
    let p = choose|p: int|
        #![trigger is_input_pin(view.gates, gate, p)]
        is_input_pin(view.gates, gate, p) && view.gates[gate].spec_input_position(p)
            == view.cables[k].end_point;
    assert(is_input_pin(view.gates, gate, p));
    assert(cable_ends_at(view.cables, view.gates[gate].spec_input_position(p)));
}

/// What removing cable `i` of a sound circuit leaves in its gate `gate`:
/// levels exactly if another cable ends on that gate, the other
/// pins' levels as they were, and a low level for the cable's own pin.
pub proof fn lemma_release_levels(view: CircuitView, i: int, gate: int, pin: int)
    requires
        view.sound(),
        0 <= i < view.cables.len(),
        pin_at(view.gates, view.cables[i].end_point, true) == Some((gate, pin)),
    ensures
        ({
            let changed = with_input_changed(view.gates[gate], pin, view.release_of(i));
            &&& changed.input_values is Some <==> wired(without_cable(view, i), gate)
            &&& forall|p: int|
                0 <= p < view.gates[gate].inputs && p != pin ==> stored_level(changed, p)
                    == stored_level(view.gates[gate], p)
            &&& !stored_level(changed, pin)
        }),
{
    let changed = with_input_changed(view.gates[gate], pin, view.release_of(i));
    let end = view.cables[i].end_point;
    lemma_pin_at_finds_pins(view.gates, end);
    lemma_wired_after_remove(view, i, gate);
    assert(view.gates[gate].wf());
    if wired_besides(view, gate, i) {
        let k = choose|k: int|
            0 <= k < view.cables.len() && k != i && ends_on_gate(
                view.gates,
                #[trigger] view.cables[k],
                gate,
            );
        lemma_wired_stores(view, gate, k);
    }
    if view.gates[gate].input_values is Some {
        lemma_with_bit(view.gates[gate].input_values->0, pin, false, pin);
    }
    assert forall|p: int| 0 <= p < view.gates[gate].inputs && p != pin implies stored_level(
        changed,
        p,
    ) == stored_level(view.gates[gate], p) by {
        assert(is_input_pin(view.gates, gate, p));
        if view.gates[gate].input_values is Some {
            lemma_with_bit(view.gates[gate].input_values->0, pin, false, p);
        }
        if stored_level(view.gates[gate], p) {
            let at = view.gates[gate].spec_input_position(p);
            lemma_on_cable_ends(view.cables, at);
            lemma_other_pin_keeps_wired(view, i, gate, pin, p);
        }
    }
}

/// Removing a cable keeps a sound circuit sound.
pub proof fn lemma_remove_cable_sound(view: CircuitView, i: int)
    requires
        view.sound(),
        0 <= i < view.cables.len(),
    ensures
        view.remove_cable(i).sound(),
{
    let after = view.remove_cable(i);
    let end = view.cables[i].end_point;
    assert(on_input_pin(view.gates, view.cables[i].end_point));
    assert(unshared(view.gates, view.cables[i].end_point));
    lemma_pin_at_finds_pins(view.gates, end);
    let (gate, pin) = pin_at(view.gates, end, true)->0;
    lemma_remove_cable_keeps_shape(view, i);
    lemma_release_levels(view, i, gate, pin);
    lemma_wired_same_shape(without_cable(view, i), after, gate);
    assert(after.gates == view.gates.update(
        gate,
        with_input_changed(view.gates[gate], pin, view.release_of(i)),
    ));
    lemma_cables_after_remove(view.cables, i, end);
    lemma_on_cable_ends(after.cables, end);
    assert forall|at: Point| at != end implies #[trigger] cable_ends_at(after.cables, at)
        == cable_ends_at(view.cables, at) by {
        lemma_cables_after_remove(view.cables, i, at);
    }
    assert forall|at: Point| at != end implies #[trigger] on_cable_at(after.cables, at)
        == on_cable_at(view.cables, at) by {
        lemma_cables_after_remove(view.cables, i, at);
    }
    assert forall|c: int| 0 <= c < after.cables.len() implies (#[trigger] after.cables[c]).end_point
        == end || cable_ends_at(view.cables, after.cables[c].end_point) by {
        let k = if c < i {
            c
        } else {
            c + 1
        };
        assert(after.cables[c] == view.cables[k]);
    }
    lemma_step_on_one_pin(view, after, gate, pin);
}

/// Removing doomed cables keeps a sound circuit sound.
pub proof fn lemma_remove_doomed_sound(view: CircuitView, victim: Option<Gate>, n: int)
    requires
        view.sound(),
    ensures
        view.remove_doomed(victim, n).sound(),
    decreases n,
{
    if n <= 0 || n > view.cables.len() {
    } else if doomed(view.gates, view.cables[n - 1], victim) {
        lemma_remove_cable_sound(view, n - 1);
        lemma_remove_doomed_sound(view.remove_cable(n - 1), victim, n - 1);
    } else {
        lemma_remove_doomed_sound(view, victim, n - 1);
    }
}

/// A step that changes neither the cables, nor where a pin sits, nor what an
/// input pin stores keeps a sound circuit sound.
pub proof fn lemma_same_levels_sound(before: CircuitView, after: CircuitView)
    requires
        before.sound(),
        after.wf(),
        same_shape(before.gates, after.gates),
        after.cables == before.cables,
        forall|gate: int, pin: int|
            #![trigger is_input_pin(before.gates, gate, pin)]
            is_input_pin(before.gates, gate, pin) ==> {
                &&& stored_level(after.gates[gate], pin) == stored_level(before.gates[gate], pin)
                &&& before.gates[gate].input_values is Some
                    <==> after.gates[gate].input_values is Some
            },
    ensures
        after.sound(),
{
    lemma_same_shape_pins(before.gates, after.gates);
    assert forall|g: int|
        0 <= g < after.gates.len() && (#[trigger] after.gates[g]).inputs > 0
            && after.gates[g].input_values is Some implies wired(after, g) by {
        assert(is_input_pin(before.gates, g, 0));
        assert(before.gates[g].inputs > 0 && before.gates[g].input_values is Some);
        lemma_wired_same_shape(before, after, g);
    }
    assert forall|c: int| 0 <= c < after.cables.len() implies on_input_pin(
        after.gates,
        (#[trigger] after.cables[c]).end_point,
    ) && unshared(after.gates, after.cables[c].end_point) by {
        assert(on_input_pin(before.gates, before.cables[c].end_point));
        assert(unshared(before.gates, before.cables[c].end_point));
    }
    assert forall|g: int, p: int|
        #![trigger is_input_pin(after.gates, g, p)]
        is_input_pin(after.gates, g, p) implies {
        &&& cable_ends_at(after.cables, after.gates[g].spec_input_position(p))
            ==> after.gates[g].input_values is Some
        &&& stored_level(after.gates[g], p) == on_cable_at(
            after.cables,
            after.gates[g].spec_input_position(p),
        )
    } by {
        assert(is_input_pin(before.gates, g, p));
        assert(after.gates[g].spec_input_position(p) == before.gates[g].spec_input_position(p));
    }
}

/// Dropping a wire on an input pin keeps a sound circuit sound, provided
/// that no other input pin sits on the same spot.
pub proof fn lemma_connect_sound(view: CircuitView, start: Point, on: bool, gate: int, pin: int)
    requires
        view.sound(),
        is_input_pin(view.gates, gate, pin),
        unshared(view.gates, view.gates[gate].spec_input_position(pin)),
    ensures
        view.connect(start, on, gate, pin).sound(),
{
    let target = view.gates[gate].spec_input_position(pin);
    lemma_index_of_edge_from(view.cables, start, target, 0);
    match index_of_edge_from(view.cables, start, target, 0) {
        Some(i) => {
            lemma_remove_cable_sound(view, i);
        },
        None => {
            if start != target && !cable_ends_at(view.cables, target) {
                let after = view.connect(start, on, gate, pin);
                let cable = Cable {
                    state: State::spec_from_level(on),
                    start_point: start,
                    end_point: target,
                };
                let changed = with_input_set(view.gates[gate], pin, on);
                assert(after.gates == view.gates.update(gate, changed));
                assert(after.cables == view.cables.push(cable));
                assert(view.gates[gate].wf());
                let mask = match view.gates[gate].input_values {
                    Some(mask) => mask,
                    None => 0,
                };
                assert forall|p: int| 0 <= p < view.gates[gate].inputs implies stored_level(
                    changed,
                    p,
                ) == (if p == pin {
                    on
                } else {
                    stored_level(view.gates[gate], p)
                }) by {
                    lemma_with_bit(mask, pin, on, p);
                    lemma_zero_mask(p);
                }
                lemma_cables_after_push(view.cables, cable, target);
                lemma_on_cable_ends(view.cables, target);
                assert forall|at: Point| at != target implies #[trigger] cable_ends_at(
                    after.cables,
                    at,
                ) == cable_ends_at(view.cables, at) by {
                    lemma_cables_after_push(view.cables, cable, at);
                }
                assert forall|at: Point| at != target implies #[trigger] on_cable_at(
                    after.cables,
                    at,
                ) == on_cable_at(view.cables, at) by {
                    lemma_cables_after_push(view.cables, cable, at);
                }
                assert forall|c: int| 0 <= c < after.cables.len() implies (
                #[trigger] after.cables[c]).end_point == target || cable_ends_at(
                    view.cables,
                    after.cables[c].end_point,
                ) by {
                    if c < view.cables.len() {
                        assert(after.cables[c] == view.cables[c]);
                    }
                }
                lemma_same_shape_pins(view.gates, after.gates);
                let last = view.cables.len() as int;
                assert(after.cables[last] == cable);
                assert(is_input_pin(after.gates, gate, pin));
                lemma_ends_on_gate(after.gates, after.cables[last], gate);
                assert(wired(after, gate));
                lemma_step_on_one_pin(view, after, gate, pin);
            }
        },
    }
}

/// Passing levels into cables `i` and up keeps a sound circuit sound.
pub proof fn lemma_propagate_from_sound(view: CircuitView, sources: Seq<Gate>, i: int)
    requires
        view.sound(),
        0 <= i,
    ensures
        view.propagate_from(sources, i).sound(),
    decreases view.cables.len() - i,
{
    if i < view.cables.len() {
        let cable = view.cables[i];
        let end = cable.end_point;
        let state = driven_state(sources, cable);
        let flipped = if state != cable.state {
            view.change_input_at(end, BitChange::Flip)
        } else {
            view
        };
        let next = CircuitView {
            cables: view.cables.update(i, Cable { state, ..cable }),
            ..flipped
        };
        assert(on_input_pin(view.gates, view.cables[i].end_point));
        assert(unshared(view.gates, view.cables[i].end_point));
        lemma_pin_at_finds_pins(view.gates, end);
        let (gate, pin) = pin_at(view.gates, end, true)->0;
        lemma_change_input_keeps_shape(view, end, BitChange::Flip);
        assert(view.gates[gate].wf());
        assert(cable_ends_at(view.cables, end));
        assert(view.gates[gate].input_values is Some);
        let mask = view.gates[gate].input_values->0;
        assert forall|p: int| 0 <= p < view.gates[gate].inputs implies stored_level(
            with_input_changed(view.gates[gate], pin, BitChange::Flip),
            p,
        ) == (if p == pin {
            !stored_level(view.gates[gate], p)
        } else {
            stored_level(view.gates[gate], p)
        }) by {
            lemma_with_bit_flipped(mask, pin, p);
        }
        lemma_cables_after_state(view.cables, i, state, end);
        lemma_cables_after_state(view.cables, i, cable.state, end);
        assert(view.cables.update(i, Cable { state: cable.state, ..cable }) =~= view.cables);
        assert(on_cable_at(view.cables, end) == (cable.state == State::On));
        assert(stored_level(view.gates[gate], pin) == (cable.state == State::On));
        assert forall|at: Point| at != end implies #[trigger] cable_ends_at(next.cables, at)
            == cable_ends_at(view.cables, at) by {
            lemma_cables_after_state(view.cables, i, state, at);
        }
        assert forall|at: Point| at != end implies #[trigger] on_cable_at(next.cables, at)
            == on_cable_at(view.cables, at) by {
            lemma_cables_after_state(view.cables, i, state, at);
        }
        assert forall|c: int| 0 <= c < next.cables.len() implies (#[trigger] next.cables[c]).end_point
            == end || cable_ends_at(view.cables, next.cables[c].end_point) by {
            assert(next.cables[c].end_point == view.cables[c].end_point);
        }
        lemma_pin_at_same_shape(view.gates, next.gates, end, true, 0);
        assert(ends_on_gate(next.gates, next.cables[i], gate));
        assert(wired(next, gate));
        lemma_step_on_one_pin(view, next, gate, pin);
        lemma_propagate_from_sound(next, sources, i + 1);
    }
}

/// Showing lamp levels changes sprites only.
pub proof fn lemma_refresh_lamps_keeps_levels(view: CircuitView)
    ensures
        view.refresh_lamps().cables == view.cables,
        same_shape(view.gates, view.refresh_lamps().gates),
        forall|g: int|
            0 <= g < view.gates.len() ==> (#[trigger] view.refresh_lamps().gates[g]).input_values
                == view.gates[g].input_values,
        view.refresh_lamps().lamps_show_levels(),
{
}

/// Showing lamp levels keeps a sound circuit sound.
pub proof fn lemma_refresh_lamps_sound(view: CircuitView)
    requires
        view.sound(),
    ensures
        view.refresh_lamps().sound(),
{
    let after = view.refresh_lamps();
    lemma_refresh_lamps_keeps_levels(view);
    assert forall|g: int| 0 <= g < after.gates.len() implies (#[trigger] after.gates[g]).wf() by {
        assert(view.gates[g].wf());
    }
    lemma_same_levels_sound(view, after);
}

/// Throwing a switch keeps a sound circuit sound.
pub proof fn lemma_toggle_switch_sound(view: CircuitView, idx: int)
    requires
        view.sound(),
        0 <= idx < view.gates.len(),
    ensures
        view.toggle_switch(idx).sound(),
{
    let after = view.toggle_switch(idx);
    assert(view.gates[idx].wf());
    assert forall|g: int| 0 <= g < after.gates.len() implies (#[trigger] after.gates[g]).wf() by {
        assert(view.gates[g].wf());
    }
    lemma_same_levels_sound(view, after);
}

/// Moving a gate keeps a sound circuit sound, provided that afterwards no
/// cable ends on a spot that two input pins share.
pub proof fn lemma_move_gate_sound(view: CircuitView, idx: int, position: Point)
    requires
        view.sound(),
        0 <= idx < view.gates.len(),
        view.move_gate(idx, position).ends_unshared(),
    ensures
        view.move_gate(idx, position).sound(),
{
    let after = view.move_gate(idx, position);
    assert forall|g: int| 0 <= g < after.gates.len() implies (#[trigger] after.gates[g]).wf() by {
        assert(view.gates[g].wf());
    }
    assert forall|g: int, p: int|
        #![trigger is_input_pin(after.gates, g, p)]
        #![trigger is_input_pin(view.gates, g, p)]
        is_input_pin(view.gates, g, p) == is_input_pin(after.gates, g, p) by {}
    assert forall|c: int| 0 <= c < view.cables.len() implies {
        let found = pin_at(view.gates, (#[trigger] view.cables[c]).end_point, true);
        let (gate, pin) = found->0;
        &&& found is Some
        &&& is_input_pin(view.gates, gate, pin)
        &&& view.gates[gate].spec_input_position(pin) == view.cables[c].end_point
        &&& after.cables[c].end_point == after.gates[gate].spec_input_position(pin)
        &&& after.cables[c].state == view.cables[c].state
    } by {
        assert(on_input_pin(view.gates, view.cables[c].end_point));
        lemma_pin_at_finds_pins(view.gates, view.cables[c].end_point);
    }
    assert forall|c: int| 0 <= c < after.cables.len() implies on_input_pin(
        after.gates,
        (#[trigger] after.cables[c]).end_point,
    ) by {
        let (gate, pin) = pin_at(view.gates, view.cables[c].end_point, true)->0;
        assert(is_input_pin(after.gates, gate, pin));
    }
    assert forall|c1: int, c2: int| 0 <= c1 < c2 < after.cables.len() implies (
    #[trigger] after.cables[c1]).end_point != (#[trigger] after.cables[c2]).end_point by {
        let (gate_a, pin_a) = pin_at(view.gates, view.cables[c1].end_point, true)->0;
        let (gate_b, pin_b) = pin_at(view.gates, view.cables[c2].end_point, true)->0;
        assert(is_input_pin(after.gates, gate_a, pin_a) && is_input_pin(after.gates, gate_b, pin_b));
        assert(unshared(after.gates, after.cables[c1].end_point));
        assert(view.cables[c1].end_point != view.cables[c2].end_point);
    }
    assert forall|g: int, p: int|
        #![trigger is_input_pin(after.gates, g, p)]
        is_input_pin(after.gates, g, p) implies {
        &&& cable_ends_at(after.cables, after.gates[g].spec_input_position(p))
            ==> after.gates[g].input_values is Some
        &&& stored_level(after.gates[g], p) == on_cable_at(
            after.cables,
            after.gates[g].spec_input_position(p),
        )
    } by {
        assert(is_input_pin(view.gates, g, p));
        let was = view.gates[g].spec_input_position(p);
        let now = after.gates[g].spec_input_position(p);
        if cable_ends_at(after.cables, now) {
            let c = choose|c: int|
                0 <= c < after.cables.len() && (#[trigger] after.cables[c]).end_point == now;
            let (gate_a, pin_a) = pin_at(view.gates, view.cables[c].end_point, true)->0;
            assert(is_input_pin(after.gates, gate_a, pin_a));
            assert(unshared(after.gates, after.cables[c].end_point));
            assert(view.cables[c].end_point == was);
            assert(cable_ends_at(view.cables, was));
        }
        if on_cable_at(after.cables, now) {
            let c = choose|c: int|
                0 <= c < after.cables.len() && (#[trigger] after.cables[c]).end_point == now
                    && after.cables[c].state == State::On;
            let (gate_a, pin_a) = pin_at(view.gates, view.cables[c].end_point, true)->0;
            assert(is_input_pin(after.gates, gate_a, pin_a));
            assert(unshared(after.gates, after.cables[c].end_point));
            assert(view.cables[c].end_point == was && view.cables[c].state == State::On);
            assert(on_cable_at(view.cables, was));
        }
        if on_cable_at(view.cables, was) {
            let c = choose|c: int|
                0 <= c < view.cables.len() && (#[trigger] view.cables[c]).end_point == was
                    && view.cables[c].state == State::On;
            assert(unshared(view.gates, view.cables[c].end_point));
            lemma_pin_at_own_spot(view.gates, g, p);
            assert(after.cables[c].end_point == now && after.cables[c].state == State::On);
        }
        assert(after.gates[g].input_values == view.gates[g].input_values);
    }
    assert forall|g: int|
        0 <= g < after.gates.len() && (#[trigger] after.gates[g]).inputs > 0
            && after.gates[g].input_values is Some implies wired(after, g) by {
        assert(view.gates[g].inputs > 0 && view.gates[g].input_values is Some);
        assert(wired(view, g));
        let c = choose|c: int|
            0 <= c < view.cables.len() && ends_on_gate(view.gates, #[trigger] view.cables[c], g);
        let (gate, pin) = pin_at(view.gates, view.cables[c].end_point, true)->0;
        assert(is_input_pin(after.gates, g, pin));
        assert(unshared(after.gates, after.cables[c].end_point));
        lemma_ends_on_gate(after.gates, after.cables[c], g);
        assert(ends_on_gate(after.gates, after.cables[c], g));
    }
}

/// After doomed cables among the first `n` are removed, the cables from `n`
/// on stand unchanged at the end, none before them is doomed, and the gates
/// keep their shape.
pub proof fn lemma_remove_doomed_leaves(view: CircuitView, victim: Option<Gate>, n: int)
    requires
        0 <= n <= view.cables.len(),
    ensures
        ({
            let left = view.remove_doomed(victim, n);
            let kept = view.cables.len() - n;
            &&& same_shape(view.gates, left.gates)
            &&& left.cables.len() >= kept
            &&& forall|k: int|
                0 <= k < kept ==> #[trigger] left.cables[left.cables.len() - kept + k]
                    == view.cables[n + k]
            &&& forall|c: int|
                0 <= c < left.cables.len() - kept ==> !doomed(
                    view.gates,
                    #[trigger] left.cables[c],
                    victim,
                )
        }),
    decreases n,
{
    let left = view.remove_doomed(victim, n);
    let kept = view.cables.len() - n;
    if n == 0 {
    } else if doomed(view.gates, view.cables[n - 1], victim) {
        let next = view.remove_cable(n - 1);
        lemma_remove_cable_keeps_shape(view, n - 1);
        lemma_remove_doomed_leaves(next, victim, n - 1);
        assert forall|k: int| 0 <= k < kept implies #[trigger] left.cables[left.cables.len() - kept
            + k] == view.cables[n + k] by {
            assert(next.cables[n - 1 + k] == view.cables[n + k]);
        }
        assert forall|c: int| 0 <= c < left.cables.len() - kept implies !doomed(
            view.gates,
            #[trigger] left.cables[c],
            victim,
        ) by {
            lemma_pin_at_same_shape(view.gates, next.gates, left.cables[c].start_point, false, 0);
            lemma_pin_at_same_shape(view.gates, next.gates, left.cables[c].end_point, true, 0);
        }
    } else {
        lemma_remove_doomed_leaves(view, victim, n - 1);
        assert forall|k: int| 0 <= k < kept implies #[trigger] left.cables[left.cables.len() - kept
            + k] == view.cables[n + k] by {
            assert(left.cables[left.cables.len() - (kept + 1) + (k + 1)] == view.cables[n - 1 + (k
                + 1)]);
        }
        assert forall|c: int| 0 <= c < left.cables.len() - kept implies !doomed(
            view.gates,
            #[trigger] left.cables[c],
            victim,
        ) by {
            if c == left.cables.len() - kept - 1 {
                assert(left.cables[left.cables.len() - (kept + 1) + 0] == view.cables[n - 1 + 0]);
            }
        }
    }
}

/// After a sweep every cable starts on an output pin and ends on an input
/// pin.
pub proof fn lemma_sweep_attached(view: CircuitView)
    ensures
        view.sweep().attached(),
{
    let swept = view.sweep();
    lemma_remove_doomed_leaves(view, None, view.cables.len() as int);
    assert forall|c: int| 0 <= c < swept.cables.len() implies on_output_pin(
        swept.gates,
        (#[trigger] swept.cables[c]).start_point,
    ) && on_input_pin(swept.gates, swept.cables[c].end_point) by {
        let cable = swept.cables[c];
        assert(!doomed(view.gates, cable, None));
        lemma_pin_at_same_shape(view.gates, swept.gates, cable.start_point, false, 0);
        lemma_pin_at_same_shape(view.gates, swept.gates, cable.end_point, true, 0);
        lemma_pin_at_finds_pins(swept.gates, cable.start_point);
        lemma_pin_at_finds_pins(swept.gates, cable.end_point);
    }
}

/// The circuit with gate `idx` taken out and nothing else changed.
pub open spec fn without_gate<'a>(view: CircuitView<'a>, idx: int) -> CircuitView<'a> {
    CircuitView { gates: view.gates.remove(idx), ..view }
}

/// Where gate `g` of a circuit stood before gate `idx` was taken out.
pub open spec fn before_removal(g: int, idx: int) -> int {
    if g < idx {
        g
    } else {
        g + 1
    }
}

/// Taking out a gate that no cable ends on leaves every cable on exactly
/// one input pin.
proof fn lemma_without_gate_ends(view: CircuitView, idx: int)
    requires
        view.wf(),
        view.ends_attached(),
        view.ends_unshared(),
        0 <= idx < view.gates.len(),
        !wired(view, idx),
    ensures
        without_gate(view, idx).wf(),
        without_gate(view, idx).ends_attached(),
        without_gate(view, idx).ends_unshared(),
{
    let after = without_gate(view, idx);
    assert forall|g: int| 0 <= g < after.gates.len() implies #[trigger] after.gates[g]
        == view.gates[before_removal(g, idx)] by {}
    assert forall|g: int| 0 <= g < after.gates.len() implies (#[trigger] after.gates[g]).wf() by {
        assert(view.gates[before_removal(g, idx)].wf());
    }
    assert forall|c: int| 0 <= c < after.cables.len() implies on_input_pin(
        after.gates,
        (#[trigger] after.cables[c]).end_point,
    ) && unshared(after.gates, after.cables[c].end_point) by {
        let end = after.cables[c].end_point;
        assert(on_input_pin(view.gates, view.cables[c].end_point));
        assert(unshared(view.gates, view.cables[c].end_point));
        let (gate, pin) = choose|gate: int, pin: int|
            #![trigger is_input_pin(view.gates, gate, pin)]
            is_input_pin(view.gates, gate, pin) && view.gates[gate].spec_input_position(pin) == end;
        lemma_ends_on_gate(view.gates, view.cables[c], gate);
        assert(ends_on_gate(view.gates, view.cables[c], gate));
        assert(gate != idx);
        let g = if gate < idx {
            gate
        } else {
            gate - 1
        };
        assert(after.gates[g] == view.gates[before_removal(g, idx)]);
        assert(is_input_pin(after.gates, g, pin));
        assert(after.gates[g].spec_input_position(pin) == end);
        assert forall|gate_a: int, pin_a: int, gate_b: int, pin_b: int|
            #![trigger is_input_pin(after.gates, gate_a, pin_a), is_input_pin(after.gates, gate_b, pin_b)]
            is_input_pin(after.gates, gate_a, pin_a) && is_input_pin(after.gates, gate_b, pin_b)
                && after.gates[gate_a].spec_input_position(pin_a) == end
                && after.gates[gate_b].spec_input_position(pin_b) == end implies gate_a == gate_b
            && pin_a == pin_b by {
            let kept_a = before_removal(gate_a, idx);
            let kept_b = before_removal(gate_b, idx);
            assert(is_input_pin(view.gates, kept_a, pin_a) && is_input_pin(view.gates, kept_b, pin_b));
        }
    }
}

/// Taking a gate that no cable ends on out of a sound circuit leaves a sound
/// circuit.
pub proof fn lemma_without_gate_sound(view: CircuitView, idx: int)
    requires
        view.sound(),
        0 <= idx < view.gates.len(),
        !wired(view, idx),
    ensures
        without_gate(view, idx).sound(),
{
    let after = without_gate(view, idx);
    lemma_without_gate_ends(view, idx);
    assert forall|g: int| 0 <= g < after.gates.len() implies #[trigger] after.gates[g]
        == view.gates[before_removal(g, idx)] by {}
    assert forall|g: int, p: int|
        #![trigger is_input_pin(after.gates, g, p)]
        is_input_pin(after.gates, g, p) implies {
        &&& cable_ends_at(after.cables, after.gates[g].spec_input_position(p))
            ==> after.gates[g].input_values is Some
        &&& stored_level(after.gates[g], p) == on_cable_at(
            after.cables,
            after.gates[g].spec_input_position(p),
        )
    } by {
        assert(after.gates[g] == view.gates[before_removal(g, idx)]);
        assert(is_input_pin(view.gates, before_removal(g, idx), p));
    }
    assert forall|g: int|
        0 <= g < after.gates.len() && (#[trigger] after.gates[g]).inputs > 0
            && after.gates[g].input_values is Some implies wired(after, g) by {
        let kept = before_removal(g, idx);
        assert(after.gates[g] == view.gates[kept]);
        assert(view.gates[kept].inputs > 0 && view.gates[kept].input_values is Some);
        assert(wired(view, kept));
        let c = choose|c: int|
            0 <= c < view.cables.len() && ends_on_gate(view.gates, #[trigger] view.cables[c], kept);
        lemma_ends_on_gate(view.gates, view.cables[c], kept);
        let p = choose|p: int|
            #![trigger is_input_pin(view.gates, kept, p)]
            is_input_pin(view.gates, kept, p) && view.gates[kept].spec_input_position(p)
                == view.cables[c].end_point;
        assert(is_input_pin(after.gates, g, p));
        assert(unshared(after.gates, after.cables[c].end_point));
        lemma_ends_on_gate(after.gates, after.cables[c], g);
        assert(ends_on_gate(after.gates, after.cables[c], g));
    }
}

/// After the cables that touch a gate are removed, no cable ends on it.
proof fn lemma_victim_unwired(view: CircuitView, idx: int)
    requires
        0 <= idx < view.gates.len(),
    ensures
        !wired(view.remove_doomed(Some(view.gates[idx]), view.cables.len() as int), idx),
{
    let victim = view.gates[idx];
    let swept = view.remove_doomed(Some(victim), view.cables.len() as int);
    lemma_remove_doomed_leaves(view, Some(victim), view.cables.len() as int);
    if wired(swept, idx) {
        let c = choose|c: int|
            0 <= c < swept.cables.len() && ends_on_gate(swept.gates, #[trigger] swept.cables[c], idx);
        lemma_ends_on_gate(swept.gates, swept.cables[c], idx);
        let p = choose|p: int|
            #![trigger is_input_pin(swept.gates, idx, p)]
            is_input_pin(swept.gates, idx, p) && swept.gates[idx].spec_input_position(p)
                == swept.cables[c].end_point;
        assert(is_input_pin(swept.gates, idx, p));
        assert(swept.gates[idx].position == victim.position);
        assert(!doomed(view.gates, swept.cables[c], Some(victim)));
        assert(victim.spec_input_positions()[p] == swept.cables[c].end_point);
        assert(false);
    }
}

/// Deleting a gate keeps a sound circuit sound.
pub proof fn lemma_delete_gate_sound(view: CircuitView, idx: int)
    requires
        view.sound(),
        0 <= idx < view.gates.len(),
    ensures
        view.delete_gate(idx).sound(),
{
    let victim = view.gates[idx];
    let swept = view.remove_doomed(Some(victim), view.cables.len() as int);
    lemma_remove_doomed_sound(view, Some(victim), view.cables.len() as int);
    lemma_remove_doomed_leaves(view, Some(victim), view.cables.len() as int);
    lemma_victim_unwired(view, idx);
    lemma_without_gate_sound(swept, idx);
    assert(view.delete_gate(idx) == without_gate(swept, idx));
}

/// Placing a gate that stores no input levels keeps a sound circuit sound,
/// provided that afterwards no cable ends on a spot that two input pins
/// share.
pub proof fn lemma_spawn_sound<'a>(view: CircuitView<'a>, gate: Gate<'a>)
    requires
        view.sound(),
        gate.wf(),
        gate.inputs > 0 ==> gate.input_values is None,
        view.spawn(gate).ends_unshared(),
    ensures
        view.spawn(gate).sound(),
{
    let after = view.spawn(gate);
    let added = view.gates.len() as int;
    assert forall|g: int| 0 <= g < after.gates.len() implies (#[trigger] after.gates[g]).wf() by {
        if g < added {
            assert(view.gates[g].wf());
        }
    }
    assert forall|c: int| 0 <= c < after.cables.len() implies on_input_pin(
        after.gates,
        (#[trigger] after.cables[c]).end_point,
    ) by {
        assert(on_input_pin(view.gates, view.cables[c].end_point));
        let (g, p) = choose|g: int, p: int|
            #![trigger is_input_pin(view.gates, g, p)]
            is_input_pin(view.gates, g, p) && view.gates[g].spec_input_position(p)
                == view.cables[c].end_point;
        assert(is_input_pin(after.gates, g, p));
    }
    assert forall|g: int, p: int|
        #![trigger is_input_pin(after.gates, g, p)]
        is_input_pin(after.gates, g, p) implies {
        &&& cable_ends_at(after.cables, after.gates[g].spec_input_position(p))
            ==> after.gates[g].input_values is Some
        &&& stored_level(after.gates[g], p) == on_cable_at(
            after.cables,
            after.gates[g].spec_input_position(p),
        )
    } by {
        if g < added {
            assert(is_input_pin(view.gates, g, p));
        } else {
            let at = after.gates[g].spec_input_position(p);
            lemma_on_cable_ends(after.cables, at);
            if cable_ends_at(after.cables, at) {
                let c = choose|c: int|
                    0 <= c < after.cables.len() && (#[trigger] after.cables[c]).end_point == at;
                assert(on_input_pin(view.gates, view.cables[c].end_point));
                assert(unshared(after.gates, after.cables[c].end_point));
                let (h, j) = choose|h: int, j: int|
                    #![trigger is_input_pin(view.gates, h, j)]
                    is_input_pin(view.gates, h, j) && view.gates[h].spec_input_position(j) == at;
                assert(is_input_pin(after.gates, h, j));
                assert(false);
            }
        }
    }
    assert forall|g: int|
        0 <= g < after.gates.len() && (#[trigger] after.gates[g]).inputs > 0
            && after.gates[g].input_values is Some implies wired(after, g) by {
        assert(g < added);
        assert(view.gates[g].inputs > 0 && view.gates[g].input_values is Some);
        assert(wired(view, g));
        let c = choose|c: int|
            0 <= c < view.cables.len() && ends_on_gate(view.gates, #[trigger] view.cables[c], g);
        lemma_ends_on_gate(view.gates, view.cables[c], g);
        let p = choose|p: int|
            #![trigger is_input_pin(view.gates, g, p)]
            is_input_pin(view.gates, g, p) && view.gates[g].spec_input_position(p)
                == view.cables[c].end_point;
        assert(is_input_pin(after.gates, g, p));
        assert(unshared(after.gates, after.cables[c].end_point));
        lemma_ends_on_gate(after.gates, after.cables[c], g);
        assert(ends_on_gate(after.gates, after.cables[c], g));
    }
}

/// Gates of the same shape have their output pins on the same spots.
pub proof fn lemma_same_shape_output_pins(before: Seq<Gate>, after: Seq<Gate>)
    requires
        same_shape(before, after),
    ensures
        forall|p: Point| #[trigger] on_output_pin(before, p) ==> on_output_pin(after, p),
{
    assert forall|p: Point| #[trigger] on_output_pin(before, p) implies on_output_pin(after, p) by {
        let (gate, pin) = choose|gate: int, pin: int|
            #![trigger is_output_pin(before, gate, pin)]
            is_output_pin(before, gate, pin) && before[gate].spec_output_position(pin) == p;
        assert(after[gate].outputs == before[gate].outputs);
        assert(after[gate].position == before[gate].position);
        assert(is_output_pin(after, gate, pin));
    }
}

/// A step that moves no cable end and reshapes no gate keeps every cable on
/// its pins.
pub proof fn lemma_attached_same_ends(before: CircuitView, after: CircuitView)
    requires
        before.attached(),
        same_shape(before.gates, after.gates),
        after.cables.len() == before.cables.len(),
        forall|c: int|
            0 <= c < before.cables.len() ==> (#[trigger] after.cables[c]).start_point
                == before.cables[c].start_point && after.cables[c].end_point
                == before.cables[c].end_point,
    ensures
        after.attached(),
{
    lemma_same_shape_pins(before.gates, after.gates);
    lemma_same_shape_output_pins(before.gates, after.gates);
    assert forall|c: int| 0 <= c < after.cables.len() implies on_output_pin(
        after.gates,
        (#[trigger] after.cables[c]).start_point,
    ) && on_input_pin(after.gates, after.cables[c].end_point) by {
        assert(on_output_pin(before.gates, before.cables[c].start_point));
        assert(on_input_pin(before.gates, before.cables[c].end_point));
    }
}

/// Moving a gate keeps every cable on its pins.
pub proof fn lemma_move_gate_attached(view: CircuitView, idx: int, position: Point)
    requires
        view.attached(),
        0 <= idx < view.gates.len(),
    ensures
        view.move_gate(idx, position).attached(),
{
    let after = view.move_gate(idx, position);
    assert forall|c: int| 0 <= c < after.cables.len() implies on_output_pin(
        after.gates,
        (#[trigger] after.cables[c]).start_point,
    ) && on_input_pin(after.gates, after.cables[c].end_point) by {
        let cable = view.cables[c];
        assert(on_output_pin(view.gates, cable.start_point));
        assert(on_input_pin(view.gates, cable.end_point));
        lemma_pin_at_finds_pins(view.gates, cable.start_point);
        lemma_pin_at_finds_pins(view.gates, cable.end_point);
        let (gate_a, pin_a) = pin_at(view.gates, cable.start_point, false)->0;
        let (gate_b, pin_b) = pin_at(view.gates, cable.end_point, true)->0;
        assert(is_output_pin(after.gates, gate_a, pin_a));
        assert(is_input_pin(after.gates, gate_b, pin_b));
        assert(after.cables[c] == rebound(view.gates, after.gates, cable));
    }
}

/// After a tick no cable is orphaned: every cable starts on an output pin and
/// ends on an input pin of a gate of the circuit.
pub proof fn lemma_tick_attached(view: CircuitView, moved: Option<(int, Point)>)
    ensures
        view.tick(moved).attached(),
{
    let swept = view.sweep();
    let lit = swept.propagate();
    let passed = lit.refresh_lamps();
    lemma_sweep_attached(view);
    lemma_propagate_from_cables(swept, swept.gates, 0);
    lemma_attached_same_ends(swept, lit);
    lemma_refresh_lamps_keeps_levels(lit);
    lemma_attached_same_ends(lit, passed);
    match moved {
        Some((idx, position)) => {
            if 0 <= idx < passed.gates.len() {
                lemma_move_gate_attached(passed, idx, position);
            }
        },
        None => {},
    }
}

/// After a tick every lamp shows its stored level, with or without a cable.
pub proof fn lemma_tick_lamps(view: CircuitView, moved: Option<(int, Point)>)
    ensures
        view.tick(moved).lamps_show_levels(),
{
    let lit = view.sweep().propagate();
    lemma_refresh_lamps_keeps_levels(lit);
}

/// A tick keeps a sound circuit sound, provided that afterwards no cable ends
/// on a spot that two input pins share. In particular at most one cable still
/// ends on any input pin, and every input pin still stores the level of its
/// cable.
pub proof fn lemma_tick_sound(view: CircuitView, moved: Option<(int, Point)>)
    requires
        view.sound(),
        view.tick(moved).ends_unshared(),
    ensures
        view.tick(moved).sound(),
{
    let swept = view.sweep();
    let lit = swept.propagate();
    let passed = lit.refresh_lamps();
    lemma_remove_doomed_sound(view, None, view.cables.len() as int);
    lemma_propagate_from_sound(swept, swept.gates, 0);
    lemma_refresh_lamps_sound(lit);
    match moved {
        Some((idx, position)) => {
            if 0 <= idx < passed.gates.len() {
                lemma_move_gate_sound(passed, idx, position);
            }
        },
        None => {},
    }
}

/// In a sound circuit, the level stored for an input pin is the level of the
/// cable that ends on it.
pub proof fn lemma_stored_level_is_cable_level(view: CircuitView, gate: int, pin: int, c: int)
    requires
        view.sound(),
        is_input_pin(view.gates, gate, pin),
        0 <= c < view.cables.len(),
        view.cables[c].end_point == view.gates[gate].spec_input_position(pin),
    ensures
        view.gates[gate].input_values is Some,
        bit_is_set(view.gates[gate].input_values->0, pin) == view.cables[c].state.spec_is_on(),
{
    let at = view.gates[gate].spec_input_position(pin);
    assert(cable_ends_at(view.cables, at));
    lemma_cables_after_state(view.cables, c, view.cables[c].state, at);
    assert(view.cables.update(c, Cable { state: view.cables[c].state, ..view.cables[c] })
        =~= view.cables);
}

/// In a sound circuit a gate with input pins stores levels exactly while a
/// cable ends on one of them.
pub proof fn lemma_stores_levels_iff_wired(view: CircuitView, gate: int)
    requires
        view.sound(),
        0 <= gate < view.gates.len(),
        view.gates[gate].inputs > 0,
    ensures
        view.gates[gate].input_values is Some <==> wired(view, gate),
{
    if wired(view, gate) {
        let k = choose|k: int|
            0 <= k < view.cables.len() && ends_on_gate(view.gates, #[trigger] view.cables[k], gate);
        lemma_wired_stores(view, gate, k);
    }
}

/// Wiring a free input pin and then wiring the same two pins again, with
/// whatever level, gives the circuit back: the cable is gone and its gate
/// stores what it stored before, also where it stored nothing.
pub proof fn lemma_connect_twice_restores(
    view: CircuitView,
    start: Point,
    on: bool,
    again: bool,
    gate: int,
    pin: int,
)
    requires
        view.sound(),
        is_input_pin(view.gates, gate, pin),
        unshared(view.gates, view.gates[gate].spec_input_position(pin)),
        start != view.gates[gate].spec_input_position(pin),
        !cable_ends_at(view.cables, view.gates[gate].spec_input_position(pin)),
    ensures
        view.connect(start, on, gate, pin).connect(start, again, gate, pin) == view,
{
    let target = view.gates[gate].spec_input_position(pin);
    lemma_stores_levels_iff_wired(view, gate);
    lemma_on_cable_ends(view.cables, target);
    assert(!stored_level(view.gates[gate], pin));
    lemma_connect_twice_gives_back(view, start, on, again, gate, pin);
}

/// Wiring a free input pin and then wiring the same two pins again gives the
/// circuit back. This asks of the circuit only what it needs: that no other
/// input pin sits on the pin's spot, that the pin stores a low level, and
/// that its gate stores levels exactly if a cable ends on it.
pub proof fn lemma_connect_twice_gives_back(
    view: CircuitView,
    start: Point,
    on: bool,
    again: bool,
    gate: int,
    pin: int,
)
    requires
        view.gates[gate].wf(),
        is_input_pin(view.gates, gate, pin),
        unshared(view.gates, view.gates[gate].spec_input_position(pin)),
        start != view.gates[gate].spec_input_position(pin),
        !cable_ends_at(view.cables, view.gates[gate].spec_input_position(pin)),
        !stored_level(view.gates[gate], pin),
        view.gates[gate].input_values is Some <==> wired(view, gate),
    ensures
        view.connect(start, on, gate, pin).connect(start, again, gate, pin) == view,
{
    let target = view.gates[gate].spec_input_position(pin);
    let cable = Cable { state: State::spec_from_level(on), start_point: start, end_point: target };
    lemma_index_of_edge_from(view.cables, start, target, 0);
    if let Some(i) = index_of_edge_from(view.cables, start, target, 0) {
        assert(view.cables[i].end_point == target);
    }
    let first = view.connect(start, on, gate, pin);
    assert(first.cables == view.cables.push(cable));
    assert(first.gates == view.gates.update(gate, with_input_set(view.gates[gate], pin, on)));
    lemma_same_shape_pins(view.gates, first.gates);
    assert(first.gates[gate].spec_input_position(pin) == target);
    lemma_index_of_edge_from(first.cables, start, target, 0);
    let last = view.cables.len() as int;
    assert(first.cables[last] == cable);
    match index_of_edge_from(first.cables, start, target, 0) {
        Some(i) => {
            if i < last {
                assert(first.cables[i] == view.cables[i]);
                assert(view.cables[i].end_point == target);
            }
        },
        None => {},
    }
    assert(index_of_edge_from(first.cables, start, target, 0) == Some(last));
    assert(is_input_pin(first.gates, gate, pin));
    assert(unshared(first.gates, target));
    lemma_pin_at_own_spot(first.gates, gate, pin);
    let rest = without_cable(first, last);
    assert(rest.cables =~= view.cables);
    lemma_wired_same_shape(view, rest, gate);
    let second = first.connect(start, again, gate, pin);
    assert(second == first.remove_cable(last));
    assert(second.cables =~= view.cables);
    match view.gates[gate].input_values {
        Some(mask) => {
            lemma_bit_round_trip(mask, pin);
            lemma_bit_round_trip(with_bit(mask, pin, false), pin);
            assert(first.release_of(last) == BitChange::Clear);
        },
        None => {
            assert(first.release_of(last) == BitChange::Forget);
        },
    }
    assert(second.gates =~= view.gates);
}

/// The circuit without gates and cables is sound.
pub proof fn lemma_empty_sound()
    ensures
        CircuitView::empty().sound(),
        CircuitView::empty().attached(),
{
}

/// Every event keeps a sound circuit sound, provided that afterwards no
/// cable ends on a spot that two input pins share.
pub proof fn lemma_handle_sound(editor: EditorView, event: Event, mouse_x: int, mouse_y: int)
    requires
        editor.circuit.sound(),
        editor.handle(event, mouse_x, mouse_y).circuit.ends_unshared(),
    ensures
        editor.handle(event, mouse_x, mouse_y).circuit.sound(),
{
    let view = editor.circuit;
    match event {
        Event::LeftDown => {
            if editor.in_palette_band(mouse_y) {
                let found = first_hit(
                    mouse_x,
                    mouse_y,
                    spec_palette_positions(editor.canvas_height as int),
                    SPRITE_WIDTH as int,
                    SPRITE_HEIGHT as int,
                );
                if let Some(item) = found {
                    let gate = spec_palette_gate(item, Point::spec_new(mouse_x, mouse_y));
                    assert(gate.wf());
                    lemma_spawn_sound(view, gate);
                }
            }
        },
        Event::LeftUp => {
            lemma_first_pin_hit_from(
                mouse_x,
                mouse_y,
                true,
                view.gates,
                PIN_REACH as int,
                PIN_REACH as int,
                0,
            );
            match first_pin_hit(
                mouse_x,
                mouse_y,
                true,
                view.gates,
                PIN_REACH as int,
                PIN_REACH as int,
            ) {
                Some((gate, pin)) => {
                    if let Some(wire) = editor.wire {
                        assert(is_input_pin(view.gates, gate, pin));
                        lemma_connect_keeps_sound(view, wire.start, wire.on, gate, pin);
                    }
                },
                None => {},
            }
        },
        Event::RightDown => {
            lemma_first_hit_from(
                mouse_x,
                mouse_y,
                spec_positions(view.gates),
                SPRITE_WIDTH as int,
                SPRITE_HEIGHT as int,
                0,
            );
            if let Some(idx) = editor.gate_under(mouse_x, mouse_y) {
                lemma_delete_gate_sound(view, idx);
            }
        },
        Event::MiddleUp => {
            lemma_empty_sound();
        },
        Event::ToggleKey => {
            lemma_first_hit_from(
                mouse_x,
                mouse_y,
                spec_positions(view.gates),
                SPRITE_WIDTH as int,
                SPRITE_HEIGHT as int,
                0,
            );
            if let Some(idx) = editor.gate_under(mouse_x, mouse_y) {
                lemma_toggle_switch_sound(view, idx);
            }
        },
        Event::Quit => {},
        Event::Other => {},
    }
}

/// Dropping a wire on an input pin keeps a sound circuit sound, provided
/// that afterwards no cable ends on a spot that two input pins share.
pub proof fn lemma_connect_keeps_sound(
    view: CircuitView,
    start: Point,
    on: bool,
    gate: int,
    pin: int,
)
    requires
        view.sound(),
        is_input_pin(view.gates, gate, pin),
        view.connect(start, on, gate, pin).ends_unshared(),
    ensures
        view.connect(start, on, gate, pin).sound(),
{
    let target = view.gates[gate].spec_input_position(pin);
    let after = view.connect(start, on, gate, pin);
    lemma_index_of_edge_from(view.cables, start, target, 0);
    match index_of_edge_from(view.cables, start, target, 0) {
        Some(i) => {
            lemma_remove_cable_sound(view, i);
        },
        None => {
            if start != target && !cable_ends_at(view.cables, target) {
                let last = view.cables.len() as int;
                assert(after.cables[last].end_point == target);
                assert(unshared(after.gates, after.cables[last].end_point));
                assert(same_shape(after.gates, view.gates));
                lemma_same_shape_pins(after.gates, view.gates);
                lemma_connect_sound(view, start, on, gate, pin);
            }
        },
    }
}

/// After a tick of the editor every cable sits on its pins and every lamp
/// shows its stored level. Provided that
/// afterwards no cable ends on a spot that two input pins share, input pins
/// that had one cable at most still have, and a sound circuit is still sound.
pub proof fn lemma_editor_tick(editor: EditorView, mouse_x: int, mouse_y: int)
    ensures
        editor.tick(mouse_x, mouse_y).circuit.attached(),
        editor.tick(mouse_x, mouse_y).circuit.lamps_show_levels(),
        editor.circuit.single_driver() && editor.tick(mouse_x, mouse_y).circuit.ends_unshared()
            ==> editor.tick(mouse_x, mouse_y).circuit.single_driver(),
        editor.circuit.sound() && editor.tick(mouse_x, mouse_y).circuit.ends_unshared()
            ==> editor.tick(mouse_x, mouse_y).circuit.sound(),
{
    let moved = spec_dragged(
        editor.drag,
        editor.circuit.gates.len() as int,
        Point::spec_new(mouse_x, mouse_y),
    );
    lemma_tick_attached(editor.circuit, moved);
    lemma_tick_lamps(editor.circuit, moved);
    if editor.circuit.single_driver() && editor.tick(mouse_x, mouse_y).circuit.ends_unshared() {
        lemma_tick_single_driver(editor.circuit, moved);
    }
    if editor.circuit.sound() && editor.tick(mouse_x, mouse_y).circuit.ends_unshared() {
        lemma_tick_sound(editor.circuit, moved);
    }
}

/// Dropping a wire never puts a second cable on an input pin, whatever else
/// holds of the circuit.
pub proof fn lemma_connect_single_driver(
    view: CircuitView,
    start: Point,
    on: bool,
    gate: int,
    pin: int,
)
    requires
        view.single_driver(),
    ensures
        view.connect(start, on, gate, pin).single_driver(),
{
    let target = view.gates[gate].spec_input_position(pin);
    lemma_index_of_edge_from(view.cables, start, target, 0);
    match index_of_edge_from(view.cables, start, target, 0) {
        Some(i) => {
            lemma_remove_cable_keeps_shape(view, i);
            lemma_cables_after_remove(view.cables, i, target);
        },
        None => {
            let cable = Cable {
                state: State::spec_from_level(on),
                start_point: start,
                end_point: target,
            };
            lemma_cables_after_push(view.cables, cable, target);
        },
    }
}

/// Removing doomed cables never puts a second cable on an input pin.
pub proof fn lemma_remove_doomed_single_driver(view: CircuitView, victim: Option<Gate>, n: int)
    requires
        view.single_driver(),
    ensures
        view.remove_doomed(victim, n).single_driver(),
    decreases n,
{
    if n <= 0 || n > view.cables.len() {
    } else if doomed(view.gates, view.cables[n - 1], victim) {
        let end = view.cables[n - 1].end_point;
        lemma_remove_cable_keeps_shape(view, n - 1);
        lemma_cables_after_remove(view.cables, n - 1, end);
        lemma_remove_doomed_single_driver(view.remove_cable(n - 1), victim, n - 1);
    } else {
        lemma_remove_doomed_single_driver(view, victim, n - 1);
    }
}

/// Moving a gate never puts a second cable on an input pin, provided that
/// every cable ends on an input pin and that afterwards no cable ends on a
/// spot that two input pins share.
pub proof fn lemma_move_gate_single_driver(view: CircuitView, idx: int, position: Point)
    requires
        view.single_driver(),
        view.ends_attached(),
        0 <= idx < view.gates.len(),
        view.move_gate(idx, position).ends_unshared(),
    ensures
        view.move_gate(idx, position).single_driver(),
{
    let after = view.move_gate(idx, position);
    assert forall|c1: int, c2: int| 0 <= c1 < c2 < after.cables.len() implies (
    #[trigger] after.cables[c1]).end_point != (#[trigger] after.cables[c2]).end_point by {
        assert(on_input_pin(view.gates, view.cables[c1].end_point));
        assert(on_input_pin(view.gates, view.cables[c2].end_point));
        lemma_pin_at_finds_pins(view.gates, view.cables[c1].end_point);
        lemma_pin_at_finds_pins(view.gates, view.cables[c2].end_point);
        let (gate_a, pin_a) = pin_at(view.gates, view.cables[c1].end_point, true)->0;
        let (gate_b, pin_b) = pin_at(view.gates, view.cables[c2].end_point, true)->0;
        assert(is_input_pin(after.gates, gate_a, pin_a) && is_input_pin(after.gates, gate_b, pin_b));
        assert(after.cables[c1].end_point == after.gates[gate_a].spec_input_position(pin_a));
        assert(after.cables[c2].end_point == after.gates[gate_b].spec_input_position(pin_b));
        assert(unshared(after.gates, after.cables[c1].end_point));
        assert(view.cables[c1].end_point != view.cables[c2].end_point);
    }
}

/// A tick never puts a second cable on an input pin, provided that
/// afterwards no cable ends on a spot that two input pins share. Nothing
/// else is asked of the circuit.
pub proof fn lemma_tick_single_driver(view: CircuitView, moved: Option<(int, Point)>)
    requires
        view.single_driver(),
        view.tick(moved).ends_unshared(),
    ensures
        view.tick(moved).single_driver(),
{
    let swept = view.sweep();
    let lit = swept.propagate();
    let passed = lit.refresh_lamps();
    lemma_remove_doomed_single_driver(view, None, view.cables.len() as int);
    lemma_propagate_from_cables(swept, swept.gates, 0);
    assert forall|c1: int, c2: int| 0 <= c1 < c2 < lit.cables.len() implies (
    #[trigger] lit.cables[c1]).end_point != (#[trigger] lit.cables[c2]).end_point by {
        assert(swept.cables[c1].end_point != swept.cables[c2].end_point);
    }
    lemma_refresh_lamps_keeps_levels(lit);
    match moved {
        Some((idx, position)) => {
            if 0 <= idx < passed.gates.len() {
                lemma_tick_attached(view, None);
                lemma_move_gate_single_driver(passed, idx, position);
            }
        },
        None => {},
    }
}

/// No event puts a second cable on an input pin, whatever else holds of the
/// circuit.
pub proof fn lemma_handle_single_driver(
    editor: EditorView,
    event: Event,
    mouse_x: int,
    mouse_y: int,
)
    requires
        editor.circuit.single_driver(),
    ensures
        editor.handle(event, mouse_x, mouse_y).circuit.single_driver(),
{
    let view = editor.circuit;
    match event {
        Event::LeftUp => {
            match first_pin_hit(
                mouse_x,
                mouse_y,
                true,
                view.gates,
                PIN_REACH as int,
                PIN_REACH as int,
            ) {
                Some((gate, pin)) => {
                    if let Some(wire) = editor.wire {
                        lemma_connect_single_driver(view, wire.start, wire.on, gate, pin);
                    }
                },
                None => {},
            }
        },
        Event::RightDown => {
            if let Some(idx) = editor.gate_under(mouse_x, mouse_y) {
                lemma_remove_doomed_single_driver(
                    view,
                    Some(view.gates[idx]),
                    view.cables.len() as int,
                );
            }
        },
        _ => {},
    }
}

/// Dropping a wire never adds a cable from a spot to itself.
pub proof fn lemma_connect_adds_no_loop(
    view: CircuitView,
    start: Point,
    on: bool,
    gate: int,
    pin: int,
)
    requires
        forall|c: int|
            0 <= c < view.cables.len() ==> (#[trigger] view.cables[c]).start_point
                != view.cables[c].end_point,
    ensures
        forall|c: int|
            0 <= c < view.connect(start, on, gate, pin).cables.len() ==> (#[trigger] view.connect(
                start,
                on,
                gate,
                pin,
            ).cables[c]).start_point != view.connect(start, on, gate, pin).cables[c].end_point,
{
    let target = view.gates[gate].spec_input_position(pin);
    let after = view.connect(start, on, gate, pin);
    lemma_index_of_edge_from(view.cables, start, target, 0);
    match index_of_edge_from(view.cables, start, target, 0) {
        Some(i) => {
            lemma_remove_cable_keeps_shape(view, i);
            assert forall|c: int| 0 <= c < after.cables.len() implies (#[trigger] after.cables[c]).start_point
                != after.cables[c].end_point by {
                let k = if c < i {
                    c
                } else {
                    c + 1
                };
                assert(after.cables[c] == view.cables[k]);
            }
        },
        None => {
            assert forall|c: int| 0 <= c < after.cables.len() implies (#[trigger] after.cables[c]).start_point
                != after.cables[c].end_point by {
                if c < view.cables.len() {
                    assert(after.cables[c] == view.cables[c]);
                }
            }
        },
    }
}

/// The circuit after cable `i` has taken the level that `sources` drives
/// into it: one step of a pass.
pub open spec fn pass_step<'a>(view: CircuitView<'a>, sources: Seq<Gate<'a>>, i: int) -> CircuitView<
    'a,
> {
    let cable = view.cables[i];
    let state = driven_state(sources, cable);
    let flipped = if state != cable.state {
        view.change_input_at(cable.end_point, BitChange::Flip)
    } else {
        view
    };
    CircuitView { cables: view.cables.update(i, Cable { state, ..cable }), ..flipped }
}

/// One step of a pass keeps stored levels in agreement with the cables.
proof fn lemma_pass_step_agrees(view: CircuitView, sources: Seq<Gate>, i: int)
    requires
        view.passable(),
        0 <= i < view.cables.len(),
    ensures
        pass_step(view, sources, i).passable(),
{
    let next = pass_step(view, sources, i);
    let cable = view.cables[i];
    let end = cable.end_point;
    let state = driven_state(sources, cable);
    lemma_change_input_keeps_shape(view, end, BitChange::Flip);
    lemma_same_shape_pins(view.gates, next.gates);
    lemma_pin_at_finds_pins(view.gates, end);
    lemma_cables_after_state(view.cables, i, state, end);
    assert forall|g: int| 0 <= g < next.gates.len() implies (#[trigger] next.gates[g]).wf() by {
        assert(view.gates[g].wf());
    }
    assert forall|c: int| 0 <= c < next.cables.len() implies unshared(
        next.gates,
        (#[trigger] next.cables[c]).end_point,
    ) by {
        assert(unshared(view.gates, view.cables[c].end_point));
    }
    assert forall|g: int, p: int, c: int|
        #![trigger is_input_pin(next.gates, g, p), next.cables[c]]
        is_input_pin(next.gates, g, p) && 0 <= c < next.cables.len() && next.cables[c].end_point
            == next.gates[g].spec_input_position(p)
            && next.gates[g].input_values is Some implies stored_level(next.gates[g], p)
        == next.cables[c].state.spec_is_on() by {
        assert(is_input_pin(view.gates, g, p));
        assert(view.gates[g].wf());
        assert(view.cables[c].end_point == view.gates[g].spec_input_position(p));
        assert(view.gates[g].input_values is Some);
        let mask = view.gates[g].input_values->0;
        if c == i {
            assert(unshared(view.gates, view.cables[i].end_point));
            lemma_pin_at_own_spot(view.gates, g, p);
            lemma_with_bit_flipped(mask, p, p);
        } else {
            assert(next.cables[c] == view.cables[c]);
            if c < i {
                assert(view.cables[c].end_point != view.cables[i].end_point);
            } else {
                assert(view.cables[i].end_point != view.cables[c].end_point);
            }
            if let Some((h, j)) = pin_at(view.gates, end, true) {
                if h == g {
                    assert(j != p);
                    lemma_with_bit_flipped(mask, j, p);
                }
            }
        }
    }
}

/// A pass over cables `i` and up keeps stored levels in agreement with the
/// cables.
pub proof fn lemma_propagate_from_agrees(view: CircuitView, sources: Seq<Gate>, i: int)
    requires
        view.passable(),
        0 <= i,
    ensures
        view.propagate_from(sources, i).passable(),
    decreases view.cables.len() - i,
{
    if i < view.cables.len() {
        lemma_pass_step_agrees(view, sources, i);
        lemma_propagate_from_agrees(pass_step(view, sources, i), sources, i + 1);
    }
}

/// After any pass of levels that starts with stored levels in agreement,
/// every cable carries the level that its output pin drove at the pass, and
/// every input pin of a gate that stores levels stores the level of the cable
/// that ends on it. Nothing else is asked of the circuit than that no two
/// cables ended on one spot and no cable on a spot that two input pins share.
pub proof fn lemma_propagate_agrees(view: CircuitView)
    requires
        view.passable(),
    ensures
        view.propagate().passable(),
        view.propagate().cables.len() == view.cables.len(),
        forall|c: int|
            0 <= c < view.cables.len() ==> (#[trigger] view.propagate().cables[c]).state
                == driven_state(view.gates, view.cables[c]),
{
    lemma_propagate_from_agrees(view, view.gates, 0);
    lemma_propagate_from_cables(view, view.gates, 0);
}

/// Removing a cable keeps stored levels in agreement with the cables.
pub proof fn lemma_remove_cable_agrees(view: CircuitView, i: int)
    requires
        view.passable(),
        0 <= i < view.cables.len(),
    ensures
        view.remove_cable(i).passable(),
{
    let after = view.remove_cable(i);
    let end = view.cables[i].end_point;
    lemma_remove_cable_keeps_shape(view, i);
    lemma_same_shape_pins(view.gates, after.gates);
    lemma_pin_at_finds_pins(view.gates, end);
    lemma_cables_after_remove(view.cables, i, end);
    assert forall|c: int| 0 <= c < after.cables.len() implies #[trigger] after.cables[c]
        == view.cables[if c < i {
        c
    } else {
        c + 1
    }] by {}
    assert forall|g: int| 0 <= g < after.gates.len() implies (#[trigger] after.gates[g]).wf() by {
        assert(view.gates[g].wf());
    }
    assert forall|c: int| 0 <= c < after.cables.len() implies unshared(
        after.gates,
        (#[trigger] after.cables[c]).end_point,
    ) by {
        let k = if c < i {
            c
        } else {
            c + 1
        };
        assert(unshared(view.gates, view.cables[k].end_point));
    }
    assert forall|g: int, p: int, c: int|
        #![trigger is_input_pin(after.gates, g, p), after.cables[c]]
        is_input_pin(after.gates, g, p) && 0 <= c < after.cables.len()
            && after.cables[c].end_point == after.gates[g].spec_input_position(p)
            && after.gates[g].input_values is Some implies stored_level(after.gates[g], p)
        == after.cables[c].state.spec_is_on() by {
        let k = if c < i {
            c
        } else {
            c + 1
        };
        assert(is_input_pin(view.gates, g, p));
        assert(view.gates[g].wf());
        assert(view.cables[k].end_point == view.gates[g].spec_input_position(p));
        assert(view.gates[g].input_values is Some);
        if k < i {
            assert(view.cables[k].end_point != view.cables[i].end_point);
        } else {
            assert(view.cables[i].end_point != view.cables[k].end_point);
        }
        if let Some((h, j)) = pin_at(view.gates, end, true) {
            if h == g {
                assert(j != p);
                lemma_with_bit(view.gates[g].input_values->0, j, false, p);
            }
        }
    }
}

/// Removing doomed cables keeps stored levels in agreement with the cables.
pub proof fn lemma_remove_doomed_agrees(view: CircuitView, victim: Option<Gate>, n: int)
    requires
        view.passable(),
    ensures
        view.remove_doomed(victim, n).passable(),
    decreases n,
{
    if n <= 0 || n > view.cables.len() {
    } else if doomed(view.gates, view.cables[n - 1], victim) {
        lemma_remove_cable_agrees(view, n - 1);
        lemma_remove_doomed_agrees(view.remove_cable(n - 1), victim, n - 1);
    } else {
        lemma_remove_doomed_agrees(view, victim, n - 1);
    }
}

/// Moving a gate keeps stored levels in agreement with the cables, provided
/// that every cable ends on an input pin and that afterwards no cable ends on
/// a spot that two input pins share.
pub proof fn lemma_move_gate_agrees(view: CircuitView, idx: int, position: Point)
    requires
        view.passable(),
        view.ends_attached(),
        0 <= idx < view.gates.len(),
        view.move_gate(idx, position).ends_unshared(),
    ensures
        view.move_gate(idx, position).passable(),
{
    let after = view.move_gate(idx, position);
    lemma_move_gate_single_driver(view, idx, position);
    assert forall|g: int| 0 <= g < after.gates.len() implies (#[trigger] after.gates[g]).wf() by {
        assert(view.gates[g].wf());
    }
    assert forall|g: int, p: int|
        #![trigger is_input_pin(after.gates, g, p)]
        #![trigger is_input_pin(view.gates, g, p)]
        is_input_pin(view.gates, g, p) == is_input_pin(after.gates, g, p) by {}
    assert forall|g: int, p: int, c: int|
        #![trigger is_input_pin(after.gates, g, p), after.cables[c]]
        is_input_pin(after.gates, g, p) && 0 <= c < after.cables.len()
            && after.cables[c].end_point == after.gates[g].spec_input_position(p)
            && after.gates[g].input_values is Some implies stored_level(after.gates[g], p)
        == after.cables[c].state.spec_is_on() by {
        assert(on_input_pin(view.gates, view.cables[c].end_point));
        lemma_pin_at_finds_pins(view.gates, view.cables[c].end_point);
        let (h, j) = pin_at(view.gates, view.cables[c].end_point, true)->0;
        assert(is_input_pin(after.gates, h, j));
        assert(after.cables[c].end_point == after.gates[h].spec_input_position(j));
        assert(unshared(after.gates, after.cables[c].end_point));
        assert(h == g && j == p);
        assert(is_input_pin(view.gates, g, p));
        assert(after.gates[g].input_values == view.gates[g].input_values);
        assert(after.cables[c].state == view.cables[c].state);
    }
}

/// A tick keeps stored levels in agreement with the cables, provided that
/// afterwards no cable ends on a spot that two input pins share.
pub proof fn lemma_tick_agrees(view: CircuitView, moved: Option<(int, Point)>)
    requires
        view.passable(),
        view.tick(moved).ends_unshared(),
    ensures
        view.tick(moved).passable(),
{
    let swept = view.sweep();
    let lit = swept.propagate();
    let passed = lit.refresh_lamps();
    lemma_remove_doomed_agrees(view, None, view.cables.len() as int);
    lemma_propagate_agrees(swept);
    lemma_refresh_lamps_keeps_levels(lit);
    lemma_same_shape_pins(lit.gates, passed.gates);
    assert forall|g: int| 0 <= g < passed.gates.len() implies (#[trigger] passed.gates[g]).wf() by {
        assert(lit.gates[g].wf());
    }
    assert forall|c: int| 0 <= c < passed.cables.len() implies unshared(
        passed.gates,
        (#[trigger] passed.cables[c]).end_point,
    ) by {
        assert(unshared(lit.gates, lit.cables[c].end_point));
    }
    assert forall|g: int, p: int, c: int|
        #![trigger is_input_pin(passed.gates, g, p), passed.cables[c]]
        is_input_pin(passed.gates, g, p) && 0 <= c < passed.cables.len()
            && passed.cables[c].end_point == passed.gates[g].spec_input_position(p)
            && passed.gates[g].input_values is Some implies stored_level(passed.gates[g], p)
        == passed.cables[c].state.spec_is_on() by {
        assert(is_input_pin(lit.gates, g, p));
        assert(lit.cables[c].end_point == lit.gates[g].spec_input_position(p));
    }
    assert(passed.passable());
    match moved {
        Some((idx, position)) => {
            if 0 <= idx < passed.gates.len() {
                lemma_tick_attached(view, None);
                lemma_move_gate_agrees(passed, idx, position);
            }
        },
        None => {},
    }
}

/// A sound circuit is one that a pass of levels may start from.
pub proof fn lemma_sound_is_passable(view: CircuitView)
    requires
        view.sound(),
    ensures
        view.passable(),
{
    assert forall|g: int, p: int, c: int|
        #![trigger is_input_pin(view.gates, g, p), view.cables[c]]
        is_input_pin(view.gates, g, p) && 0 <= c < view.cables.len() && view.cables[c].end_point
            == view.gates[g].spec_input_position(p)
            && view.gates[g].input_values is Some implies stored_level(view.gates[g], p)
        == view.cables[c].state.spec_is_on() by {
        lemma_stored_level_is_cable_level(view, g, p, c);
    }
}

/// Wiring a free input pin that stores a low level and then wiring the same
/// two pins again leaves the cables as they were and the pin low again,
/// provided that no other input pin sits on the same spot. Nothing else is
/// asked of the circuit.
pub proof fn lemma_connect_twice_keeps_level(
    view: CircuitView,
    start: Point,
    on: bool,
    again: bool,
    gate: int,
    pin: int,
)
    requires
        view.gates[gate].wf(),
        is_input_pin(view.gates, gate, pin),
        unshared(view.gates, view.gates[gate].spec_input_position(pin)),
        start != view.gates[gate].spec_input_position(pin),
        !cable_ends_at(view.cables, view.gates[gate].spec_input_position(pin)),
        !stored_level(view.gates[gate], pin),
    ensures
        view.connect(start, on, gate, pin).connect(start, again, gate, pin).cables == view.cables,
        stored_level(view.connect(start, on, gate, pin).gates[gate], pin) == on,
        !stored_level(
            view.connect(start, on, gate, pin).connect(start, again, gate, pin).gates[gate],
            pin,
        ),
{
    let target = view.gates[gate].spec_input_position(pin);
    let cable = Cable { state: State::spec_from_level(on), start_point: start, end_point: target };
    lemma_index_of_edge_from(view.cables, start, target, 0);
    if let Some(i) = index_of_edge_from(view.cables, start, target, 0) {
        assert(view.cables[i].end_point == target);
    }
    let first = view.connect(start, on, gate, pin);
    assert(first.cables == view.cables.push(cable));
    assert(first.gates == view.gates.update(gate, with_input_set(view.gates[gate], pin, on)));
    let mask = match view.gates[gate].input_values {
        Some(mask) => mask,
        None => 0,
    };
    lemma_with_bit(mask, pin, on, pin);
    lemma_same_shape_pins(view.gates, first.gates);
    lemma_index_of_edge_from(first.cables, start, target, 0);
    let last = view.cables.len() as int;
    assert(first.cables[last] == cable);
    match index_of_edge_from(first.cables, start, target, 0) {
        Some(i) => {
            if i < last {
                assert(first.cables[i] == view.cables[i]);
                assert(view.cables[i].end_point == target);
            }
        },
        None => {},
    }
    assert(index_of_edge_from(first.cables, start, target, 0) == Some(last));
    assert(is_input_pin(first.gates, gate, pin));
    assert(unshared(first.gates, target));
    lemma_pin_at_own_spot(first.gates, gate, pin);
    let second = first.connect(start, again, gate, pin);
    assert(second == first.remove_cable(last));
    assert(second.cables =~= view.cables);
    lemma_with_bit(with_bit(mask, pin, on), pin, false, pin);
}

} // verus!
