//! The circuit: gates and cables, and the edits and passes that keep cable
//! ends, cable levels and stored input levels in step.

use crate::bits::{flip_bit, set_bit};
use crate::cable::{Cable, State};
use crate::drawing::pins_of;
use crate::gate::{Gate, GateType, Texture};
use crate::geometry::Point;
use crate::invariants::{
    lemma_connect_keeps_sound, lemma_connect_single_driver, lemma_delete_gate_sound,
    lemma_empty_sound, lemma_propagate_agrees, lemma_remove_doomed_single_driver,
    lemma_tick_agrees, lemma_tick_single_driver,
    lemma_move_gate_attached, lemma_move_gate_sound, lemma_propagate_from_sound,
    lemma_refresh_lamps_sound, lemma_remove_cable_sound, lemma_remove_doomed_sound,
    lemma_spawn_sound, lemma_sweep_attached, lemma_tick_attached, lemma_tick_lamps,
    lemma_tick_sound,
    lemma_toggle_switch_sound,
};
use crate::model::{
    cable_ends_at, driven_state, ends_on_gate, index_of_edge_from, index_of_point_from,
    lemma_index_of_point_contains, lemma_index_of_point_from, lemma_pin_at_from,
    lemma_remove_doomed_keeps_shape, pin_at, pin_at_from, pin_points, rebound, refreshed,
    toggled, wired, with_input_changed, with_input_set, BitChange, CircuitView,
};
use vstd::prelude::*;

verus! {

/// The end of `cable` on the given side: its end point among inputs, its
/// start point among outputs.
pub open spec fn cable_end(cable: Cable, is_input: bool) -> Point {
    if is_input {
        cable.end_point
    } else {
        cable.start_point
    }
}

/// `found` names the same pin as `pin`, or both name none.
pub open spec fn bound_as(found: Option<(usize, usize)>, pin: Option<(int, int)>) -> bool {
    match found {
        Some((gate, index)) => pin == Some((gate as int, index as int)),
        None => pin is None,
    }
}

/// The move that a tick makes, over unbounded indices.
pub open spec fn spec_moved(moved: Option<(usize, Point)>) -> Option<(int, Point)> {
    match moved {
        Some((idx, position)) => Some((idx as int, position)),
        None => None,
    }
}

/// The gates and cables on the canvas.
pub struct Circuit<'a> {
    pub gates: Vec<Gate<'a>>,
    pub cables: Vec<Cable>,
}

impl<'a> View for Circuit<'a> {
    type V = CircuitView<'a>;

    open spec fn view(&self) -> CircuitView<'a> {
        CircuitView { gates: self.gates@, cables: self.cables@ }
    }
}

fn index_of_point(points: &Vec<Point>, p: Point) -> (found: Option<usize>)
    ensures
        found is Some <==> index_of_point_from(points@, p, 0) is Some,
        found matches Some(i) ==> index_of_point_from(points@, p, 0) == Some(i as int),
{
    let mut i: usize = 0;
    while i < points.len()
        invariant
            i <= points@.len(),
            index_of_point_from(points@, p, 0) == index_of_point_from(points@, p, i as int),
        decreases points@.len() - i,
    {
        if points[i] == p {
            return Some(i);
        }
        i += 1;
    }
    None
}

impl<'a> Circuit<'a> {
    /// Every gate is well formed.
    pub open spec fn wf(&self) -> bool {
        self@.wf()
    }

    /// Whether every gate is well formed: whether `wf` holds.
    pub fn is_well_formed(&self) -> (ok: bool)
        ensures
            ok == self.wf(),
    {
        let mut g: usize = 0;
        while g < self.gates.len()
            invariant
                g <= self.gates@.len(),
                forall|i: int| 0 <= i < g ==> (#[trigger] self@.gates[i]).wf(),
            decreases self.gates@.len() - g,
        {
            if !self.gates[g].is_well_formed() {
                assert(!self@.gates[g as int].wf());
                return false;
            }
            g += 1;
        }
        true
    }

    /// The empty circuit.
    pub fn new() -> (circuit: Self)
        ensures
            circuit@ == CircuitView::empty(),
            circuit.wf(),
            circuit@.sound(),
    {
        proof {
            lemma_empty_sound();
        }
        let circuit = Circuit { gates: Vec::new(), cables: Vec::new() };
        assert(circuit@.gates =~= Seq::empty());
        assert(circuit@.cables =~= Seq::empty());
        circuit
    }

    /// The pin that a cable end at `p` belongs to: the first gate, and its
    /// first pin on the given side, that sits at `p`.
    pub fn pin_at(&self, p: Point, is_input: bool) -> (found: Option<(usize, usize)>)
        requires
            self.wf(),
        ensures
            found is Some <==> pin_at(self@.gates, p, is_input) is Some,
            found matches Some((gate, pin)) ==> {
                &&& pin_at(self@.gates, p, is_input) == Some((gate as int, pin as int))
                &&& gate < self@.gates.len()
                &&& pin < pins_of(self@.gates[gate as int], is_input).len()
            },
    {
        let mut g: usize = 0;
        while g < self.gates.len()
            invariant
                g <= self.gates@.len(),
                self.wf(),
                pin_at(self@.gates, p, is_input) == pin_at_from(
                    self@.gates,
                    p,
                    is_input,
                    g as int,
                ),
            decreases self.gates@.len() - g,
        {
            let pins = if is_input {
                self.gates[g].input_positions()
            } else {
                self.gates[g].output_positions()
            };
            match index_of_point(&pins, p) {
                Some(pin) => {
                    proof {
                        lemma_index_of_point_from(pins@, p, 0);
                    }
                    return Some((g, pin));
                },
                None => {},
            }
            g += 1;
        }
        None
    }

    /// Where the pins on the given side of all gates sit, gate by gate and
    /// top to bottom within each gate.
    pub fn pin_points(&self, is_input: bool) -> (points: Vec<Point>)
        requires
            self.wf(),
        ensures
            points@ == pin_points(self@.gates, is_input, self@.gates.len() as int),
    {
        let mut points: Vec<Point> = Vec::new();
        let mut g: usize = 0;
        while g < self.gates.len()
            invariant
                g <= self.gates@.len(),
                self.wf(),
                points@ == pin_points(self@.gates, is_input, g as int),
            decreases self.gates@.len() - g,
        {
            let mut pins = if is_input {
                self.gates[g].input_positions()
            } else {
                self.gates[g].output_positions()
            };
            points.append(&mut pins);
            g += 1;
        }
        points
    }

    /// Changes the stored level of the input pin at `p`, if there is one.
    fn change_input_at(&mut self, p: Point, change: BitChange)
        requires
            old(self).wf(),
        ensures
            final(self)@ == old(self)@.change_input_at(p, change),
            final(self).wf(),
    {
        match self.pin_at(p, true) {
            Some((gate, pin)) => {
                match self.gates[gate].input_values {
                    Some(mask) => {
                        let changed = match change {
                            BitChange::Clear => Some(set_bit(mask, pin, false)),
                            BitChange::Flip => Some(flip_bit(mask, pin)),
                            BitChange::Forget => None,
                        };
                        self.gates[gate].input_values = changed;
                    },
                    None => {},
                }
                assert(self.gates@ =~= old(self).gates@.update(
                    gate as int,
                    with_input_changed(old(self).gates@[gate as int], pin as int, change),
                ));
            },
            None => {},
        }
    }

    /// Whether some cable ends on an input pin of gate `gate`.
    fn is_wired(&self, gate: usize) -> (found: bool)
        requires
            self.wf(),
        ensures
            found == wired(self@, gate as int),
    {
        let mut c: usize = 0;
        while c < self.cables.len()
            invariant
                c <= self.cables@.len(),
                self.wf(),
                forall|k: int|
                    0 <= k < c ==> !ends_on_gate(self@.gates, #[trigger] self@.cables[k], gate as int),
            decreases self.cables@.len() - c,
        {
            match self.pin_at(self.cables[c].end_point, true) {
                Some((found, _)) => {
                    if found == gate {
                        assert(ends_on_gate(self@.gates, self@.cables[c as int], gate as int));
                        return true;
                    }
                },
                None => {},
            }
            c += 1;
        }
        false
    }

    /// Removes cable `i`. The input pin that the cable ended on goes low; a
    /// gate that no cable ends on any more stores no levels, as before its
    /// first cable.
    pub fn remove_cable(&mut self, i: usize)
        requires
            old(self).wf(),
            i < old(self)@.cables.len(),
        ensures
            final(self)@ == old(self)@.remove_cable(i as int),
            final(self).wf(),
            old(self)@.sound() ==> final(self)@.sound(),
    {
        proof {
            if self@.sound() {
                lemma_remove_cable_sound(self@, i as int);
            }
        }
        let end_point = self.cables[i].end_point;
        let found = self.pin_at(end_point, true);
        self.cables.remove(i);
        let ghost rest = self@;
        assert(rest == (CircuitView { cables: old(self)@.cables.remove(i as int), ..old(self)@ }));
        match found {
            Some((gate, _)) => {
                let change = if self.is_wired(gate) {
                    BitChange::Clear
                } else {
                    BitChange::Forget
                };
                self.change_input_at(end_point, change);
            },
            None => {},
        }
    }

    /// Index of the first cable that joins `start` to `end`.
    fn index_of_edge(&self, start: Point, end: Point) -> (found: Option<usize>)
        ensures
            found is Some <==> index_of_edge_from(self@.cables, start, end, 0) is Some,
            found matches Some(i) ==> {
                &&& index_of_edge_from(self@.cables, start, end, 0) == Some(i as int)
                &&& i < self@.cables.len()
            },
    {
        let edge = Cable::new(true, start, end);
        let mut i: usize = 0;
        while i < self.cables.len()
            invariant
                i <= self.cables@.len(),
                edge.start_point == start,
                edge.end_point == end,
                index_of_edge_from(self@.cables, start, end, 0) == index_of_edge_from(
                    self@.cables,
                    start,
                    end,
                    i as int,
                ),
            decreases self.cables@.len() - i,
        {
            if self.cables[i].same_edge(&edge) {
                return Some(i);
            }
            i += 1;
        }
        None
    }

    /// Whether some cable ends at `p`.
    fn any_cable_ends_at(&self, p: Point) -> (found: bool)
        ensures
            found == cable_ends_at(self@.cables, p),
    {
        let mut i: usize = 0;
        while i < self.cables.len()
            invariant
                i <= self.cables@.len(),
                forall|c: int| 0 <= c < i ==> (#[trigger] self@.cables[c]).end_point != p,
            decreases self.cables@.len() - i,
        {
            if self.cables[i].end_point == p {
                return true;
            }
            i += 1;
        }
        false
    }

    /// Removes the doomed cables, last first: with a gate given, those that
    /// touch it; with none given, those that have lost a pin.
    fn remove_doomed(&mut self, victim: Option<Gate<'a>>)
        requires
            old(self).wf(),
            victim matches Some(gate) ==> gate.wf(),
        ensures
            final(self)@ == old(self)@.remove_doomed(victim, old(self)@.cables.len() as int),
            final(self).wf(),
    {
        let mut n: usize = self.cables.len();
        while n > 0
            invariant
                n <= self.cables@.len(),
                self.wf(),
                victim matches Some(gate) ==> gate.wf(),
                self@.remove_doomed(victim, n as int) == old(self)@.remove_doomed(
                    victim,
                    old(self)@.cables.len() as int,
                ),
            decreases n,
        {
            let cable = self.cables[n - 1];
            let remove = match victim {
                Some(gate) => {
                    let ins = gate.input_positions();
                    let outs = gate.output_positions();
                    proof {
                        lemma_index_of_point_contains(ins@, cable.end_point);
                        lemma_index_of_point_contains(outs@, cable.start_point);
                    }
                    index_of_point(&ins, cable.end_point).is_some() || index_of_point(
                        &outs,
                        cable.start_point,
                    ).is_some()
                },
                None => self.pin_at(cable.start_point, false).is_none() || self.pin_at(
                    cable.end_point,
                    true,
                ).is_none(),
            };
            if remove {
                self.remove_cable(n - 1);
            }
            n -= 1;
        }
    }

    /// Places one more gate, after the others.
    pub fn spawn(&mut self, gate: Gate<'a>)
        requires
            old(self).wf(),
            gate.wf(),
        ensures
            final(self)@ == old(self)@.spawn(gate),
            final(self).wf(),
            old(self)@.sound() && final(self)@.ends_unshared() && (gate.inputs > 0
                ==> gate.input_values is None) ==> final(self)@.sound(),
    {
        proof {
            if self@.sound() && self@.spawn(gate).ends_unshared() && (gate.inputs > 0
                ==> gate.input_values is None) {
                lemma_spawn_sound(self@, gate);
            }
        }
        self.gates.push(gate);
        assert forall|g: int| 0 <= g < self@.gates.len() implies (#[trigger] self@.gates[g]).wf() by {
            if g < old(self)@.gates.len() {
                assert(old(self)@.gates[g].wf());
            }
        }
    }

    /// Drops a wire that carries `on` from `start` on input pin `pin` of gate
    /// `gate`.
    ///
    /// Where a cable already joins the two points, the first such cable is
    /// removed as `remove_cable` removes it, so that wiring a free pin and
    /// wiring it again gives back what was stored. Otherwise, where the two
    /// points differ and no cable ends on the pin, a cable is added and the
    /// pin's stored level becomes `on`. Otherwise nothing changes.
    pub fn connect(&mut self, start: Point, on: bool, gate: usize, pin: usize)
        requires
            old(self).wf(),
            gate < old(self)@.gates.len(),
            pin < old(self)@.gates[gate as int].inputs,
        ensures
            final(self)@ == old(self)@.connect(start, on, gate as int, pin as int),
            final(self).wf(),
            old(self)@.single_driver() ==> final(self)@.single_driver(),
            old(self)@.sound() && final(self)@.ends_unshared() ==> final(self)@.sound(),
    {
        proof {
            if self@.single_driver() {
                lemma_connect_single_driver(self@, start, on, gate as int, pin as int);
            }
            if self@.sound() && self@.connect(start, on, gate as int, pin as int).ends_unshared() {
                lemma_connect_keeps_sound(
                    self@,
                    start,
                    on,
                    gate as int,
                    pin as int,
                );
            }
        }
        let pins = self.gates[gate].input_positions();
        let target = pins[pin];
        match self.index_of_edge(start, target) {
            Some(i) => {
                self.remove_cable(i);
            },
            None => {
                if start != target && !self.any_cable_ends_at(target) {
                    let mask = match self.gates[gate].input_values {
                        Some(mask) => mask,
                        None => 0,
                    };
                    self.gates[gate].input_values = Some(set_bit(mask, pin, on));
                    self.cables.push(Cable::new(on, start, target));
                    assert(self.gates@ =~= old(self).gates@.update(
                        gate as int,
                        with_input_set(old(self).gates@[gate as int], pin as int, on),
                    ));
                }
            },
        }
    }

    /// Removes gate `idx` and the cables that touch one of its pins, each as
    /// `remove_cable` removes it.
    pub fn delete_gate(&mut self, idx: usize)
        requires
            old(self).wf(),
            idx < old(self)@.gates.len(),
        ensures
            final(self)@ == old(self)@.delete_gate(idx as int),
            final(self).wf(),
            old(self)@.single_driver() ==> final(self)@.single_driver(),
            old(self)@.sound() ==> final(self)@.sound(),
    {
        proof {
            if self@.single_driver() {
                lemma_remove_doomed_single_driver(
                    self@,
                    Some(self@.gates[idx as int]),
                    self@.cables.len() as int,
                );
            }
            if self@.sound() {
                lemma_delete_gate_sound(self@, idx as int);
            }
        }
        let victim = self.gates[idx];
        self.remove_doomed(Some(victim));
        proof {
            lemma_remove_doomed_keeps_shape(
                old(self)@,
                Some(victim),
                old(self)@.cables.len() as int,
            );
        }
        self.gates.remove(idx);
    }

    /// Removes every gate and every cable.
    pub fn clear(&mut self)
        ensures
            final(self)@ == CircuitView::empty(),
            final(self).wf(),
            final(self)@.sound(),
    {
        proof {
            lemma_empty_sound();
        }
        self.gates.clear();
        self.cables.clear();
        assert(self@.gates =~= Seq::empty());
        assert(self@.cables =~= Seq::empty());
    }

    /// Throws gate `idx` if it is a switch: it then stores, and shows, the
    /// opposite of the level it drove. Any other gate is left alone.
    pub fn toggle_switch(&mut self, idx: usize)
        requires
            old(self).wf(),
            idx < old(self)@.gates.len(),
        ensures
            final(self)@ == old(self)@.toggle_switch(idx as int),
            final(self).wf(),
            old(self)@.sound() ==> final(self)@.sound(),
    {
        proof {
            if self@.sound() {
                lemma_toggle_switch_sound(self@, idx as int);
            }
        }
        let gate = self.gates[idx];
        if gate.gatetype == GateType::Switch {
            let levels = gate.output_is_on();
            if levels[0] {
                self.gates[idx].input_values = Some(0);
                self.gates[idx].texture = Texture::SwitchOff;
            } else {
                self.gates[idx].input_values = Some(1);
                self.gates[idx].texture = Texture::SwitchOn;
            }
        }
        assert(self.gates@ =~= old(self).gates@.update(
            idx as int,
            toggled(old(self).gates@[idx as int]),
        ));
    }

    /// Removes the cables that have lost a pin.
    pub fn sweep(&mut self)
        requires
            old(self).wf(),
        ensures
            final(self)@ == old(self)@.sweep(),
            final(self).wf(),
            final(self)@.attached(),
            old(self)@.sound() ==> final(self)@.sound(),
    {
        proof {
            lemma_sweep_attached(self@);
            if self@.sound() {
                lemma_remove_doomed_sound(self@, None, self@.cables.len() as int);
            }
        }
        self.remove_doomed(None);
    }

    /// For every cable, the level that its output pin drives now.
    fn driven_states(&self) -> (states: Vec<State>)
        requires
            self.wf(),
        ensures
            states@.len() == self@.cables.len(),
            forall|i: int|
                0 <= i < states@.len() ==> states@[i] == driven_state(
                    self@.gates,
                    #[trigger] self@.cables[i],
                ),
    {
        let mut states: Vec<State> = Vec::new();
        let mut i: usize = 0;
        while i < self.cables.len()
            invariant
                i <= self.cables@.len(),
                self.wf(),
                states@.len() == i,
                forall|k: int|
                    0 <= k < i ==> states@[k] == driven_state(
                        self@.gates,
                        #[trigger] self@.cables[k],
                    ),
            decreases self.cables@.len() - i,
        {
            let cable = self.cables[i];
            let state = match self.pin_at(cable.start_point, false) {
                Some((gate, pin)) => {
                    let levels = self.gates[gate].output_is_on();
                    State::from_level(levels[pin])
                },
                None => cable.state,
            };
            states.push(state);
            i += 1;
        }
        states
    }

    /// One pass of levels through the cables: every cable takes the level
    /// that its output pin drove before the pass, and every input pin whose
    /// cable changed inverts its stored level.
    pub fn propagate(&mut self)
        requires
            old(self).wf(),
        ensures
            final(self)@ == old(self)@.propagate(),
            final(self).wf(),
            old(self)@.passable() ==> final(self)@.passable(),
            old(self)@.sound() ==> final(self)@.sound(),
    {
        proof {
            if self@.passable() {
                lemma_propagate_agrees(self@);
            }
            if self@.sound() {
                lemma_propagate_from_sound(self@, self@.gates, 0);
            }
        }
        let states = self.driven_states();
        let ghost sources = self@.gates;
        let mut i: usize = 0;
        while i < self.cables.len()
            invariant
                i <= self.cables@.len(),
                self.wf(),
                states@.len() == self.cables@.len(),
                forall|k: int|
                    i <= k < states@.len() ==> states@[k] == driven_state(
                        sources,
                        #[trigger] self@.cables[k],
                    ),
                self@.propagate_from(sources, i as int) == old(self)@.propagate_from(sources, 0),
            decreases self.cables@.len() - i,
        {
            let cable = self.cables[i];
            let state = states[i];
            let ghost before = self@;
            if state != cable.state {
                self.change_input_at(cable.end_point, BitChange::Flip);
            }
            self.cables[i].state = state;
            proof {
                assert(self@.cables =~= before.cables.update(i as int, Cable { state, ..cable }));
            }
            i += 1;
        }
    }

    /// Every lamp shows its stored level, with or without a cable.
    pub fn refresh_lamps(&mut self)
        requires
            old(self).wf(),
        ensures
            final(self)@ == old(self)@.refresh_lamps(),
            final(self).wf(),
            final(self)@.lamps_show_levels(),
            old(self)@.sound() ==> final(self)@.sound(),
    {
        proof {
            if self@.sound() {
                lemma_refresh_lamps_sound(self@);
            }
        }
        let mut g: usize = 0;
        while g < self.gates.len()
            invariant
                g <= self.gates@.len(),
                self.gates@.len() == old(self).gates@.len(),
                self.cables@ == old(self).cables@,
                forall|k: int| 0 <= k < g ==> self.gates@[k] == refreshed(old(self).gates@[k]),
                forall|k: int|
                    g <= k < self.gates@.len() ==> self.gates@[k] == old(self).gates@[k],
            decreases self.gates@.len() - g,
        {
            if self.gates[g].gatetype == GateType::Lamp {
                let texture = if self.gates[g].evaluate_as_lamp() {
                    Texture::SwitchOn
                } else {
                    Texture::SwitchOff
                };
                self.gates[g].texture = texture;
            }
            g += 1;
        }
        assert(self@.gates =~= old(self)@.refresh_lamps().gates);
        assert forall|k: int| 0 <= k < self@.gates.len() implies (#[trigger] self@.gates[k]).wf() by {
            assert(old(self)@.gates[k].wf());
        }
    }

    /// For every cable, the pin on the given side that its end there belongs
    /// to.
    fn bindings(&self, is_input: bool) -> (found: Vec<Option<(usize, usize)>>)
        requires
            self.wf(),
        ensures
            found@.len() == self@.cables.len(),
            forall|i: int|
                0 <= i < found@.len() ==> bound_as(
                    #[trigger] found@[i],
                    pin_at(self@.gates, cable_end(self@.cables[i], is_input), is_input),
                ),
    {
        let mut found: Vec<Option<(usize, usize)>> = Vec::new();
        let mut i: usize = 0;
        while i < self.cables.len()
            invariant
                i <= self.cables@.len(),
                self.wf(),
                found@.len() == i,
                forall|k: int|
                    0 <= k < i ==> bound_as(
                        #[trigger] found@[k],
                        pin_at(self@.gates, cable_end(self@.cables[k], is_input), is_input),
                    ),
            decreases self.cables@.len() - i,
        {
            let p = if is_input {
                self.cables[i].end_point
            } else {
                self.cables[i].start_point
            };
            found.push(self.pin_at(p, is_input));
            i += 1;
        }
        found
    }

    /// Moves gate `idx` to `position`. A cable end that sat on a pin of the
    /// gate moves with the pin.
    pub fn move_gate(&mut self, idx: usize, position: Point)
        requires
            old(self).wf(),
            idx < old(self)@.gates.len(),
        ensures
            final(self)@ == old(self)@.move_gate(idx as int, position),
            final(self).wf(),
            old(self)@.attached() ==> final(self)@.attached(),
            old(self)@.sound() && final(self)@.ends_unshared() ==> final(self)@.sound(),
    {
        proof {
            if self@.attached() {
                lemma_move_gate_attached(self@, idx as int, position);
            }
            if self@.sound() && self@.move_gate(idx as int, position).ends_unshared() {
                lemma_move_gate_sound(self@, idx as int, position);
            }
        }
        let starts = self.bindings(false);
        let ends = self.bindings(true);
        self.gates[idx].position = position;
        let outs = self.gates[idx].output_positions();
        let ins = self.gates[idx].input_positions();
        let ghost before = old(self)@.gates;
        let ghost after = self@.gates;
        assert(after =~= before.update(idx as int, Gate { position, ..before[idx as int] }));
        let mut i: usize = 0;
        while i < self.cables.len()
            invariant
                i <= self.cables@.len(),
                self.cables@.len() == old(self)@.cables.len(),
                self@.gates == after,
                after == before.update(idx as int, Gate { position, ..before[idx as int] }),
                before == old(self)@.gates,
                idx < before.len(),
                outs@ == after[idx as int].spec_output_positions(),
                ins@ == after[idx as int].spec_input_positions(),
                starts@.len() == self.cables@.len(),
                ends@.len() == self.cables@.len(),
                forall|k: int|
                    0 <= k < starts@.len() ==> bound_as(
                        #[trigger] starts@[k],
                        pin_at(before, old(self)@.cables[k].start_point, false),
                    ),
                forall|k: int|
                    0 <= k < ends@.len() ==> bound_as(
                        #[trigger] ends@[k],
                        pin_at(before, old(self)@.cables[k].end_point, true),
                    ),
                forall|k: int|
                    i <= k < self.cables@.len() ==> self.cables@[k] == old(self)@.cables[k],
                forall|k: int|
                    0 <= k < i ==> self.cables@[k] == rebound(before, after, old(self)@.cables[k]),
            decreases self.cables@.len() - i,
        {
            let ghost cable = self.cables@[i as int];
            proof {
                lemma_pin_at_from(before, cable.start_point, false, 0);
                lemma_pin_at_from(before, cable.end_point, true, 0);
                assert(bound_as(starts@[i as int], pin_at(before, cable.start_point, false)));
                assert(bound_as(ends@[i as int], pin_at(before, cable.end_point, true)));
            }
            match starts[i] {
                Some((gate, pin)) => {
                    if gate == idx {
                        self.cables[i].start_point = outs[pin];
                    }
                },
                None => {},
            }
            match ends[i] {
                Some((gate, pin)) => {
                    if gate == idx {
                        self.cables[i].end_point = ins[pin];
                    }
                },
                None => {},
            }
            assert(self.cables@[i as int] == rebound(before, after, cable));
            i += 1;
        }
        assert(self@.cables =~= old(self)@.move_gate(idx as int, position).cables);
    }

    /// One tick: cables that have lost a pin are swept, levels pass through
    /// the cables, lamps show their level, and then a gate that is being
    /// dragged, if any, moves to the pointer and takes its cables along.
    ///
    /// Afterwards every cable starts on an output pin and ends on an input
    /// pin of a gate of the circuit, and every lamp shows its stored level.
    pub fn tick(&mut self, moved: Option<(usize, Point)>)
        requires
            old(self).wf(),
        ensures
            final(self)@ == old(self)@.tick(spec_moved(moved)),
            final(self).wf(),
            final(self)@.attached(),
            final(self)@.lamps_show_levels(),
            old(self)@.single_driver() && final(self)@.ends_unshared()
                ==> final(self)@.single_driver(),
            old(self)@.passable() && final(self)@.ends_unshared() ==> final(self)@.passable(),
            old(self)@.sound() && final(self)@.ends_unshared() ==> final(self)@.sound(),
    {
        proof {
            if self@.passable() && self@.tick(spec_moved(moved)).ends_unshared() {
                lemma_tick_agrees(self@, spec_moved(moved));
            }
            lemma_tick_attached(self@, spec_moved(moved));
            lemma_tick_lamps(self@, spec_moved(moved));
            if self@.single_driver() && self@.tick(spec_moved(moved)).ends_unshared() {
                lemma_tick_single_driver(self@, spec_moved(moved));
            }
            if self@.sound() && self@.tick(spec_moved(moved)).ends_unshared() {
                lemma_tick_sound(self@, spec_moved(moved));
            }
        }
        self.sweep();
        self.propagate();
        self.refresh_lamps();
        match moved {
            Some((idx, position)) => {
                if idx < self.gates.len() {
                    self.move_gate(idx, position);
                }
            },
            None => {},
        }
    }
}

} // verus!
