//! The circuit as two sequences, gates and cables, and what every step does
//! to them.
//!
//! A cable holds copies of two pin coordinates and nothing else. Which pin a
//! cable end belongs to is found again, whenever it is needed, by comparing
//! the end with the pins of every gate: the first gate, and its first pin,
//! with that coordinate.

use crate::bits::{with_bit, with_bit_flipped};
use crate::cable::{Cable, State};
use crate::drawing::pins_of;
use crate::gate::{Gate, GateType, Texture};
use crate::geometry::Point;
use vstd::prelude::*;

verus! {

/// Index of the first of `points`, at or after `from`, that equals `p`.
pub open spec fn index_of_point_from(points: Seq<Point>, p: Point, from: int) -> Option<int>
    decreases points.len() - from,
{
    if from < 0 || from >= points.len() {
        None
    } else if points[from] == p {
        Some(from)
    } else {
        index_of_point_from(points, p, from + 1)
    }
}

/// The first gate at or after `from`, and its first pin on the given side,
/// that sits at `p`.
pub open spec fn pin_at_from(gates: Seq<Gate>, p: Point, is_input: bool, from: int) -> Option<
    (int, int),
>
    decreases gates.len() - from,
{
    if from < 0 || from >= gates.len() {
        None
    } else {
        match index_of_point_from(pins_of(gates[from], is_input), p, 0) {
            Some(pin) => Some((from, pin)),
            None => pin_at_from(gates, p, is_input, from + 1),
        }
    }
}

/// The pin that a cable end at `p` belongs to: the first gate, and its first
/// pin on the given side, that sits at `p`.
pub open spec fn pin_at(gates: Seq<Gate>, p: Point, is_input: bool) -> Option<(int, int)> {
    pin_at_from(gates, p, is_input, 0)
}

/// `index_of_point_from` finds an index that holds `p`, none before it does,
/// and it finds none only where `p` does not occur.
pub proof fn lemma_index_of_point_from(points: Seq<Point>, p: Point, from: int)
    requires
        0 <= from,
    ensures
        match index_of_point_from(points, p, from) {
            Some(i) => {
                &&& from <= i < points.len()
                &&& points[i] == p
                &&& forall|k: int| from <= k < i ==> points[k] != p
            },
            None => forall|k: int| from <= k < points.len() ==> points[k] != p,
        },
    decreases points.len() - from,
{
    if from < points.len() && points[from] != p {
        lemma_index_of_point_from(points, p, from + 1);
    }
}

/// A point is found among `points` exactly when they contain it.
pub proof fn lemma_index_of_point_contains(points: Seq<Point>, p: Point)
    ensures
        index_of_point_from(points, p, 0) is Some <==> points.contains(p),
{
    lemma_index_of_point_from(points, p, 0);
    if let Some(i) = index_of_point_from(points, p, 0) {
        assert(points[i] == p);
    }
}

/// `pin_at_from` finds a pin that sits at `p`; no pin of an earlier gate from
/// `from` on, and no earlier pin of the same gate, sits there; and it finds
/// none only where no pin of a gate from `from` on sits at `p`.
pub proof fn lemma_pin_at_from(gates: Seq<Gate>, p: Point, is_input: bool, from: int)
    requires
        0 <= from,
    ensures
        match pin_at_from(gates, p, is_input, from) {
            Some((gate, pin)) => {
                &&& from <= gate < gates.len()
                &&& 0 <= pin < pins_of(gates[gate], is_input).len()
                &&& pins_of(gates[gate], is_input)[pin] == p
                &&& forall|k: int| 0 <= k < pin ==> pins_of(gates[gate], is_input)[k] != p
                &&& forall|g: int, k: int|
                    from <= g < gate && 0 <= k < pins_of(gates[g], is_input).len() ==> pins_of(
                        gates[g],
                        is_input,
                    )[k] != p
            },
            None => forall|g: int, k: int|
                from <= g < gates.len() && 0 <= k < pins_of(gates[g], is_input).len() ==> pins_of(
                    gates[g],
                    is_input,
                )[k] != p,
        },
    decreases gates.len() - from,
{
    if from < gates.len() {
        lemma_index_of_point_from(pins_of(gates[from], is_input), p, 0);
        lemma_pin_at_from(gates, p, is_input, from + 1);
    }
}

/// How one stored input level changes.
#[derive(Clone, Copy, Debug, PartialEq, Eq, Structural)]
pub enum BitChange {
    /// The level becomes low.
    Clear,
    /// The level is inverted.
    Flip,
    /// All levels are forgotten: none is stored any more.
    Forget,
}

/// `gate` with the stored level of input pin `pin` changed. A gate that
/// stores no levels stays so.
pub open spec fn with_input_changed<'a>(gate: Gate<'a>, pin: int, change: BitChange) -> Gate<'a> {
    match gate.input_values {
        Some(mask) => Gate {
            input_values: match change {
                BitChange::Clear => Some(with_bit(mask, pin, false)),
                BitChange::Flip => Some(with_bit_flipped(mask, pin)),
                BitChange::Forget => None,
            },
            ..gate
        },
        None => gate,
    }
}

/// Index of the first cable at or after `from` that joins `start` to `end`.
pub open spec fn index_of_edge_from(cables: Seq<Cable>, start: Point, end: Point, from: int) -> Option<
    int,
>
    decreases cables.len() - from,
{
    if from < 0 || from >= cables.len() {
        None
    } else if cables[from].start_point == start && cables[from].end_point == end {
        Some(from)
    } else {
        index_of_edge_from(cables, start, end, from + 1)
    }
}

/// `index_of_edge_from` finds a cable that joins `start` to `end`, none
/// between `from` and it does, and it finds none only where no cable from
/// `from` on does.
pub proof fn lemma_index_of_edge_from(cables: Seq<Cable>, start: Point, end: Point, from: int)
    requires
        0 <= from,
    ensures
        match index_of_edge_from(cables, start, end, from) {
            Some(i) => {
                &&& from <= i < cables.len()
                &&& cables[i].start_point == start
                &&& cables[i].end_point == end
                &&& forall|k: int|
                    from <= k < i ==> !(cables[k].start_point == start && cables[k].end_point
                        == end)
            },
            None => forall|k: int|
                from <= k < cables.len() ==> !(cables[k].start_point == start
                    && cables[k].end_point == end),
        },
    decreases cables.len() - from,
{
    if from < cables.len() && !(cables[from].start_point == start && cables[from].end_point
        == end) {
        lemma_index_of_edge_from(cables, start, end, from + 1);
    }
}

/// Whether some cable ends at `p`.
pub open spec fn cable_ends_at(cables: Seq<Cable>, p: Point) -> bool {
    exists|c: int| 0 <= c < cables.len() && (#[trigger] cables[c]).end_point == p
}

/// Whether `cable` touches a pin of `gate`: ends on one of its input pins or
/// starts on one of its output pins.
pub open spec fn incident(cable: Cable, gate: Gate) -> bool {
    gate.spec_input_positions().contains(cable.end_point) || gate.spec_output_positions().contains(
        cable.start_point,
    )
}

/// Whether `cable` has lost a pin: its start is no output pin of any gate, or
/// its end is no input pin of any gate.
pub open spec fn orphaned(gates: Seq<Gate>, cable: Cable) -> bool {
    pin_at(gates, cable.start_point, false) is None || pin_at(gates, cable.end_point, true)
        is None
}

/// Whether `cable` is to be removed: with a gate given, because it touches
/// that gate; with none given, because it has lost a pin.
pub open spec fn doomed(gates: Seq<Gate>, cable: Cable, victim: Option<Gate>) -> bool {
    match victim {
        Some(gate) => incident(cable, gate),
        None => orphaned(gates, cable),
    }
}

/// `gate` with the stored level of input pin `pin` set to `level`. A gate
/// that stores no levels starts from all low.
pub open spec fn with_input_set<'a>(gate: Gate<'a>, pin: int, level: bool) -> Gate<'a> {
    let mask = match gate.input_values {
        Some(mask) => mask,
        None => 0,
    };
    Gate { input_values: Some(with_bit(mask, pin, level)), ..gate }
}

/// A switch after it is thrown: it stores the opposite of the level it
/// drives, and shows it. Any other gate is unchanged.
pub open spec fn toggled<'a>(gate: Gate<'a>) -> Gate<'a> {
    if gate.gatetype != GateType::Switch {
        gate
    } else if gate.spec_output_is_on()[0] {
        Gate { input_values: Some(0), texture: Texture::SwitchOff, ..gate }
    } else {
        Gate { input_values: Some(1), texture: Texture::SwitchOn, ..gate }
    }
}

/// The sprite of a lamp with the given stored levels.
pub open spec fn lamp_texture(gate: Gate) -> Texture {
    if gate.spec_evaluate_as_lamp() {
        Texture::SwitchOn
    } else {
        Texture::SwitchOff
    }
}

/// The level that the output pin under the cable's start drives, as a cable
/// state; the cable's own state where its start is no output pin.
pub open spec fn driven_state(gates: Seq<Gate>, cable: Cable) -> State {
    match pin_at(gates, cable.start_point, false) {
        Some((gate, pin)) => State::spec_from_level(gates[gate].spec_output_is_on()[pin]),
        None => cable.state,
    }
}

/// `cable` carried along: each end that sat on a pin of `before` now sits on
/// the same pin of `after`.
pub open spec fn rebound(before: Seq<Gate>, after: Seq<Gate>, cable: Cable) -> Cable {
    Cable {
        state: cable.state,
        start_point: match pin_at(before, cable.start_point, false) {
            Some((gate, pin)) => after[gate].spec_output_position(pin),
            None => cable.start_point,
        },
        end_point: match pin_at(before, cable.end_point, true) {
            Some((gate, pin)) => after[gate].spec_input_position(pin),
            None => cable.end_point,
        },
    }
}

/// `after` holds the gates of `before` with nothing changed but stored levels
/// and sprites: each gate keeps its kind, name, position, box, pin counts and
/// evaluator.
pub open spec fn same_shape(before: Seq<Gate>, after: Seq<Gate>) -> bool {
    &&& before.len() == after.len()
    &&& forall|g: int|
        0 <= g < before.len() ==> {
            &&& (#[trigger] after[g]).gatetype == before[g].gatetype
            &&& after[g].gatename == before[g].gatename
            &&& after[g].position == before[g].position
            &&& after[g].sprite == before[g].sprite
            &&& after[g].inputs == before[g].inputs
            &&& after[g].outputs == before[g].outputs
            &&& after[g].comp_func == before[g].comp_func
        }
}

/// The pins on the given side of the first `n` gates, gate by gate and top
/// to bottom within each gate.
pub open spec fn pin_points(gates: Seq<Gate>, is_input: bool, n: int) -> Seq<Point>
    decreases n,
{
    if n <= 0 || n > gates.len() {
        Seq::empty()
    } else {
        pin_points(gates, is_input, n - 1) + pins_of(gates[n - 1], is_input)
    }
}

/// The gates and cables of a circuit as sequences.
pub struct CircuitView<'a> {
    pub gates: Seq<Gate<'a>>,
    pub cables: Seq<Cable>,
}

impl<'a> CircuitView<'a> {
    /// The circuit without gates and cables.
    pub open spec fn empty() -> Self {
        CircuitView { gates: Seq::empty(), cables: Seq::empty() }
    }

    /// Every gate is well formed.
    pub open spec fn wf(self) -> bool {
        forall|g: int| 0 <= g < self.gates.len() ==> (#[trigger] self.gates[g]).wf()
    }

    /// The circuit after the stored level of the input pin at `p`, if there
    /// is one, has changed.
    pub open spec fn change_input_at(self, p: Point, change: BitChange) -> Self {
        match pin_at(self.gates, p, true) {
            Some((gate, pin)) => CircuitView {
                gates: self.gates.update(gate, with_input_changed(self.gates[gate], pin, change)),
                ..self
            },
            None => self,
        }
    }

    /// What removing cable `i` does to whichever gate it ends on: the pin
    /// goes low while another cable still ends on that gate, and all its
    /// levels are forgotten once none does.
    pub open spec fn release_of(self, i: int) -> BitChange {
        let rest = CircuitView { cables: self.cables.remove(i), ..self };
        match pin_at(self.gates, self.cables[i].end_point, true) {
            Some((gate, _)) => if wired(rest, gate) {
                BitChange::Clear
            } else {
                BitChange::Forget
            },
            None => BitChange::Clear,
        }
    }

    /// The circuit without cable `i`. The input pin that the cable ended on
    /// goes low; a gate that no cable ends on any more stores no levels, as
    /// before its first cable.
    pub open spec fn remove_cable(self, i: int) -> Self {
        CircuitView {
            cables: self.cables.remove(i),
            ..self.change_input_at(self.cables[i].end_point, self.release_of(i))
        }
    }

    /// The circuit after the cables among the first `n` that are doomed have
    /// been removed, last first.
    pub open spec fn remove_doomed(self, victim: Option<Gate>, n: int) -> Self
        decreases n,
    {
        if n <= 0 || n > self.cables.len() {
            self
        } else if doomed(self.gates, self.cables[n - 1], victim) {
            self.remove_cable(n - 1).remove_doomed(victim, n - 1)
        } else {
            self.remove_doomed(victim, n - 1)
        }
    }

    /// The circuit with one more gate, placed after the others.
    pub open spec fn spawn(self, gate: Gate<'a>) -> Self {
        CircuitView { gates: self.gates.push(gate), ..self }
    }

    /// The circuit after a wire carrying `on` from `start` is dropped on input
    /// pin `pin` of gate `gate`.
    ///
    /// Where a cable already joins the two points, the first such cable is
    /// removed, with what that does to the stored levels. Otherwise, where
    /// the two points differ and no cable ends on
    /// the pin, a cable is added and the pin's stored level becomes `on`.
    /// Otherwise nothing changes.
    pub open spec fn connect(self, start: Point, on: bool, gate: int, pin: int) -> Self {
        let target = self.gates[gate].spec_input_position(pin);
        match index_of_edge_from(self.cables, start, target, 0) {
            Some(i) => self.remove_cable(i),
            None => if start != target && !cable_ends_at(self.cables, target) {
                CircuitView {
                    gates: self.gates.update(gate, with_input_set(self.gates[gate], pin, on)),
                    cables: self.cables.push(
                        Cable {
                            state: State::spec_from_level(on),
                            start_point: start,
                            end_point: target,
                        },
                    ),
                }
            } else {
                self
            },
        }
    }

    /// The circuit without gate `idx` and without the cables that touch it.
    pub open spec fn delete_gate(self, idx: int) -> Self {
        let swept = self.remove_doomed(Some(self.gates[idx]), self.cables.len() as int);
        CircuitView { gates: swept.gates.remove(idx), cables: swept.cables }
    }

    /// The circuit after gate `idx` is thrown, if it is a switch.
    pub open spec fn toggle_switch(self, idx: int) -> Self {
        CircuitView { gates: self.gates.update(idx, toggled(self.gates[idx])), ..self }
    }

    /// The circuit without the cables that have lost a pin.
    pub open spec fn sweep(self) -> Self {
        self.remove_doomed(None, self.cables.len() as int)
    }

    /// The circuit after cables `i` and up have taken the level that
    /// `sources` drives into them. Where a cable's level changes, the stored
    /// level of the input pin it ends on is inverted.
    pub open spec fn propagate_from(self, sources: Seq<Gate<'a>>, i: int) -> Self
        decreases self.cables.len() - i,
    {
        if i < 0 || i >= self.cables.len() {
            self
        } else {
            let cable = self.cables[i];
            let state = driven_state(sources, cable);
            let flipped = if state != cable.state {
                self.change_input_at(cable.end_point, BitChange::Flip)
            } else {
                self
            };
            CircuitView {
                cables: self.cables.update(i, Cable { state, ..cable }),
                ..flipped
            }.propagate_from(sources, i + 1)
        }
    }

    /// One pass of levels through the cables: every cable takes the level
    /// that its output pin drove before the pass, and every input pin whose
    /// cable changed inverts its stored level.
    pub open spec fn propagate(self) -> Self {
        self.propagate_from(self.gates, 0)
    }

    /// The circuit after every lamp shows its stored level, with or without
    /// a cable.
    pub open spec fn refresh_lamps(self) -> Self {
        CircuitView {
            gates: Seq::new(self.gates.len(), |g: int| refreshed(self.gates[g])),
            ..self
        }
    }

    /// Every lamp shows its stored level.
    pub open spec fn lamps_show_levels(self) -> bool {
        forall|g: int|
            0 <= g < self.gates.len() && (#[trigger] self.gates[g]).gatetype == GateType::Lamp
                ==> self.gates[g].texture == lamp_texture(self.gates[g])
    }

    /// The circuit after gate `idx` has moved to `position` and the cables on
    /// its pins have moved with them.
    pub open spec fn move_gate(self, idx: int, position: Point) -> Self {
        let after = self.gates.update(idx, Gate { position, ..self.gates[idx] });
        CircuitView {
            gates: after,
            cables: Seq::new(self.cables.len(), |i: int| rebound(self.gates, after, self.cables[i])),
        }
    }

    /// One tick: cables that have lost a pin are swept, levels pass through
    /// the cables, lamps show their level, and then a gate that is being
    /// dragged, if any, moves and takes its cables along.
    pub open spec fn tick(self, moved: Option<(int, Point)>) -> Self {
        let passed = self.sweep().propagate().refresh_lamps();
        match moved {
            Some((idx, position)) => if 0 <= idx < passed.gates.len() {
                passed.move_gate(idx, position)
            } else {
                passed
            },
            None => passed,
        }
    }
}

/// Changing a stored level changes nothing else: the cables, the number of
/// gates, and every gate's kind, pins and evaluator stay.
pub proof fn lemma_change_input_keeps_shape(view: CircuitView, p: Point, change: BitChange)
    ensures
        view.change_input_at(p, change).cables == view.cables,
        same_shape(view.gates, view.change_input_at(p, change).gates),
{
    lemma_pin_at_from(view.gates, p, true, 0);
}

/// Removing doomed cables leaves the number of gates, and every gate's kind,
/// pins and evaluator, as they were.
pub proof fn lemma_remove_doomed_keeps_shape(view: CircuitView, victim: Option<Gate>, n: int)
    ensures
        same_shape(view.gates, view.remove_doomed(victim, n).gates),
    decreases n,
{
    if n <= 0 || n > view.cables.len() {
    } else if doomed(view.gates, view.cables[n - 1], victim) {
        let next = view.remove_cable(n - 1);
        lemma_change_input_keeps_shape(
            view,
            view.cables[n - 1].end_point,
            view.release_of(n - 1),
        );
        lemma_remove_doomed_keeps_shape(next, victim, n - 1);
    } else {
        lemma_remove_doomed_keeps_shape(view, victim, n - 1);
    }
}

/// Pins are found by position alone: gates of the same shape have the same
/// pin at every spot.
pub proof fn lemma_pin_at_same_shape(
    before: Seq<Gate>,
    after: Seq<Gate>,
    p: Point,
    is_input: bool,
    from: int,
)
    requires
        same_shape(before, after),
        0 <= from,
    ensures
        pin_at_from(before, p, is_input, from) == pin_at_from(after, p, is_input, from),
    decreases before.len() - from,
{
    if from < before.len() {
        assert(after[from].position == before[from].position);
        assert(pins_of(before[from], is_input) =~= pins_of(after[from], is_input));
        lemma_pin_at_same_shape(before, after, p, is_input, from + 1);
    }
}

/// Whether `cable` stays when doomed cables are removed.
pub open spec fn kept(shape: Seq<Gate>, victim: Option<Gate>) -> spec_fn(Cable) -> bool {
    |cable: Cable| !doomed(shape, cable, victim)
}

/// Which cables are left after doomed cables among the first `n` are
/// removed: of the first `n`, those that are not doomed, in their order, and
/// then the cables from `n` on.
pub proof fn lemma_remove_doomed_cables(
    view: CircuitView,
    victim: Option<Gate>,
    n: int,
    shape: Seq<Gate>,
)
    requires
        0 <= n <= view.cables.len(),
        same_shape(shape, view.gates),
    ensures
        view.remove_doomed(victim, n).cables == view.cables.subrange(0, n).filter(
            kept(shape, victim),
        ) + view.cables.subrange(n, view.cables.len() as int),
    decreases n,
{
    reveal(Seq::filter);
    let len = view.cables.len() as int;
    let head = view.cables.subrange(0, n);
    if n == 0 {
        assert(head.filter(kept(shape, victim)) + view.cables.subrange(n, len) =~= view.cables);
    } else {
        let cable = view.cables[n - 1];
        assert(head.drop_last() =~= view.cables.subrange(0, n - 1));
        assert(head.last() == cable);
        lemma_pin_at_same_shape(shape, view.gates, cable.start_point, false, 0);
        lemma_pin_at_same_shape(shape, view.gates, cable.end_point, true, 0);
        assert(kept(shape, victim)(cable) == !doomed(view.gates, cable, victim));
        if doomed(view.gates, cable, victim) {
            let next = view.remove_cable(n - 1);
            lemma_change_input_keeps_shape(view, cable.end_point, view.release_of(n - 1));
            lemma_remove_doomed_cables(next, victim, n - 1, shape);
            assert(next.cables.subrange(0, n - 1) =~= view.cables.subrange(0, n - 1));
            assert(next.cables.subrange(n - 1, len - 1) =~= view.cables.subrange(n, len));
        } else {
            lemma_remove_doomed_cables(view, victim, n - 1, shape);
            assert(view.cables.subrange(0, n - 1).filter(kept(shape, victim)).push(cable)
                + view.cables.subrange(n, len) =~= view.cables.subrange(0, n - 1).filter(
                kept(shape, victim),
            ) + view.cables.subrange(n - 1, len));
        }
    }
}

/// A sweep removes the cables that have lost a pin and keeps the others in
/// their order.
pub proof fn lemma_sweep_cables(view: CircuitView)
    ensures
        view.sweep().cables == view.cables.filter(kept(view.gates, None)),
{
    let len = view.cables.len() as int;
    lemma_remove_doomed_cables(view, None, len, view.gates);
    assert(view.cables.subrange(0, len) =~= view.cables);
    assert(view.cables.filter(kept(view.gates, None)) + view.cables.subrange(len, len)
        =~= view.cables.filter(kept(view.gates, None)));
}

/// Deleting a gate removes the cables that touch it and keeps the others in
/// their order.
pub proof fn lemma_delete_gate_cables(view: CircuitView, idx: int)
    requires
        0 <= idx < view.gates.len(),
    ensures
        view.delete_gate(idx).cables == view.cables.filter(
            kept(view.gates, Some(view.gates[idx])),
        ),
        view.delete_gate(idx).gates.len() == view.gates.len() - 1,
{
    let len = view.cables.len() as int;
    let victim = Some(view.gates[idx]);
    lemma_remove_doomed_cables(view, victim, len, view.gates);
    lemma_remove_doomed_keeps_shape(view, victim, len);
    assert(view.cables.subrange(0, len) =~= view.cables);
    assert(view.cables.filter(kept(view.gates, victim)) + view.cables.subrange(len, len)
        =~= view.cables.filter(kept(view.gates, victim)));
}

/// What a pass of levels leaves in the cables: cables `i` and up carry the
/// level that `sources` drives into them, and no cable end has moved. The
/// gates keep their shape.
pub proof fn lemma_propagate_from_cables(view: CircuitView, sources: Seq<Gate>, i: int)
    requires
        0 <= i,
    ensures
        same_shape(view.gates, view.propagate_from(sources, i).gates),
        view.propagate_from(sources, i).cables.len() == view.cables.len(),
        forall|c: int|
            0 <= c < view.cables.len() ==> #[trigger] view.propagate_from(sources, i).cables[c]
                == (Cable {
                state: if c < i {
                    view.cables[c].state
                } else {
                    driven_state(sources, view.cables[c])
                },
                ..view.cables[c]
            }),
    decreases view.cables.len() - i,
{
    if i < view.cables.len() {
        let cable = view.cables[i];
        let state = driven_state(sources, cable);
        let flipped = if state != cable.state {
            view.change_input_at(cable.end_point, BitChange::Flip)
        } else {
            view
        };
        let next = CircuitView {
            cables: view.cables.update(i, Cable { state, ..cable }),
            ..flipped
        };
        lemma_change_input_keeps_shape(view, cable.end_point, BitChange::Flip);
        lemma_propagate_from_cables(next, sources, i + 1);
        let last = view.propagate_from(sources, i);
        assert forall|c: int| 0 <= c < view.cables.len() implies #[trigger] last.cables[c] == (Cable {
            state: if c < i {
                view.cables[c].state
            } else {
                driven_state(sources, view.cables[c])
            },
            ..view.cables[c]
        }) by {
            assert(next.cables[c] == if c == i {
                Cable { state, ..cable }
            } else {
                view.cables[c]
            });
        }
    }
}

/// After a pass every cable carries the level that its output pin drove
/// before the pass, and no cable end has moved.
pub proof fn lemma_propagate_cables(view: CircuitView)
    ensures
        view.propagate().cables.len() == view.cables.len(),
        forall|c: int|
            0 <= c < view.cables.len() ==> #[trigger] view.propagate().cables[c] == (Cable {
                state: driven_state(view.gates, view.cables[c]),
                ..view.cables[c]
            }),
{
    lemma_propagate_from_cables(view, view.gates, 0);
}

/// Whether `cable` ends on an input pin of gate `gate`.
pub open spec fn ends_on_gate(gates: Seq<Gate>, cable: Cable, gate: int) -> bool {
    match pin_at(gates, cable.end_point, true) {
        Some((found, _)) => found == gate,
        None => false,
    }
}

/// Whether some cable ends on an input pin of gate `gate`.
pub open spec fn wired(view: CircuitView, gate: int) -> bool {
    exists|c: int|
        0 <= c < view.cables.len() && ends_on_gate(view.gates, #[trigger] view.cables[c], gate)
}

/// `gate` showing its stored level where it is a lamp; any other gate as it
/// is.
pub open spec fn refreshed<'a>(gate: Gate<'a>) -> Gate<'a> {
    if gate.gatetype == GateType::Lamp {
        Gate { texture: lamp_texture(gate), ..gate }
    } else {
        gate
    }
}

/// Removing a cable removes that cable only, and reshapes no gate.
pub proof fn lemma_remove_cable_keeps_shape(view: CircuitView, i: int)
    ensures
        view.remove_cable(i).cables == view.cables.remove(i),
        same_shape(view.gates, view.remove_cable(i).gates),
{
    lemma_change_input_keeps_shape(view, view.cables[i].end_point, view.release_of(i));
}

/// Whether a cable ends on a gate depends on where pins sit and where
/// cables end, and on nothing else.
pub proof fn lemma_wired_same_shape(before: CircuitView, after: CircuitView, gate: int)
    requires
        same_shape(before.gates, after.gates),
        before.cables.len() == after.cables.len(),
        forall|c: int|
            0 <= c < before.cables.len() ==> (#[trigger] after.cables[c]).end_point
                == before.cables[c].end_point,
    ensures
        wired(before, gate) == wired(after, gate),
{
    if wired(before, gate) {
        let c = choose|c: int|
            0 <= c < before.cables.len() && ends_on_gate(
                before.gates,
                #[trigger] before.cables[c],
                gate,
            );
        lemma_pin_at_same_shape(before.gates, after.gates, before.cables[c].end_point, true, 0);
        assert(ends_on_gate(after.gates, after.cables[c], gate));
    }
    if wired(after, gate) {
        let c = choose|c: int|
            0 <= c < after.cables.len() && ends_on_gate(
                after.gates,
                #[trigger] after.cables[c],
                gate,
            );
        lemma_pin_at_same_shape(before.gates, after.gates, before.cables[c].end_point, true, 0);
        assert(ends_on_gate(before.gates, before.cables[c], gate));
    }
}

} // verus!
