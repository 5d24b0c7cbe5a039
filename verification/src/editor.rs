//! The editor: what each pointer and key event does to the circuit.
//!
//! The editor never waits and never draws. The program around it hands over
//! one event at a time with the pointer's position, calls `tick` once per
//! frame, and draws what the editor then holds.

use crate::circuit::Circuit;
use crate::drawing::{
    first_hit, first_pin_hit, lemma_first_hit_from, match_mouse_pos, match_mouse_pos_con,
};
use crate::gate::{Gate, GateType, Texture};
use crate::geometry::{Point, Rect};
use crate::invariants::{lemma_editor_tick, lemma_handle_single_driver, lemma_handle_sound};
use crate::model::CircuitView;
use crate::operations::BoolFn;
use vstd::prelude::*;

verus! {

/// Number of gates on the palette.
pub const PALETTE_ITEMS: usize = 8;

/// Height of the palette band along the bottom edge of the canvas.
pub const PALETTE_BAND: i32 = 64;

/// Width of every sprite.
pub const SPRITE_WIDTH: u32 = 64;

/// Height of every sprite.
pub const SPRITE_HEIGHT: u32 = 64;

/// Side of the box around a pin inside which the pointer hits the pin.
pub const PIN_REACH: i32 = 16;

/// Centre of palette item `item` on a canvas of the given height.
pub open spec fn spec_palette_position(item: int, canvas_height: int) -> Point {
    Point::spec_new(38 + item * 66, canvas_height - 38)
}

/// Centres of the palette items, left to right.
pub open spec fn spec_palette_positions(canvas_height: int) -> Seq<Point> {
    Seq::new(PALETTE_ITEMS as nat, |item: int| spec_palette_position(item, canvas_height))
}

/// Kind of palette item `item`.
pub open spec fn spec_palette_kind(item: int) -> GateType {
    if item == 0 {
        GateType::Switch
    } else if item == 1 {
        GateType::And
    } else if item == 2 {
        GateType::Or
    } else if item == 3 {
        GateType::XOr
    } else if item == 4 {
        GateType::Nand
    } else if item == 5 {
        GateType::Not
    } else if item == 6 {
        GateType::Lamp
    } else {
        GateType::Custom
    }
}

/// Palette item `item`, placed at `position`: a switch that is on, the five
/// two-level gates, a lamp, and a full adder.
pub open spec fn spec_palette_gate(item: int, position: Point) -> Gate<'static> {
    let sprite = Rect::spec_new(0, 0, SPRITE_WIDTH as int, SPRITE_HEIGHT as int);
    let gatetype = spec_palette_kind(item);
    match gatetype {
        GateType::Switch => Gate {
            gatetype,
            gatename: " ",
            position,
            texture: Texture::SwitchOn,
            sprite,
            inputs: 0,
            outputs: 1,
            comp_func: BoolFn::Switch,
            input_values: Some(1),
        },
        GateType::And => Gate {
            gatetype,
            gatename: "AND",
            position,
            texture: Texture::And,
            sprite,
            inputs: 2,
            outputs: 1,
            comp_func: BoolFn::And,
            input_values: None,
        },
        GateType::Or => Gate {
            gatetype,
            gatename: "OR",
            position,
            texture: Texture::Or,
            sprite,
            inputs: 2,
            outputs: 1,
            comp_func: BoolFn::Or,
            input_values: None,
        },
        GateType::XOr => Gate {
            gatetype,
            gatename: "XOR",
            position,
            texture: Texture::Xor,
            sprite,
            inputs: 2,
            outputs: 1,
            comp_func: BoolFn::Xor,
            input_values: None,
        },
        GateType::Nand => Gate {
            gatetype,
            gatename: "NAND",
            position,
            texture: Texture::Nand,
            sprite,
            inputs: 2,
            outputs: 1,
            comp_func: BoolFn::Nand,
            input_values: None,
        },
        GateType::Not => Gate {
            gatetype,
            gatename: "NOT",
            position,
            texture: Texture::Not,
            sprite,
            inputs: 1,
            outputs: 1,
            comp_func: BoolFn::Not,
            input_values: None,
        },
        GateType::Lamp => Gate {
            gatetype,
            gatename: " ",
            position,
            texture: Texture::SwitchOn,
            sprite,
            inputs: 1,
            outputs: 0,
            comp_func: BoolFn::Lamp,
            input_values: None,
        },
        GateType::Custom => Gate {
            gatetype,
            gatename: "ADD",
            position,
            texture: Texture::Not,
            sprite,
            inputs: 3,
            outputs: 2,
            comp_func: BoolFn::Adder,
            input_values: None,
        },
    }
}

/// Centre of palette item `item`: items stand 66 pixels apart, 38 pixels
/// above the bottom edge of the canvas.
pub fn palette_position(item: usize, canvas_height: u32) -> (p: Point)
    requires
        item < PALETTE_ITEMS,
    ensures
        p == spec_palette_position(item as int, canvas_height as int),
{
    Point::clamped(38 + item as i64 * 66, canvas_height as i64 - 38)
}

/// Centres of the palette items, left to right.
pub fn palette_positions(canvas_height: u32) -> (positions: Vec<Point>)
    ensures
        positions@ == spec_palette_positions(canvas_height as int),
{
    let mut positions: Vec<Point> = Vec::new();
    let mut item: usize = 0;
    while item < PALETTE_ITEMS
        invariant
            item <= PALETTE_ITEMS,
            positions@.len() == item,
            forall|i: int|
                0 <= i < item ==> positions@[i] == spec_palette_position(i, canvas_height as int),
        decreases PALETTE_ITEMS - item,
    {
        positions.push(palette_position(item, canvas_height));
        item += 1;
    }
    positions
}

/// A fresh copy of palette item `item`, placed at `position`.
pub fn palette_gate(item: usize, position: Point) -> (gate: Gate<'static>)
    requires
        item < PALETTE_ITEMS,
    ensures
        gate == spec_palette_gate(item as int, position),
        gate.wf(),
{
    let sprite = Rect::new(0, 0, SPRITE_WIDTH, SPRITE_HEIGHT);
    if item == 0 {
        Gate::new(
            GateType::Switch,
            " ",
            position,
            Texture::SwitchOn,
            sprite,
            0,
            1,
            BoolFn::Switch,
            Some(1),
        )
    } else if item == 1 {
        Gate::new(GateType::And, "AND", position, Texture::And, sprite, 2, 1, BoolFn::And, None)
    } else if item == 2 {
        Gate::new(GateType::Or, "OR", position, Texture::Or, sprite, 2, 1, BoolFn::Or, None)
    } else if item == 3 {
        Gate::new(GateType::XOr, "XOR", position, Texture::Xor, sprite, 2, 1, BoolFn::Xor, None)
    } else if item == 4 {
        Gate::new(
            GateType::Nand,
            "NAND",
            position,
            Texture::Nand,
            sprite,
            2,
            1,
            BoolFn::Nand,
            None,
        )
    } else if item == 5 {
        Gate::new(GateType::Not, "NOT", position, Texture::Not, sprite, 1, 1, BoolFn::Not, None)
    } else if item == 6 {
        Gate::new(
            GateType::Lamp,
            " ",
            position,
            Texture::SwitchOn,
            sprite,
            1,
            0,
            BoolFn::Lamp,
            None,
        )
    } else {
        Gate::new(
            GateType::Custom,
            "ADD",
            position,
            Texture::Not,
            sprite,
            3,
            2,
            BoolFn::Adder,
            None,
        )
    }
}

/// Centres of the given gates, in order.
pub open spec fn spec_positions(gates: Seq<Gate>) -> Seq<Point> {
    Seq::new(gates.len(), |g: int| gates[g].position)
}

/// Centres of the given gates, in order.
pub fn positions(gates: &[Gate]) -> (centres: Vec<Point>)
    ensures
        centres@ == spec_positions(gates@),
{
    let mut centres: Vec<Point> = Vec::new();
    let mut g: usize = 0;
    while g < gates.len()
        invariant
            g <= gates@.len(),
            centres@.len() == g,
            forall|i: int| 0 <= i < g ==> centres@[i] == gates@[i].position,
        decreases gates@.len() - g,
    {
        centres.push(gates[g].position);
        g += 1;
    }
    centres
}

/// What the pointer drags.
#[derive(Clone, Copy, Debug, PartialEq, Eq, Structural)]
pub enum Drag {
    /// Nothing.
    Idle,
    /// Whichever gate was placed last, fresh from the palette.
    New,
    /// An older gate, by its index.
    Old(usize),
}

/// A wire that has been picked up at an output pin and not yet dropped.
#[derive(Clone, Copy, Debug, PartialEq, Eq, Structural)]
pub struct Wire {
    /// Where the output pin sat when the wire was picked up.
    pub start: Point,
    /// The level that the pin drove then.
    pub on: bool,
}

/// What the program around the editor reports.
#[derive(Clone, Copy, Debug, PartialEq, Eq, Structural)]
pub enum Event {
    /// The window was closed or the escape key pressed.
    Quit,
    /// The left button went down.
    LeftDown,
    /// The left button came up.
    LeftUp,
    /// The right button went down.
    RightDown,
    /// The middle button came up.
    MiddleUp,
    /// The key that throws a switch went down.
    ToggleKey,
    /// Anything else.
    Other,
}

/// What the program around the editor does next.
#[derive(Clone, Copy, Debug, PartialEq, Eq, Structural)]
pub enum Action {
    /// Carry on with the next event.
    Continue,
    /// Leave the loop.
    Quit,
}

/// Which gate a tick moves to `pointer`, if any: the last gate while a
/// new gate is dragged, the dragged gate while an old one is.
pub open spec fn spec_dragged(drag: Drag, gates: int, pointer: Point) -> Option<(int, Point)> {
    match drag {
        Drag::Idle => None,
        Drag::New => if gates > 0 {
            Some((gates - 1, pointer))
        } else {
            None
        },
        Drag::Old(idx) => Some((idx as int, pointer)),
    }
}

/// The state of an editor, with the circuit as sequences.
pub struct EditorView<'a> {
    pub circuit: CircuitView<'a>,
    pub drag: Drag,
    pub wire: Option<Wire>,
    pub canvas_height: u32,
}

impl<'a> EditorView<'a> {
    /// Whether the pointer is inside the palette band.
    pub open spec fn in_palette_band(self, mouse_y: int) -> bool {
        mouse_y > self.canvas_height - PALETTE_BAND
    }

    /// After the left button goes down at `(mouse_x, mouse_y)`.
    ///
    /// Inside the palette band, the palette item under the pointer is placed
    /// at the pointer and dragged. Elsewhere, the first gate under the
    /// pointer is dragged. Then, wherever the pointer is, a wire is picked up
    /// from the output pin under it, with the level the pin drives.
    pub open spec fn left_down(self, mouse_x: int, mouse_y: int) -> Self {
        let picked = if self.in_palette_band(mouse_y) {
            match first_hit(
                mouse_x,
                mouse_y,
                spec_palette_positions(self.canvas_height as int),
                SPRITE_WIDTH as int,
                SPRITE_HEIGHT as int,
            ) {
                Some(item) => EditorView {
                    circuit: self.circuit.spawn(
                        spec_palette_gate(item, Point::spec_new(mouse_x, mouse_y)),
                    ),
                    drag: Drag::New,
                    ..self
                },
                None => self,
            }
        } else {
            match first_hit(
                mouse_x,
                mouse_y,
                spec_positions(self.circuit.gates),
                SPRITE_WIDTH as int,
                SPRITE_HEIGHT as int,
            ) {
                Some(idx) => EditorView { drag: Drag::Old(idx as usize), ..self },
                None => self,
            }
        };
        match first_pin_hit(
            mouse_x,
            mouse_y,
            false,
            picked.circuit.gates,
            PIN_REACH as int,
            PIN_REACH as int,
        ) {
            Some((gate, pin)) => EditorView {
                wire: Some(
                    Wire {
                        start: picked.circuit.gates[gate].spec_output_position(pin),
                        on: picked.circuit.gates[gate].spec_output_is_on()[pin],
                    },
                ),
                ..picked
            },
            None => picked,
        }
    }

    /// After the left button comes up at `(mouse_x, mouse_y)`: dragging
    /// ends, and a wire that was picked up is dropped on the input pin under
    /// the pointer, if there is one.
    pub open spec fn left_up(self, mouse_x: int, mouse_y: int) -> Self {
        let released = EditorView { drag: Drag::Idle, ..self };
        match first_pin_hit(
            mouse_x,
            mouse_y,
            true,
            self.circuit.gates,
            PIN_REACH as int,
            PIN_REACH as int,
        ) {
            Some((gate, pin)) => match self.wire {
                Some(wire) => EditorView {
                    circuit: self.circuit.connect(wire.start, wire.on, gate, pin),
                    wire: None,
                    ..released
                },
                None => released,
            },
            None => released,
        }
    }

    /// The first gate whose sprite is under the pointer.
    pub open spec fn gate_under(self, mouse_x: int, mouse_y: int) -> Option<int> {
        first_hit(
            mouse_x,
            mouse_y,
            spec_positions(self.circuit.gates),
            SPRITE_WIDTH as int,
            SPRITE_HEIGHT as int,
        )
    }

    /// After the right button goes down: a gate under the pointer is
    /// deleted with its cables.
    pub open spec fn right_down(self, mouse_x: int, mouse_y: int) -> Self {
        match self.gate_under(mouse_x, mouse_y) {
            Some(idx) => EditorView { circuit: self.circuit.delete_gate(idx), ..self },
            None => self,
        }
    }

    /// After the middle button comes up: no gate and no cable is left.
    pub open spec fn middle_up(self) -> Self {
        EditorView { circuit: CircuitView::empty(), ..self }
    }

    /// After the toggle key goes down: a gate under the pointer is thrown
    /// if it is a switch.
    pub open spec fn toggle_key(self, mouse_x: int, mouse_y: int) -> Self {
        match self.gate_under(mouse_x, mouse_y) {
            Some(idx) => EditorView { circuit: self.circuit.toggle_switch(idx), ..self },
            None => self,
        }
    }

    /// After `event` with the pointer at `(mouse_x, mouse_y)`.
    pub open spec fn handle(self, event: Event, mouse_x: int, mouse_y: int) -> Self {
        match event {
            Event::LeftDown => self.left_down(mouse_x, mouse_y),
            Event::LeftUp => self.left_up(mouse_x, mouse_y),
            Event::RightDown => self.right_down(mouse_x, mouse_y),
            Event::MiddleUp => self.middle_up(),
            Event::ToggleKey => self.toggle_key(mouse_x, mouse_y),
            Event::Quit => self,
            Event::Other => self,
        }
    }

    /// After one tick with the pointer at `(mouse_x, mouse_y)`.
    pub open spec fn tick(self, mouse_x: int, mouse_y: int) -> Self {
        EditorView {
            circuit: self.circuit.tick(
                spec_dragged(
                    self.drag,
                    self.circuit.gates.len() as int,
                    Point::spec_new(mouse_x, mouse_y),
                ),
            ),
            ..self
        }
    }
}

/// The editor: a circuit, what the pointer drags, and the wire in hand.
pub struct Editor<'a> {
    pub circuit: Circuit<'a>,
    pub drag: Drag,
    pub wire: Option<Wire>,
    /// Height of the canvas in pixels.
    pub canvas_height: u32,
}

impl<'a> View for Editor<'a> {
    type V = EditorView<'a>;

    open spec fn view(&self) -> EditorView<'a> {
        EditorView {
            circuit: self.circuit@,
            drag: self.drag,
            wire: self.wire,
            canvas_height: self.canvas_height,
        }
    }
}

impl<'a> Editor<'a> {
    /// Every gate is well formed.
    pub open spec fn wf(&self) -> bool {
        self.circuit.wf()
    }

    /// Whether every gate is well formed: whether `wf` holds.
    pub fn is_well_formed(&self) -> (ok: bool)
        ensures
            ok == self.wf(),
    {
        self.circuit.is_well_formed()
    }

    /// An editor with an empty circuit on a canvas of the given height.
    pub fn new(canvas_height: u32) -> (editor: Self)
        ensures
            editor.wf(),
            editor@ == (EditorView {
                circuit: CircuitView::empty(),
                drag: Drag::Idle,
                wire: None,
                canvas_height,
            }),
            editor@.circuit.sound(),
    {
        Editor { circuit: Circuit::new(), drag: Drag::Idle, wire: None, canvas_height }
    }

    /// The first gate whose sprite is under the pointer.
    pub fn gate_under(&self, mouse_x: i32, mouse_y: i32) -> (found: Option<usize>)
        ensures
            found is Some <==> self@.gate_under(mouse_x as int, mouse_y as int) is Some,
            found matches Some(idx) ==> {
                &&& self@.gate_under(mouse_x as int, mouse_y as int) == Some(idx as int)
                &&& idx < self@.circuit.gates.len()
            },
    {
        let centres = positions(self.circuit.gates.as_slice());
        let found = match_mouse_pos(
            mouse_x,
            mouse_y,
            centres.as_slice(),
            SPRITE_WIDTH as i32,
            SPRITE_HEIGHT as i32,
        );
        proof {
            lemma_first_hit_from(
                mouse_x as int,
                mouse_y as int,
                centres@,
                SPRITE_WIDTH as int,
                SPRITE_HEIGHT as int,
                0,
            );
        }
        found
    }

    /// The left button went down at `(mouse_x, mouse_y)`.
    pub fn left_down(&mut self, mouse_x: i32, mouse_y: i32)
        requires
            old(self).wf(),
        ensures
            final(self)@ == old(self)@.left_down(mouse_x as int, mouse_y as int),
            final(self).wf(),
    {
        if mouse_y as i64 > self.canvas_height as i64 - PALETTE_BAND as i64 {
            let centres = palette_positions(self.canvas_height);
            match match_mouse_pos(
                mouse_x,
                mouse_y,
                centres.as_slice(),
                SPRITE_WIDTH as i32,
                SPRITE_HEIGHT as i32,
            ) {
                Some(item) => {
                    proof {
                        lemma_first_hit_from(
                            mouse_x as int,
                            mouse_y as int,
                            centres@,
                            SPRITE_WIDTH as int,
                            SPRITE_HEIGHT as int,
                            0,
                        );
                    }
                    self.circuit.spawn(palette_gate(item, Point::new(mouse_x, mouse_y)));
                    self.drag = Drag::New;
                },
                None => {},
            }
        } else {
            match self.gate_under(mouse_x, mouse_y) {
                Some(idx) => {
                    self.drag = Drag::Old(idx);
                },
                None => {},
            }
        }
        match match_mouse_pos_con(
            mouse_x,
            mouse_y,
            false,
            self.circuit.gates.as_slice(),
            PIN_REACH,
            PIN_REACH,
        ) {
            Some((gate, pin, level)) => {
                let pins = self.circuit.gates[gate].output_positions();
                let levels = self.circuit.gates[gate].output_is_on();
                self.wire = Some(Wire { start: pins[pin], on: levels[level] });
            },
            None => {},
        }
    }

    /// The left button came up at `(mouse_x, mouse_y)`.
    pub fn left_up(&mut self, mouse_x: i32, mouse_y: i32)
        requires
            old(self).wf(),
        ensures
            final(self)@ == old(self)@.left_up(mouse_x as int, mouse_y as int),
            final(self).wf(),
    {
        self.drag = Drag::Idle;
        match match_mouse_pos_con(
            mouse_x,
            mouse_y,
            true,
            self.circuit.gates.as_slice(),
            PIN_REACH,
            PIN_REACH,
        ) {
            Some((gate, pin, _)) => {
                match self.wire {
                    Some(wire) => {
                        self.circuit.connect(wire.start, wire.on, gate, pin);
                        self.wire = None;
                    },
                    None => {},
                }
            },
            None => {},
        }
    }

    /// The right button went down at `(mouse_x, mouse_y)`.
    pub fn right_down(&mut self, mouse_x: i32, mouse_y: i32)
        requires
            old(self).wf(),
        ensures
            final(self)@ == old(self)@.right_down(mouse_x as int, mouse_y as int),
            final(self).wf(),
    {
        match self.gate_under(mouse_x, mouse_y) {
            Some(idx) => {
                self.circuit.delete_gate(idx);
            },
            None => {},
        }
    }

    /// The middle button came up.
    pub fn middle_up(&mut self)
        ensures
            final(self)@ == old(self)@.middle_up(),
            final(self).wf(),
    {
        self.circuit.clear();
    }

    /// The toggle key went down with the pointer at `(mouse_x, mouse_y)`.
    pub fn toggle_key(&mut self, mouse_x: i32, mouse_y: i32)
        requires
            old(self).wf(),
        ensures
            final(self)@ == old(self)@.toggle_key(mouse_x as int, mouse_y as int),
            final(self).wf(),
    {
        match self.gate_under(mouse_x, mouse_y) {
            Some(idx) => {
                self.circuit.toggle_switch(idx);
            },
            None => {},
        }
    }

    /// Takes one event with the pointer at `(mouse_x, mouse_y)` and says
    /// whether the program goes on. Only `Event::Quit` ends it.
    pub fn handle_event(&mut self, event: Event, mouse_x: i32, mouse_y: i32) -> (action: Action)
        requires
            old(self).wf(),
        ensures
            final(self)@ == old(self)@.handle(event, mouse_x as int, mouse_y as int),
            final(self).wf(),
            action == (if event == Event::Quit {
                Action::Quit
            } else {
                Action::Continue
            }),
            old(self)@.circuit.single_driver() ==> final(self)@.circuit.single_driver(),
            old(self)@.circuit.sound() && final(self)@.circuit.ends_unshared()
                ==> final(self)@.circuit.sound(),
    {
        proof {
            if self@.circuit.single_driver() {
                lemma_handle_single_driver(self@, event, mouse_x as int, mouse_y as int);
            }
            if self@.circuit.sound() && self@.handle(
                event,
                mouse_x as int,
                mouse_y as int,
            ).circuit.ends_unshared() {
                lemma_handle_sound(self@, event, mouse_x as int, mouse_y as int);
            }
        }
        match event {
            Event::Quit => {
                return Action::Quit;
            },
            Event::LeftDown => self.left_down(mouse_x, mouse_y),
            Event::LeftUp => self.left_up(mouse_x, mouse_y),
            Event::RightDown => self.right_down(mouse_x, mouse_y),
            Event::MiddleUp => self.middle_up(),
            Event::ToggleKey => self.toggle_key(mouse_x, mouse_y),
            Event::Other => {},
        }
        Action::Continue
    }

    /// One tick with the pointer at `(mouse_x, mouse_y)`: the circuit's tick,
    /// in which the dragged gate follows the pointer.
    pub fn tick(&mut self, mouse_x: i32, mouse_y: i32)
        requires
            old(self).wf(),
        ensures
            final(self)@ == old(self)@.tick(mouse_x as int, mouse_y as int),
            final(self).wf(),
            final(self)@.circuit.attached(),
            final(self)@.circuit.lamps_show_levels(),
            old(self)@.circuit.single_driver() && final(self)@.circuit.ends_unshared()
                ==> final(self)@.circuit.single_driver(),
            old(self)@.circuit.passable() && final(self)@.circuit.ends_unshared()
                ==> final(self)@.circuit.passable(),
            old(self)@.circuit.sound() && final(self)@.circuit.ends_unshared()
                ==> final(self)@.circuit.sound(),
    {
        proof {
            lemma_editor_tick(self@, mouse_x as int, mouse_y as int);
        }
        let pointer = Point::new(mouse_x, mouse_y);
        let moved = match self.drag {
            Drag::Idle => None,
            Drag::New => {
                if self.circuit.gates.len() > 0 {
                    Some((self.circuit.gates.len() - 1, pointer))
                } else {
                    None
                }
            },
            Drag::Old(idx) => Some((idx, pointer)),
        };
        self.circuit.tick(moved);
    }
}

} // verus!
