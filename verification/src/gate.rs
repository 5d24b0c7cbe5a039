//! Gates: positioned instances of a kind, with their pins and their stored
//! input levels.

use crate::bits::{bit_is_set, convert_u64_in_bools, decode_bits, test_bit, MAX_PINS};
use crate::geometry::{Point, Rect, MAX_COORDINATE, MIN_COORDINATE};
use crate::operations::BoolFn;
use vstd::prelude::*;

verus! {

/// Extra height, in pixels, over which pins are spread beyond the sprite, so
/// that no pin lies on the sprite's top or bottom row.
pub const OFFSET: i32 = 8;

/// The kind of a gate.
#[derive(Clone, Copy, Debug, PartialEq, Eq, Structural)]
pub enum GateType {
    Switch,
    And,
    Or,
    Not,
    Nand,
    XOr,
    Lamp,
    Custom,
}

/// Which sprite a gate is drawn with.
#[derive(Clone, Copy, Debug, PartialEq, Eq, Structural)]
pub enum Texture {
    SwitchOn,
    SwitchOff,
    And,
    Or,
    Not,
    Nand,
    Xor,
}

/// Number of levels that a gate's stored mask is decoded into. A gate without
/// input pins still stores one level: the position of a switch.
pub open spec fn decode_width(inputs: int) -> int {
    if inputs == 0 {
        1
    } else {
        inputs
    }
}

/// Where pin `k` (counted from zero, top to bottom) of `count` pins sits for a
/// sprite of box `sprite` centred on `position`: on the left edge for inputs,
/// on the right edge for outputs, and evenly spaced over the sprite's height
/// plus `OFFSET`.
pub open spec fn pin_position(
    position: Point,
    sprite: Rect,
    count: int,
    k: int,
    on_left: bool,
) -> Point {
    let half_width = sprite.spec_width() / 2;
    let span = sprite.spec_height() + OFFSET;
    let x = if on_left {
        position.spec_x() - half_width
    } else {
        position.spec_x() + half_width
    };
    let y = position.spec_y() - span / 2 + (k + 1) * (span / (count + 1));
    Point::spec_new(x, y)
}

/// All `count` pins on one edge, top to bottom.
pub open spec fn pin_positions(position: Point, sprite: Rect, count: int, on_left: bool) -> Seq<
    Point,
> {
    Seq::new(count as nat, |k: int| pin_position(position, sprite, count, k, on_left))
}

proof fn lemma_pin_offset_bounded(span: int, count: int, i: int)
    requires
        0 <= span,
        0 <= count,
        0 <= i <= count + 1,
    ensures
        0 <= i * (span / (count + 1)) <= span,
{
    let step = span / (count + 1);
    assert(0 <= step && step * (count + 1) <= span) by (nonlinear_arith)
        requires
            step == span / (count + 1),
            0 <= span,
            0 < count + 1,
    ;
    assert(0 <= i * step <= step * (count + 1)) by (nonlinear_arith)
        requires
            0 <= step,
            0 <= i <= count + 1,
    ;
}

fn pins_on_edge(position: Point, sprite: Rect, count: usize, on_left: bool) -> (pins: Vec<Point>)
    requires
        count <= MAX_PINS,
    ensures
        pins@ == pin_positions(position, sprite, count as int, on_left),
{
    let half_width: i32 = (sprite.width() / 2) as i32;
    let span: i32 = sprite.height() as i32 + OFFSET;
    let step: i32 = span / (count as i32 + 1);
    let x: i32 = if on_left {
        position.x() - half_width
    } else {
        position.x() + half_width
    };
    let centre_y: i32 = position.y();
    let top: i32 = centre_y - span / 2;
    let mut pins: Vec<Point> = Vec::new();
    let mut i: usize = 1;
    while i < count + 1
        invariant
            1 <= i <= count + 1,
            count <= MAX_PINS,
            0 <= span <= MAX_COORDINATE + OFFSET,
            step == span as int / (count as int + 1),
            span == sprite.spec_height() + OFFSET,
            x == (if on_left {
                position.spec_x() - sprite.spec_width() / 2
            } else {
                position.spec_x() + sprite.spec_width() / 2
            }),
            centre_y == position.spec_y(),
            MIN_COORDINATE <= centre_y <= MAX_COORDINATE,
            top == centre_y - span as int / 2,
            pins@.len() == i - 1,
            forall|k: int|
                0 <= k < i - 1 ==> pins@[k] == pin_position(
                    position,
                    sprite,
                    count as int,
                    k,
                    on_left,
                ),
        decreases count + 1 - i,
    {
        proof {
            lemma_pin_offset_bounded(span as int, count as int, i as int);
        }
        let y: i32 = top + i as i32 * step;
        pins.push(Point::new(x, y));
        i += 1;
    }
    pins
}

/// A gate on the canvas.
#[derive(Clone, Copy, Debug)]
pub struct Gate<'a> {
    pub gatetype: GateType,
    pub gatename: &'a str,
    /// Centre of the sprite.
    pub position: Point,
    pub texture: Texture,
    /// Box of the sprite; only its size is read.
    pub sprite: Rect,
    /// Number of input pins.
    pub inputs: usize,
    /// Number of output pins.
    pub outputs: usize,
    pub comp_func: BoolFn,
    /// Levels on the input pins, bit `k` for pin `k`; absent while no input
    /// is wired. A switch keeps its own level in bit 0.
    pub input_values: Option<u64>,
}

impl<'a> Gate<'a> {
    /// What every gate satisfies: at most 64 pins on each side, an evaluator
    /// that fits the pin counts, and the pin counts that its kind fixes.
    pub open spec fn wf(&self) -> bool {
        &&& self.inputs <= MAX_PINS
        &&& self.outputs <= MAX_PINS
        &&& self.comp_func.spec_outputs() == self.outputs
        &&& self.comp_func.spec_min_inputs() <= decode_width(self.inputs as int)
        &&& self.gatetype == GateType::Switch ==> self.inputs == 0 && self.outputs == 1
        &&& self.gatetype == GateType::Lamp ==> self.inputs == 1 && self.outputs == 0
    }

    /// Whether the fields fit together: whether `wf` holds.
    pub fn is_well_formed(&self) -> (ok: bool)
        ensures
            ok == self.wf(),
    {
        let width: usize = if self.inputs == 0 {
            1
        } else {
            self.inputs
        };
        let fits_pins = self.inputs <= MAX_PINS && self.outputs <= MAX_PINS;
        let fits_evaluator = self.comp_func.outputs() == self.outputs
            && self.comp_func.min_inputs() <= width;
        let fits_kind = match self.gatetype {
            GateType::Switch => self.inputs == 0 && self.outputs == 1,
            GateType::Lamp => self.inputs == 1 && self.outputs == 0,
            _ => true,
        };
        fits_pins && fits_evaluator && fits_kind
    }

    /// A gate with the given fields. It is well formed where the fields
    /// satisfy `wf`; every method that reads pins or levels asks for that.
    pub fn new(
        gatetype: GateType,
        gatename: &'a str,
        position: Point,
        texture: Texture,
        sprite: Rect,
        inputs: usize,
        outputs: usize,
        comp_func: BoolFn,
        input_values: Option<u64>,
    ) -> (gate: Self)
        ensures
            gate == (Gate {
                gatetype,
                gatename,
                position,
                texture,
                sprite,
                inputs,
                outputs,
                comp_func,
                input_values,
            }),
    {
        Self {
            gatetype,
            gatename,
            position,
            texture,
            sprite,
            inputs,
            outputs,
            comp_func,
            input_values,
        }
    }

    /// Position of input pin `k`, counted from zero.
    pub open spec fn spec_input_position(&self, k: int) -> Point {
        pin_position(self.position, self.sprite, self.inputs as int, k, true)
    }

    /// Position of output pin `k`, counted from zero.
    pub open spec fn spec_output_position(&self, k: int) -> Point {
        pin_position(self.position, self.sprite, self.outputs as int, k, false)
    }

    /// Positions of the input pins, top to bottom.
    pub open spec fn spec_input_positions(&self) -> Seq<Point> {
        pin_positions(self.position, self.sprite, self.inputs as int, true)
    }

    /// Positions of the output pins, top to bottom.
    pub open spec fn spec_output_positions(&self) -> Seq<Point> {
        pin_positions(self.position, self.sprite, self.outputs as int, false)
    }

    /// Positions of the input pins, top to bottom. They depend on this gate's
    /// position, sprite and input count alone.
    pub fn input_positions(&self) -> (pins: Vec<Point>)
        requires
            self.wf(),
        ensures
            pins@ == self.spec_input_positions(),
            pins@.len() == self.inputs,
    {
        pins_on_edge(self.position, self.sprite, self.inputs, true)
    }

    /// Positions of the output pins, top to bottom. They depend on this gate's
    /// position, sprite and output count alone.
    pub fn output_positions(&self) -> (pins: Vec<Point>)
        requires
            self.wf(),
        ensures
            pins@ == self.spec_output_positions(),
            pins@.len() == self.outputs,
    {
        pins_on_edge(self.position, self.sprite, self.outputs, false)
    }

    /// The levels that the stored mask decodes into.
    pub open spec fn spec_input_levels(&self) -> Seq<bool>
        recommends
            self.input_values is Some,
    {
        decode_bits(self.input_values->0, decode_width(self.inputs as int))
    }

    /// Levels on the output pins: the evaluator applied to the decoded mask,
    /// or all low while no mask is stored.
    pub open spec fn spec_output_is_on(&self) -> Seq<bool> {
        if self.input_values is Some {
            self.comp_func.spec_eval(self.spec_input_levels())
        } else {
            Seq::new(self.outputs as nat, |k: int| false)
        }
    }

    /// Levels on the output pins, one per pin.
    pub fn output_is_on(&self) -> (levels: Vec<bool>)
        requires
            self.wf(),
        ensures
            levels@ == self.spec_output_is_on(),
            levels@.len() == self.outputs,
    {
        match self.input_values {
            Some(mask) => {
                let width: usize = if self.inputs == 0 {
                    1
                } else {
                    self.inputs
                };
                let inputs = convert_u64_in_bools(mask, width);
                self.comp_func.eval(inputs.as_slice())
            },
            None => {
                let mut levels: Vec<bool> = Vec::new();
                let mut k: usize = 0;
                while k < self.outputs
                    invariant
                        k <= self.outputs,
                        levels@.len() == k,
                        forall|i: int| 0 <= i < k ==> !levels@[i],
                    decreases self.outputs - k,
                {
                    levels.push(false);
                    k += 1;
                }
                levels
            },
        }
    }

    /// Whether a lamp is lit: bit 0 of its stored mask.
    pub open spec fn spec_evaluate_as_lamp(&self) -> bool {
        self.input_values is Some && bit_is_set(self.input_values->0, 0)
    }

    /// Whether a lamp is lit: the level on its single input.
    pub fn evaluate_as_lamp(&self) -> (lit: bool)
        ensures
            lit == self.spec_evaluate_as_lamp(),
    {
        match self.input_values {
            Some(mask) => test_bit(mask, 0),
            None => false,
        }
    }
}

} // verus!
