//! Hit tests against gates, pins and buttons, and the colours of cables.

use crate::cable::State;
use crate::gate::Gate;
use crate::geometry::Point;
use vstd::prelude::*;

verus! {

/// An opaque colour, eight bits per channel.
#[derive(Clone, Copy, Debug, PartialEq, Eq, Structural)]
pub struct Color {
    pub r: u8,
    pub g: u8,
    pub b: u8,
}

/// Colour of a cable that carries a high level.
pub open spec fn spec_middle_blue_green() -> Color {
    Color { r: 125, g: 226, b: 209 }
}

/// Colour of a cable that carries a low level.
pub open spec fn spec_eerie_black() -> Color {
    Color { r: 19, g: 21, b: 21 }
}

/// The colour a cable is drawn in.
pub open spec fn spec_cable_color(state: State) -> Color {
    if state == State::On {
        spec_middle_blue_green()
    } else {
        spec_eerie_black()
    }
}

/// The colour a cable is drawn in: bright while it carries a high level,
/// dark otherwise.
pub fn cable_color(state: State) -> (color: Color)
    ensures
        color == spec_cable_color(state),
{
    match state {
        State::On => Color { r: 125, g: 226, b: 209 },
        State::Off => Color { r: 19, g: 21, b: 21 },
    }
}

/// Half of `v`, rounded towards zero.
pub open spec fn half(v: int) -> int {
    if v >= 0 {
        v / 2
    } else {
        -((-v) / 2)
    }
}

/// Whether the pointer at `(mouse_x, mouse_y)` hits the box of the given size
/// centred on `pos`. The horizontal reach is half the height and the vertical
/// reach half the width: boxes are square wherever this is used.
pub open spec fn hits(mouse_x: int, mouse_y: int, pos: Point, width: int, height: int) -> bool {
    &&& mouse_x > pos.spec_x() - half(height)
    &&& mouse_x < pos.spec_x() + half(height)
    &&& mouse_y > pos.spec_y() - half(width)
    &&& mouse_y < pos.spec_y() + half(width)
}

/// Index of the first position at or after `from` that the pointer hits.
pub open spec fn first_hit_from(
    mouse_x: int,
    mouse_y: int,
    positions: Seq<Point>,
    width: int,
    height: int,
    from: int,
) -> Option<int>
    decreases positions.len() - from,
{
    if from < 0 || from >= positions.len() {
        None
    } else if hits(mouse_x, mouse_y, positions[from], width, height) {
        Some(from)
    } else {
        first_hit_from(mouse_x, mouse_y, positions, width, height, from + 1)
    }
}

/// Index of the first position that the pointer hits.
pub open spec fn first_hit(
    mouse_x: int,
    mouse_y: int,
    positions: Seq<Point>,
    width: int,
    height: int,
) -> Option<int> {
    first_hit_from(mouse_x, mouse_y, positions, width, height, 0)
}

/// `first_hit_from` finds a hit position, no position between `from` and it
/// is hit, and it finds none only where none is hit.
pub proof fn lemma_first_hit_from(
    mouse_x: int,
    mouse_y: int,
    positions: Seq<Point>,
    width: int,
    height: int,
    from: int,
)
    requires
        0 <= from,
    ensures
        match first_hit_from(mouse_x, mouse_y, positions, width, height, from) {
            Some(i) => {
                &&& from <= i < positions.len()
                &&& hits(mouse_x, mouse_y, positions[i], width, height)
                &&& forall|j: int| from <= j < i ==> !hits(mouse_x, mouse_y, positions[j], width, height)
            },
            None => forall|j: int|
                from <= j < positions.len() ==> !hits(
                    mouse_x,
                    mouse_y,
                    positions[j],
                    width,
                    height,
                ),
        },
    decreases positions.len() - from,
{
    if from < positions.len() && !hits(mouse_x, mouse_y, positions[from], width, height) {
        lemma_first_hit_from(mouse_x, mouse_y, positions, width, height, from + 1);
    }
}

fn half_of(v: i32) -> (r: i32)
    ensures
        r == half(v as int),
        -0x4000_0000 <= r <= 0x3fff_ffff,
{
    v / 2
}

fn is_hit(mouse_x: i32, mouse_y: i32, pos: Point, width: i32, height: i32) -> (r: bool)
    ensures
        r == hits(mouse_x as int, mouse_y as int, pos, width as int, height as int),
{
    let reach_x = half_of(height);
    let reach_y = half_of(width);
    mouse_x > pos.x() - reach_x && mouse_x < pos.x() + reach_x && mouse_y > pos.y() - reach_y
        && mouse_y < pos.y() + reach_y
}

/// The index of the first of `positions` whose box the pointer hits, if any.
pub fn match_mouse_pos(
    mouse_pos_x: i32,
    mouse_pos_y: i32,
    positions: &[Point],
    width: i32,
    height: i32,
) -> (found: Option<usize>)
    ensures
        found is Some <==> first_hit(
            mouse_pos_x as int,
            mouse_pos_y as int,
            positions@,
            width as int,
            height as int,
        ) is Some,
        found matches Some(i) ==> first_hit(
            mouse_pos_x as int,
            mouse_pos_y as int,
            positions@,
            width as int,
            height as int,
        ) == Some(i as int),
{
    let mut i: usize = 0;
    while i < positions.len()
        invariant
            i <= positions@.len(),
            first_hit(
                mouse_pos_x as int,
                mouse_pos_y as int,
                positions@,
                width as int,
                height as int,
            ) == first_hit_from(
                mouse_pos_x as int,
                mouse_pos_y as int,
                positions@,
                width as int,
                height as int,
                i as int,
            ),
        decreases positions@.len() - i,
    {
        if is_hit(mouse_pos_x, mouse_pos_y, positions[i], width, height) {
            return Some(i);
        }
        i += 1;
    }
    None
}

/// The pins of `gate` on the side that is searched.
pub open spec fn pins_of(gate: Gate, is_input: bool) -> Seq<Point> {
    if is_input {
        gate.spec_input_positions()
    } else {
        gate.spec_output_positions()
    }
}

/// The first gate at or after `from`, and its first pin, that the pointer
/// hits.
pub open spec fn first_pin_hit_from(
    mouse_x: int,
    mouse_y: int,
    is_input: bool,
    gates: Seq<Gate>,
    width: int,
    height: int,
    from: int,
) -> Option<(int, int)>
    decreases gates.len() - from,
{
    if from < 0 || from >= gates.len() {
        None
    } else {
        match first_hit(mouse_x, mouse_y, pins_of(gates[from], is_input), width, height) {
            Some(pin) => Some((from, pin)),
            None => first_pin_hit_from(mouse_x, mouse_y, is_input, gates, width, height, from + 1),
        }
    }
}

/// The first gate, and its first pin, that the pointer hits.
pub open spec fn first_pin_hit(
    mouse_x: int,
    mouse_y: int,
    is_input: bool,
    gates: Seq<Gate>,
    width: int,
    height: int,
) -> Option<(int, int)> {
    first_pin_hit_from(mouse_x, mouse_y, is_input, gates, width, height, 0)
}

/// `first_pin_hit_from` finds a gate and a pin of it that is hit, and only
/// gates from `from` on.
pub proof fn lemma_first_pin_hit_from(
    mouse_x: int,
    mouse_y: int,
    is_input: bool,
    gates: Seq<Gate>,
    width: int,
    height: int,
    from: int,
)
    requires
        0 <= from,
    ensures
        first_pin_hit_from(mouse_x, mouse_y, is_input, gates, width, height, from) matches Some(
            (gate, pin),
        ) ==> {
            &&& from <= gate < gates.len()
            &&& 0 <= pin < pins_of(gates[gate], is_input).len()
            &&& hits(mouse_x, mouse_y, pins_of(gates[gate], is_input)[pin], width, height)
        },
    decreases gates.len() - from,
{
    if from < gates.len() {
        lemma_first_hit_from(mouse_x, mouse_y, pins_of(gates[from], is_input), width, height, 0);
        lemma_first_pin_hit_from(mouse_x, mouse_y, is_input, gates, width, height, from + 1);
    }
}

/// The first gate with a pin under the pointer, searched among input pins or
/// among output pins. Returns that gate's index, the pin's index, and, for
/// output pins, the pin's index once more as the index of the output level
/// that the pin carries (zero for input pins).
pub fn match_mouse_pos_con(
    mouse_pos_x: i32,
    mouse_pos_y: i32,
    is_input: bool,
    gates: &[Gate],
    width: i32,
    height: i32,
) -> (found: Option<(usize, usize, usize)>)
    requires
        forall|g: int| 0 <= g < gates@.len() ==> (#[trigger] gates@[g]).wf(),
    ensures
        found is Some <==> first_pin_hit(
            mouse_pos_x as int,
            mouse_pos_y as int,
            is_input,
            gates@,
            width as int,
            height as int,
        ) is Some,
        found matches Some((gate, pin, level)) ==> {
            &&& first_pin_hit(
                mouse_pos_x as int,
                mouse_pos_y as int,
                is_input,
                gates@,
                width as int,
                height as int,
            ) == Some((gate as int, pin as int))
            &&& gate < gates@.len()
            &&& pin < pins_of(gates@[gate as int], is_input).len()
            &&& level == (if is_input {
                0
            } else {
                pin
            })
        },
{
    let mut g: usize = 0;
    while g < gates.len()
        invariant
            g <= gates@.len(),
            forall|i: int| 0 <= i < gates@.len() ==> (#[trigger] gates@[i]).wf(),
            first_pin_hit(
                mouse_pos_x as int,
                mouse_pos_y as int,
                is_input,
                gates@,
                width as int,
                height as int,
            ) == first_pin_hit_from(
                mouse_pos_x as int,
                mouse_pos_y as int,
                is_input,
                gates@,
                width as int,
                height as int,
                g as int,
            ),
        decreases gates@.len() - g,
    {
        let pins = if is_input {
            gates[g].input_positions()
        } else {
            gates[g].output_positions()
        };
        match match_mouse_pos(mouse_pos_x, mouse_pos_y, pins.as_slice(), width, height) {
            Some(pin) => {
                proof {
                    lemma_first_hit_from(
                        mouse_pos_x as int,
                        mouse_pos_y as int,
                        pins@,
                        width as int,
                        height as int,
                        0,
                    );
                }
                let level = if is_input {
                    0
                } else {
                    pin
                };
                return Some((g, pin, level));
            },
            None => {},
        }
        g += 1;
    }
    None
}

/// Whether the pointer is inside the button of the given size that sits ten
/// pixels below the top edge and ten pixels left of the right edge of a
/// window `window_width` pixels wide.
pub open spec fn spec_match_create_pos(
    window_width: int,
    mouse_x: int,
    mouse_y: int,
    width: int,
    height: int,
) -> bool {
    &&& mouse_x > window_width - width - 10
    &&& mouse_x < window_width - 10
    &&& mouse_y > 10
    &&& mouse_y < height + 10
}

/// Whether the pointer is inside the create button.
pub fn match_create_pos(
    window_width: u32,
    mouse_pos_x: i32,
    mouse_pos_y: i32,
    width: i32,
    height: i32,
) -> (inside: bool)
    ensures
        inside == spec_match_create_pos(
            window_width as int,
            mouse_pos_x as int,
            mouse_pos_y as int,
            width as int,
            height as int,
        ),
{
    let right: i64 = window_width as i64 - 10;
    let x: i64 = mouse_pos_x as i64;
    let y: i64 = mouse_pos_y as i64;
    x > right - width as i64 && x < right && y > 10 && y < height as i64 + 10
}

} // verus!
