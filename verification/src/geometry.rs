//! Integer points and boxes on the canvas.
//!
//! Coordinates and sizes are kept inside a range that leaves headroom in an
//! `i32`, so that the sum of a position and a size never overflows. Pins are
//! matched to cable ends by comparing points, so everything here is exact
//! integer arithmetic.

use vstd::prelude::*;

verus! {

/// Largest coordinate, and largest size, that a point or a box holds.
pub const MAX_COORDINATE: i32 = 0x3fff_ffff;

/// Smallest coordinate that a point or a box holds.
pub const MIN_COORDINATE: i32 = -0x4000_0000;

/// The coordinate nearest to `v` inside the accepted range.
pub open spec fn clamp_position(v: int) -> int {
    if v > MAX_COORDINATE {
        MAX_COORDINATE as int
    } else if v < MIN_COORDINATE {
        MIN_COORDINATE as int
    } else {
        v
    }
}

/// The size nearest to `v` that is at least one and inside the accepted range.
pub open spec fn clamp_size(v: int) -> int {
    if v <= 0 {
        1
    } else if v > MAX_COORDINATE {
        MAX_COORDINATE as int
    } else {
        v
    }
}

fn clamped_position(v: i32) -> (r: i32)
    ensures
        r == clamp_position(v as int),
{
    if v > MAX_COORDINATE {
        MAX_COORDINATE
    } else if v < MIN_COORDINATE {
        MIN_COORDINATE
    } else {
        v
    }
}

fn clamped_size(v: u32) -> (r: u32)
    ensures
        r == clamp_size(v as int),
{
    if v == 0 {
        1
    } else if v > 0x3fff_ffff {
        0x3fff_ffff
    } else {
        v
    }
}

/// A position on the canvas, in pixels.
#[derive(Clone, Copy, Debug, PartialEq, Eq, Structural)]
pub struct Point {
    x: i32,
    y: i32,
}

impl Point {
    #[verifier::type_invariant]
    spec fn in_range(self) -> bool {
        &&& MIN_COORDINATE <= self.x <= MAX_COORDINATE
        &&& MIN_COORDINATE <= self.y <= MAX_COORDINATE
    }

    /// Horizontal coordinate.
    pub closed spec fn spec_x(self) -> int {
        self.x as int
    }

    /// Vertical coordinate.
    pub closed spec fn spec_y(self) -> int {
        self.y as int
    }

    /// The point whose coordinates are `x` and `y`, each clamped into range.
    pub closed spec fn spec_new(x: int, y: int) -> Point {
        Point { x: clamp_position(x) as i32, y: clamp_position(y) as i32 }
    }

    /// The point at `(x, y)`, each coordinate clamped into range.
    pub fn new(x: i32, y: i32) -> (p: Point)
        ensures
            p == Point::spec_new(x as int, y as int),
    {
        Point { x: clamped_position(x), y: clamped_position(y) }
    }

    /// The point nearest to `(x, y)` whose coordinates are in range.
    pub fn clamped(x: i64, y: i64) -> (p: Point)
        ensures
            p == Point::spec_new(x as int, y as int),
    {
        let cx: i32 = if x > MAX_COORDINATE as i64 {
            MAX_COORDINATE
        } else if x < MIN_COORDINATE as i64 {
            MIN_COORDINATE
        } else {
            x as i32
        };
        let cy: i32 = if y > MAX_COORDINATE as i64 {
            MAX_COORDINATE
        } else if y < MIN_COORDINATE as i64 {
            MIN_COORDINATE
        } else {
            y as i32
        };
        Point { x: cx, y: cy }
    }

    /// Horizontal coordinate.
    pub fn x(self) -> (r: i32)
        ensures
            r == self.spec_x(),
            MIN_COORDINATE <= r <= MAX_COORDINATE,
    {
        proof {
            use_type_invariant(&self);
        }
        self.x
    }

    /// Vertical coordinate.
    pub fn y(self) -> (r: i32)
        ensures
            r == self.spec_y(),
            MIN_COORDINATE <= r <= MAX_COORDINATE,
    {
        proof {
            use_type_invariant(&self);
        }
        self.y
    }

    /// The coordinates of a built point are the clamped arguments.
    pub proof fn lemma_new_coordinates(x: int, y: int)
        ensures
            Point::spec_new(x, y).spec_x() == clamp_position(x),
            Point::spec_new(x, y).spec_y() == clamp_position(y),
    {
    }

    /// Two points are equal exactly when both coordinates agree.
    pub proof fn lemma_equal_by_coordinates(p: Point, q: Point)
        ensures
            p == q <==> (p.spec_x() == q.spec_x() && p.spec_y() == q.spec_y()),
    {
    }
}

/// An axis-aligned box: its top-left corner and its size. A box is never
/// empty: width and height are at least one.
#[derive(Clone, Copy, Debug, PartialEq, Eq, Structural)]
pub struct Rect {
    x: i32,
    y: i32,
    w: u32,
    h: u32,
}

impl Rect {
    #[verifier::type_invariant]
    spec fn in_range(self) -> bool {
        &&& MIN_COORDINATE <= self.x <= MAX_COORDINATE
        &&& MIN_COORDINATE <= self.y <= MAX_COORDINATE
        &&& 1 <= self.w <= MAX_COORDINATE
        &&& 1 <= self.h <= MAX_COORDINATE
    }

    /// Horizontal coordinate of the left edge.
    pub closed spec fn spec_x(self) -> int {
        self.x as int
    }

    /// Vertical coordinate of the top edge.
    pub closed spec fn spec_y(self) -> int {
        self.y as int
    }

    /// Width in pixels.
    pub closed spec fn spec_width(self) -> int {
        self.w as int
    }

    /// Height in pixels.
    pub closed spec fn spec_height(self) -> int {
        self.h as int
    }

    /// The box with the given corner and size, each clamped into range.
    pub closed spec fn spec_new(x: int, y: int, width: int, height: int) -> Rect {
        Rect {
            x: clamp_position(x) as i32,
            y: clamp_position(y) as i32,
            w: clamp_size(width) as u32,
            h: clamp_size(height) as u32,
        }
    }

    /// The box with top-left corner `(x, y)` and the given size. Coordinates
    /// are clamped into range; a size of zero becomes one and a size above the
    /// range becomes the largest size.
    pub fn new(x: i32, y: i32, width: u32, height: u32) -> (r: Rect)
        ensures
            r == Rect::spec_new(x as int, y as int, width as int, height as int),
    {
        Rect {
            x: clamped_position(x),
            y: clamped_position(y),
            w: clamped_size(width),
            h: clamped_size(height),
        }
    }

    /// Horizontal coordinate of the left edge.
    pub fn x(&self) -> (r: i32)
        ensures
            r == self.spec_x(),
            MIN_COORDINATE <= r <= MAX_COORDINATE,
    {
        proof {
            use_type_invariant(self);
        }
        self.x
    }

    /// Vertical coordinate of the top edge.
    pub fn y(&self) -> (r: i32)
        ensures
            r == self.spec_y(),
            MIN_COORDINATE <= r <= MAX_COORDINATE,
    {
        proof {
            use_type_invariant(self);
        }
        self.y
    }

    /// Width in pixels.
    pub fn width(&self) -> (r: u32)
        ensures
            r == self.spec_width(),
            1 <= r <= MAX_COORDINATE,
    {
        proof {
            use_type_invariant(self);
        }
        self.w
    }

    /// Height in pixels.
    pub fn height(&self) -> (r: u32)
        ensures
            r == self.spec_height(),
            1 <= r <= MAX_COORDINATE,
    {
        proof {
            use_type_invariant(self);
        }
        self.h
    }

    /// The corner and size of a built box are the clamped arguments.
    pub proof fn lemma_new_fields(x: int, y: int, width: int, height: int)
        ensures
            Rect::spec_new(x, y, width, height).spec_x() == clamp_position(x),
            Rect::spec_new(x, y, width, height).spec_y() == clamp_position(y),
            Rect::spec_new(x, y, width, height).spec_width() == clamp_size(width),
            Rect::spec_new(x, y, width, height).spec_height() == clamp_size(height),
    {
    }
}

} // verus!
