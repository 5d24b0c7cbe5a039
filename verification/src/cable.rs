//! Cables: directed edges from an output pin to an input pin.

use crate::geometry::Point;
use vstd::prelude::*;

verus! {

/// The level that a cable carries.
#[derive(Clone, Copy, Debug, PartialEq, Eq, Structural)]
pub enum State {
    On,
    Off,
}

impl State {
    /// `On` for a high level, `Off` for a low one.
    pub open spec fn spec_from_level(level: bool) -> State {
        if level {
            State::On
        } else {
            State::Off
        }
    }

    /// `On` for a high level, `Off` for a low one.
    pub fn from_level(level: bool) -> (s: State)
        ensures
            s == State::spec_from_level(level),
    {
        if level {
            State::On
        } else {
            State::Off
        }
    }

    /// Whether the level is high.
    pub open spec fn spec_is_on(self) -> bool {
        self == State::On
    }

    /// Whether the level is high.
    pub fn is_on(self) -> (r: bool)
        ensures
            r == self.spec_is_on(),
    {
        match self {
            State::On => true,
            State::Off => false,
        }
    }
}

/// A cable. Its ends are copies of pin coordinates: the cable belongs to the
/// pins whose coordinates equal them.
#[derive(Clone, Copy, Debug, PartialEq, Eq, Structural)]
pub struct Cable {
    pub state: State,
    pub start_point: Point,
    pub end_point: Point,
}

impl Cable {
    /// A cable from `start_point` to `end_point` that carries `state`.
    pub fn new(state: bool, start_point: Point, end_point: Point) -> (c: Cable)
        ensures
            c == (Cable { state: State::spec_from_level(state), start_point, end_point }),
    {
        Cable { state: State::from_level(state), start_point, end_point }
    }

    /// Two cables are the same edge when they join the same pair of points,
    /// whatever they carry.
    pub open spec fn spec_same_edge(self, other: Cable) -> bool {
        self.start_point == other.start_point && self.end_point == other.end_point
    }

    /// Whether both cables join the same pair of points.
    pub fn same_edge(&self, other: &Cable) -> (r: bool)
        ensures
            r == self.spec_same_edge(*other),
    {
        self.start_point == other.start_point && self.end_point == other.end_point
    }
}

} // verus!
