//! The model behind an editor and live simulator for circuits of logic gates.
//!
//! Gates sit on a canvas; cables join an output pin to an input pin and carry
//! a level; an editor turns pointer and key events into edits of the circuit
//! and passes levels through the cables once per tick. Windows, sprites and
//! drawing are left to the program around this library.
//!
//! - [`operations`]: the boolean functions that gates compute.
//! - [`bits`]: input levels packed into a mask.
//! - [`geometry`]: points and boxes.
//! - [`gate`], [`cable`]: the parts of a circuit.
//! - [`drawing`]: hit tests and cable colours.
//! - [`model`]: what every step does to a circuit, over sequences.
//! - [`circuit`]: the circuit and its steps.
//! - [`editor`]: what every event does.
//! - [`invariants`]: what every step keeps.

pub mod bits;
pub mod cable;
pub mod circuit;
pub mod drawing;
pub mod editor;
pub mod gate;
pub mod geometry;
pub mod invariants;
pub mod model;
pub mod operations;
