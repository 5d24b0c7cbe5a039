//! The boolean functions that gates compute.
//!
//! Every function here maps the levels on a gate's input pins to the levels
//! on its output pins. They read nothing but their argument, so the result is
//! a function of the input levels alone.

use vstd::prelude::*;

verus! {

/// Every level in `s` is high. Holds of the empty sequence.
pub open spec fn all_high(s: Seq<bool>) -> bool {
    forall|k: int| 0 <= k < s.len() ==> s[k]
}

/// Every level in `s` is low. Holds of the empty sequence.
pub open spec fn all_low(s: Seq<bool>) -> bool {
    forall|k: int| 0 <= k < s.len() ==> !s[k]
}

/// Sum bit of a full adder.
pub open spec fn adder_sum(a: bool, b: bool, carry_in: bool) -> bool {
    carry_in != (a != b)
}

/// Carry-out bit of a full adder.
pub open spec fn adder_carry(a: bool, b: bool, carry_in: bool) -> bool {
    (a && b) || (carry_in && (a != b))
}

/// Whether every element of `inputs` equals `level`.
fn every_input_is(inputs: &[bool], level: bool) -> (r: bool)
    ensures
        r == (forall|k: int| 0 <= k < inputs@.len() ==> inputs@[k] == level),
{
    let mut i: usize = 0;
    while i < inputs.len()
        invariant
            i <= inputs@.len(),
            forall|k: int| 0 <= k < i ==> inputs@[k] == level,
        decreases inputs@.len() - i,
    {
        if inputs[i] != level {
            return false;
        }
        i += 1;
    }
    true
}

/// A switch passes its stored level through; a lamp shows the level on its
/// single input.
pub fn switch_lamp_func(inputs: &[bool]) -> (out: Vec<bool>)
    requires
        inputs@.len() >= 1,
    ensures
        out@ == seq![inputs@[0]],
{
    vec![inputs[0]]
}

/// High exactly when every input is high.
pub fn and_func(inputs: &[bool]) -> (out: Vec<bool>)
    ensures
        out@ == seq![all_high(inputs@)],
{
    vec![every_input_is(inputs, true)]
}

/// High exactly when some input is high.
pub fn or_func(inputs: &[bool]) -> (out: Vec<bool>)
    ensures
        out@ == seq![!all_low(inputs@)],
{
    vec![!every_input_is(inputs, false)]
}

/// High exactly when every input is low.
pub fn not_func(inputs: &[bool]) -> (out: Vec<bool>)
    ensures
        out@ == seq![all_low(inputs@)],
{
    vec![every_input_is(inputs, false)]
}

/// High exactly when some input is low.
pub fn nand_func(inputs: &[bool]) -> (out: Vec<bool>)
    ensures
        out@ == seq![!all_high(inputs@)],
{
    vec![!every_input_is(inputs, true)]
}

/// High exactly when the inputs disagree: not all high and not all low.
pub fn xor_func(inputs: &[bool]) -> (out: Vec<bool>)
    ensures
        out@ == seq![!(all_high(inputs@) || all_low(inputs@))],
{
    vec![!(every_input_is(inputs, true) || every_input_is(inputs, false))]
}

/// A lamp drives nothing: it has no output pins.
pub fn lamp_func(inputs: &[bool]) -> (out: Vec<bool>)
    ensures
        out@ == Seq::<bool>::empty(),
{
    Vec::new()
}

/// Full adder over inputs `a`, `b`, `carry_in` (in pin order): the outputs are
/// the sum bit, then the carry-out bit.
pub fn add_func(inputs: &[bool]) -> (out: Vec<bool>)
    requires
        inputs@.len() >= 3,
    ensures
        out@ == seq![
            adder_sum(inputs@[0], inputs@[1], inputs@[2]),
            adder_carry(inputs@[0], inputs@[1], inputs@[2]),
        ],
{
    let a = inputs[0];
    let b = inputs[1];
    let carry_in = inputs[2];
    let a_xor_b = a != b;
    vec![carry_in != a_xor_b, (a && b) || (carry_in && a_xor_b)]
}

/// The evaluator bound to a gate: which boolean function it computes.
#[derive(Clone, Copy, Debug, PartialEq, Eq, Structural)]
pub enum BoolFn {
    /// Passes the stored level through.
    Switch,
    /// All inputs high.
    And,
    /// Some input high.
    Or,
    /// All inputs low.
    Not,
    /// Some input low.
    Nand,
    /// Inputs disagree.
    Xor,
    /// Shows its input and drives nothing.
    Lamp,
    /// Full adder: sum and carry-out of three inputs.
    Adder,
}

impl BoolFn {
    /// Fewest input levels that the function accepts.
    pub open spec fn spec_min_inputs(self) -> int {
        match self {
            BoolFn::Switch => 1,
            BoolFn::Adder => 3,
            _ => 0,
        }
    }

    /// Number of output levels that the function produces.
    pub open spec fn spec_outputs(self) -> int {
        match self {
            BoolFn::Lamp => 0,
            BoolFn::Adder => 2,
            _ => 1,
        }
    }

    /// The output levels for the given input levels.
    pub open spec fn spec_eval(self, inputs: Seq<bool>) -> Seq<bool> {
        match self {
            BoolFn::Switch => seq![inputs[0]],
            BoolFn::And => seq![all_high(inputs)],
            BoolFn::Or => seq![!all_low(inputs)],
            BoolFn::Not => seq![all_low(inputs)],
            BoolFn::Nand => seq![!all_high(inputs)],
            BoolFn::Xor => seq![!(all_high(inputs) || all_low(inputs))],
            BoolFn::Lamp => Seq::<bool>::empty(),
            BoolFn::Adder => seq![
                adder_sum(inputs[0], inputs[1], inputs[2]),
                adder_carry(inputs[0], inputs[1], inputs[2]),
            ],
        }
    }

    /// Fewest input levels that the function accepts.
    pub fn min_inputs(self) -> (n: usize)
        ensures
            n == self.spec_min_inputs(),
    {
        match self {
            BoolFn::Switch => 1,
            BoolFn::Adder => 3,
            _ => 0,
        }
    }

    /// Number of output levels that the function produces.
    pub fn outputs(self) -> (n: usize)
        ensures
            n == self.spec_outputs(),
    {
        match self {
            BoolFn::Lamp => 0,
            BoolFn::Adder => 2,
            _ => 1,
        }
    }

    /// Applies the function. The result depends on the input levels alone:
    /// it is `spec_eval` of them, with one level per output.
    pub fn eval(self, inputs: &[bool]) -> (out: Vec<bool>)
        requires
            inputs@.len() >= self.spec_min_inputs(),
        ensures
            out@ == self.spec_eval(inputs@),
            out@.len() == self.spec_outputs(),
    {
        match self {
            BoolFn::Switch => switch_lamp_func(inputs),
            BoolFn::And => and_func(inputs),
            BoolFn::Or => or_func(inputs),
            BoolFn::Not => not_func(inputs),
            BoolFn::Nand => nand_func(inputs),
            BoolFn::Xor => xor_func(inputs),
            BoolFn::Lamp => lamp_func(inputs),
            BoolFn::Adder => add_func(inputs),
        }
    }
}

} // verus!
