//! The gates of an arithmetic circuit.

use vstd::prelude::*;

verus! {

/// One entry of a circuit's arena. Gates name their operands by arena index
/// and carry the value computed for them, once it is known.
#[derive(Clone, Copy, Debug)]
#[allow(inconsistent_fields)]
pub enum Gate<DataType> {
    /// The sum of two gates.
    Add { first: usize, second: usize, output: Option<DataType> },
    /// The product of a gate and a constant.
    MulByConst { first: usize, second: DataType, output: Option<DataType> },
    /// The product of two gates.
    Mul { first: usize, second: usize, output: Option<DataType> },
    /// The value that `party` supplies for the circuit input `circuit_id`.
    Input { party: usize, circuit_id: usize, output: Option<DataType> },
}

impl<DataType: Copy> Gate<DataType> {
    /// The value computed for this gate, if it is known.
    pub open spec fn output(&self) -> Option<DataType> {
        match *self {
            Gate::Add { output, .. } => output,
            Gate::MulByConst { output, .. } => output,
            Gate::Mul { output, .. } => output,
            Gate::Input { output, .. } => output,
        }
    }

    /// The first operand of this gate, if it has one.
    pub open spec fn first_operand(&self) -> Option<usize> {
        match *self {
            Gate::Add { first, .. } => Some(first),
            Gate::MulByConst { first, .. } => Some(first),
            Gate::Mul { first, .. } => Some(first),
            Gate::Input { .. } => None,
        }
    }

    /// The second operand of this gate, if it has one.
    pub open spec fn second_operand(&self) -> Option<usize> {
        match *self {
            Gate::Add { second, .. } => Some(second),
            Gate::MulByConst { .. } => None,
            Gate::Mul { second, .. } => Some(second),
            Gate::Input { .. } => None,
        }
    }

    /// A copy of this gate with its output slot set to `output`.
    pub open spec fn with_output(&self, output: Option<DataType>) -> Self {
        match *self {
            Gate::Add { first, second, .. } => Gate::Add { first, second, output },
            Gate::MulByConst { first, second, .. } => Gate::MulByConst { first, second, output },
            Gate::Mul { first, second, .. } => Gate::Mul { first, second, output },
            Gate::Input { party, circuit_id, .. } => Gate::Input { party, circuit_id, output },
        }
    }

    pub fn new_input(party: usize, circuit_id: usize) -> (gate: Self)
        ensures
            gate == (Gate::<DataType>::Input { party, circuit_id, output: None }),
    {
        Gate::Input { party, circuit_id, output: None }
    }

    pub fn new_add(first: usize, second: usize) -> (gate: Self)
        ensures
            gate == (Gate::<DataType>::Add { first, second, output: None }),
    {
        Gate::Add { first, second, output: None }
    }

    pub fn new_mul_by_const(first: usize, second: DataType) -> (gate: Self)
        ensures
            gate == (Gate::MulByConst { first, second, output: None }),
    {
        Gate::MulByConst { first, second, output: None }
    }

    pub fn new_mul(first: usize, second: usize) -> (gate: Self)
        ensures
            gate == (Gate::<DataType>::Mul { first, second, output: None }),
    {
        Gate::Mul { first, second, output: None }
    }

    /// The value computed for this gate.
    pub fn get_output(&self) -> (value: DataType)
        requires
            self.output() is Some,
        ensures
            self.output() == Some(value),
    {
        match self {
            Gate::Input { output, .. } => output.unwrap(),
            Gate::Add { output, .. } => output.unwrap(),
            Gate::MulByConst { output, .. } => output.unwrap(),
            Gate::Mul { output, .. } => output.unwrap(),
        }
    }

    /// Whether a value has been computed for this gate.
    pub fn has_output(&self) -> (known: bool)
        ensures
            known == (self.output() is Some),
    {
        match self {
            Gate::Input { output, .. } => output.is_some(),
            Gate::Add { output, .. } => output.is_some(),
            Gate::MulByConst { output, .. } => output.is_some(),
            Gate::Mul { output, .. } => output.is_some(),
        }
    }

    /// Fills the output slot of this gate.
    pub fn set_output(&mut self, value: DataType)
        ensures
            *final(self) == old(self).with_output(Some(value)),
    {
        match self {
            Gate::Input { output, .. } => *output = Some(value),
            Gate::Add { output, .. } => *output = Some(value),
            Gate::MulByConst { output, .. } => *output = Some(value),
            Gate::Mul { output, .. } => *output = Some(value),
        }
    }
}

} // verus!
