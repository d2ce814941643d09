use vstd::prelude::*;

verus! {

/// The operation a graph node applies to its operands.  `NONE` marks a
/// leaf, whose value is whatever the caller last stored.
#[derive(Clone, Copy, PartialEq, Eq, Structural, Debug)]
pub enum Operation {
    ADD,
    MUL,
    RELU,
    NONE,
}

impl Operation {
    /// The number of operands the operation consumes.
    pub open spec fn arity(self) -> int {
        match self {
            Operation::ADD => 2,
            Operation::MUL => 2,
            Operation::RELU => 1,
            Operation::NONE => 0,
        }
    }

    /// A short printable name for the operation.
    pub fn name(&self) -> (r: String)
        ensures
            r@ == match self {
                Operation::ADD => "Add"@,
                Operation::MUL => "Mul"@,
                Operation::RELU => "Relu"@,
                Operation::NONE => "None"@,
            },
    {
        match self {
            Operation::ADD => "Add".to_string(),
            Operation::MUL => "Mul".to_string(),
            Operation::RELU => "Relu".to_string(),
            Operation::NONE => "None".to_string(),
        }
    }
}

impl Default for Operation {
    /// A freshly constructed node is a leaf.
    fn default() -> (r: Operation)
        ensures
            r == Operation::NONE,
    {
        Operation::NONE
    }
}

} // verus!
