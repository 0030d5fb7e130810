//! The errors of the build phase and of the witness phase.

use vstd::prelude::*;

verus! {

/// Why the build of a chip failed.
#[derive(Clone, Copy, Debug, PartialEq, Eq, Structural)]
pub enum BuildError {
    /// An allocation would pass the column budget of its region.
    AllocationOverflow,
    /// An instruction would write columns that another instruction, or the
    /// instruction itself, reads or writes.
    DuplicateColumnUse,
    /// A register of an instruction lies outside the allocated columns, or in
    /// a region that the instruction cannot use, or has the wrong width.
    InvalidRegister,
}

/// Why the witness phase failed.
#[derive(Clone, Copy, Debug, PartialEq, Eq, Structural)]
pub enum WitnessError {
    /// A register lies outside the trace, the row does not exist, or the
    /// number of values is not the number of columns.
    OutOfBounds,
    /// An operand does not fit in the limbs of its register.
    OperandRange,
    /// The carry of a modular multiplication is not below the modulus.
    ModulusCheck,
    /// A coefficient of the shifted witness does not fit in two 16-bit limbs.
    WitnessRange,
}

impl BuildError {
    /// The text of `message`.
    pub open spec fn spec_message(&self) -> Seq<char> {
        match self {
            BuildError::AllocationOverflow => "allocation exceeds the column budget"@,
            BuildError::DuplicateColumnUse => "columns are used by two instructions"@,
            BuildError::InvalidRegister => "register outside the allocated columns"@,
        }
    }

    /// A description of the error.
    pub fn message(&self) -> (r: &'static str)
        ensures
            r@ == self.spec_message(),
    {
        match self {
            BuildError::AllocationOverflow => "allocation exceeds the column budget",
            BuildError::DuplicateColumnUse => "columns are used by two instructions",
            BuildError::InvalidRegister => "register outside the allocated columns",
        }
    }
}

impl WitnessError {
    /// The text of `message`.
    pub open spec fn spec_message(&self) -> Seq<char> {
        match self {
            WitnessError::OutOfBounds => "write outside the trace"@,
            WitnessError::OperandRange => "operand does not fit in its limbs"@,
            WitnessError::ModulusCheck => "carry is not below the modulus"@,
            WitnessError::WitnessRange => "witness coefficient out of range"@,
        }
    }

    /// A description of the error.
    pub fn message(&self) -> (r: &'static str)
        ensures
            r@ == self.spec_message(),
    {
        match self {
            WitnessError::OutOfBounds => "write outside the trace",
            WitnessError::OperandRange => "operand does not fit in its limbs",
            WitnessError::ModulusCheck => "carry is not below the modulus",
            WitnessError::WitnessRange => "witness coefficient out of range",
        }
    }
}

} // verus!
