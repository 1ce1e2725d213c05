use crate::function::Function;
use crate::instruction::Instruction;
use vstd::prelude::*;

verus! {

/// A shared library or other component of a target.
pub struct Module<I: Instruction> {
    /// Functions defined within this module.
    pub functions: Vec<Function<I>>,
}

} // verus!
