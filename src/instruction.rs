use crate::address::Address;
use vstd::prelude::*;

verus! {

/// An assembly instruction, bytecode operation, VM operation, etc.
///
/// Each instruction-set backend implements this trait; the rest of the
/// library only queries instructions through it. The `spec_*` functions
/// are the mathematical meaning of the queries of the same name.
pub trait Instruction {
    /// The address of this instruction.
    spec fn spec_address(&self) -> Address;

    /// Whether this instruction is a call.
    spec fn spec_is_call(&self) -> bool;

    /// Whether this instruction is a local conditional jump.
    spec fn spec_is_local_conditional_jump(&self) -> bool;

    /// Whether this instruction is a local jump, conditional or not.
    spec fn spec_is_local_jump(&self) -> bool;

    /// Whether this instruction returns from the function.
    spec fn spec_is_return(&self) -> bool;

    /// The statically known target of a call or local jump.
    spec fn spec_target_address(&self) -> Option<Address>;

    /// The address of this instruction. It must be unique within a function.
    fn address(&self) -> (r: Address)
        ensures
            r == self.spec_address(),
    ;

    /// The mnemonic for this instruction.
    fn mnemonic(&self) -> &str;

    /// Any associated comment text for this instruction.
    fn comment(&self) -> Option<String>;

    /// Does this instruction end a basic block?
    fn is_block_terminator(&self) -> (r: bool)
        ensures
            r == (self.spec_is_call() || self.spec_is_local_jump() || self.spec_is_return()),
    {
        self.is_call() || self.is_local_jump() || self.is_return()
    }

    /// Does this instruction represent a call?
    fn is_call(&self) -> (r: bool)
        ensures
            r == self.spec_is_call(),
    ;

    /// Does this instruction represent a local conditional jump? A
    /// conditional jump is a local jump.
    fn is_local_conditional_jump(&self) -> (r: bool)
        ensures
            r == self.spec_is_local_conditional_jump(),
            r ==> self.spec_is_local_jump(),
    ;

    /// Does this instruction represent a local jump, conditional or not?
    fn is_local_jump(&self) -> (r: bool)
        ensures
            r == self.spec_is_local_jump(),
    ;

    /// Does this instruction represent a function return?
    fn is_return(&self) -> (r: bool)
        ensures
            r == self.spec_is_return(),
    ;

    /// If this is a call or local jump, what is the target address?
    fn target_address(&self) -> (r: Option<Address>)
        ensures
            r == self.spec_target_address(),
    ;
}

/// An instruction after which a new basic block begins.
pub open spec fn is_terminator<I: Instruction + ?Sized>(i: &I) -> bool {
    i.spec_is_call() || i.spec_is_local_jump() || i.spec_is_return()
}

} // verus!
