use vstd::prelude::*;

verus! {

/// Supported architectures.
#[derive(Clone, Copy, Debug, PartialEq, Eq, Structural)]
pub enum Architecture {
    /// The x86 family.
    X86,
}

/// A disassembler for some architecture.
pub trait Disassembler {
    /// The architecture that this disassembler decodes.
    fn architecture(&self) -> Architecture;
}

} // verus!
