use crate::address::Address;
use vstd::prelude::*;

verus! {

/// When is an edge taken? Conditionally or unconditionally?
#[derive(Clone, Copy, Debug, PartialEq, Eq, Structural)]
pub enum EdgeType {
    /// This edge is followed when a conditional branch is taken.
    ConditionalTaken,
    /// This edge is followed when a conditional branch falls through.
    ConditionalFallthrough,
    /// This edge is always followed.
    Unconditional,
}

/// A basic block: a run of instructions with no inward branch except to
/// its first instruction and no outward branch except at its end.
#[derive(Debug)]
pub struct BasicBlock {
    /// The name of the basic block. Not all blocks have meaningful names.
    pub name: Option<String>,
    /// The address of the first instruction in the basic block.
    pub address: Address,
    /// The positions, in the analysed instruction sequence, of the
    /// instructions of this block, in program order.
    pub instruction_indices: Vec<usize>,
}

impl BasicBlock {
    /// Construct an empty, unnamed `BasicBlock` starting at `address`.
    pub fn new(address: Address) -> (r: Self)
        ensures
            r.name is None,
            r.address == address,
            r.instruction_indices@ == Seq::<usize>::empty(),
    {
        BasicBlock { name: None, address, instruction_indices: Vec::new() }
    }
}

/// The payload of an edge between two basic blocks.
#[derive(Clone, Copy, Debug, PartialEq, Eq, Structural)]
pub struct BasicBlockEdge {
    /// Is this edge taken conditionally or unconditionally?
    pub edge_type: EdgeType,
}

} // verus!
