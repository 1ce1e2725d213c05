use crate::callgraphanalysis::{CallGraphAnalysis, CallSite, call_sites, identify_call_sites_in_instructions};
use crate::cfg::{ControlFlowGraph, MAX_INSTRUCTIONS};
use crate::instruction::Instruction;
use crate::symbol::Symbol;
use vstd::prelude::*;

verus! {

/// A function within a program.
pub struct Function<I: Instruction> {
    /// The symbol for this function: its name and address.
    pub symbol: Symbol,
    /// The instructions that make up this function.
    pub instructions: Vec<I>,
    /// The control-flow graph of this function, built from `instructions`.
    pub control_flow_graph: ControlFlowGraph,
}

impl<I: Instruction> Function<I> {
    /// Construct a function and build its control-flow graph.
    pub fn new(symbol: Symbol, instructions: Vec<I>) -> (r: Self)
        requires
            instructions@.len() <= MAX_INSTRUCTIONS,
        ensures
            r.symbol == symbol,
            r.instructions@ == instructions@,
            r.control_flow_graph.is_cfg_of(instructions@),
    {
        let control_flow_graph = ControlFlowGraph::new(instructions.as_slice());
        Function { symbol, instructions, control_flow_graph }
    }
}

impl<I: Instruction> CallGraphAnalysis<I> for Function<I> {
    /// The call sites of the function's instructions, in program order.
    fn identify_call_sites(&self) -> (r: Vec<CallSite>)
        ensures
            r@ == call_sites(self.instructions@, self.instructions@.len()),
    {
        identify_call_sites_in_instructions(self.instructions.as_slice())
    }
}

} // verus!
