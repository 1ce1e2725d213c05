//! Reconstruction of program structure (control-flow graphs, call sites and
//! loop nesting) from a flat sequence of decoded instructions.
//!
//! An instruction-set backend implements [`Instruction`]; the library then
//! builds a [`ControlFlowGraph`] of basic blocks, lists call sites, and finds
//! the loop nesting forest of a graph.
pub mod address;
pub mod basicblock;
pub mod bpf;
pub mod callgraphanalysis;
pub mod cfg;
pub mod disassembler;
pub mod function;
pub mod graph;
pub mod instruction;
pub mod loops;
pub mod memory;
pub mod module;
pub mod native;
pub mod symbol;
pub mod webassembly;
pub mod x86;

pub use address::{Address, Radix, RadixFormat};
pub use basicblock::{BasicBlock, BasicBlockEdge, EdgeType};
pub use bpf::BpfInstruction;
pub use callgraphanalysis::{
    identify_call_sites_in_instructions, CallGraphAnalysis, CallSite, CallSiteTarget,
};
pub use cfg::{ControlFlowGraph, MAX_INSTRUCTIONS};
pub use disassembler::{Architecture, Disassembler};
pub use function::Function;
pub use instruction::Instruction;
pub use loops::{find_loops, LoopStructureGraph, SimpleLoop};
pub use memory::{Error, Memory, Segment};
pub use module::Module;
pub use native::CapstoneInstruction;
pub use symbol::Symbol;
pub use webassembly::{WasmInstruction, WasmOp};
pub use x86::BurstInstruction;
