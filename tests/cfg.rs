use disassemble::{
    find_loops, identify_call_sites_in_instructions, Address, CallGraphAnalysis, CallSite,
    CallSiteTarget, ControlFlowGraph, EdgeType, Function, Instruction, Symbol,
};
use petgraph::graph::NodeIndex;
use petgraph::EdgeDirection;
use std::collections::HashSet;

/// Opcodes of a small instruction set for the tests.
#[derive(Debug)]
enum Opcode {
    Add,
    CJmp(Address),
    Jmp(Address),
    Call(Address),
    Ret,
}

#[derive(Debug)]
struct TestInstruction {
    address: Address,
    opcode: Opcode,
}

impl TestInstruction {
    fn new(address: u64, opcode: Opcode) -> Self {
        TestInstruction { address: Address::new(address), opcode }
    }
}

impl Instruction for TestInstruction {
    fn spec_address(&self) -> Address {
        self.address()
    }

    fn spec_is_call(&self) -> bool {
        self.is_call()
    }

    fn spec_is_local_conditional_jump(&self) -> bool {
        self.is_local_conditional_jump()
    }

    fn spec_is_local_jump(&self) -> bool {
        self.is_local_jump()
    }

    fn spec_is_return(&self) -> bool {
        self.is_return()
    }

    fn spec_target_address(&self) -> Option<Address> {
        self.target_address()
    }

    fn address(&self) -> Address {
        self.address
    }

    fn comment(&self) -> Option<String> {
        None
    }

    fn mnemonic(&self) -> &str {
        match self.opcode {
            Opcode::Add => "add",
            Opcode::CJmp(..) => "conditional-jump",
            Opcode::Jmp(..) => "jump",
            Opcode::Call(..) => "call",
            Opcode::Ret => "return",
        }
    }

    fn is_call(&self) -> bool {
        matches!(self.opcode, Opcode::Call(..))
    }

    fn is_local_conditional_jump(&self) -> bool {
        matches!(self.opcode, Opcode::CJmp(..))
    }

    fn is_local_jump(&self) -> bool {
        matches!(self.opcode, Opcode::CJmp(..) | Opcode::Jmp(..))
    }

    fn is_return(&self) -> bool {
        matches!(self.opcode, Opcode::Ret)
    }

    fn target_address(&self) -> Option<Address> {
        match self.opcode {
            Opcode::CJmp(addr) => Some(addr),
            Opcode::Jmp(addr) => Some(addr),
            Opcode::Call(addr) => Some(addr),
            _ => None,
        }
    }
}

fn block_at(cfg: &ControlFlowGraph, address: u64) -> NodeIndex {
    NodeIndex::new(*cfg.block_finder.get(&address).unwrap())
}

fn assert_neighbours(actual: Vec<NodeIndex>, expected: Vec<NodeIndex>) {
    let actual_set: HashSet<NodeIndex> = actual.into_iter().collect();
    let expected_set: HashSet<NodeIndex> = expected.into_iter().collect();
    assert_eq!(actual_set, expected_set);
}

/// The (source, target, kind) of each edge, in the order they were added.
fn edge_list(cfg: &ControlFlowGraph) -> Vec<(usize, usize, EdgeType)> {
    cfg.graph
        .raw_edges()
        .iter()
        .map(|e| (e.source().index(), e.target().index(), e.weight.edge_type))
        .collect()
}

#[test]
fn construct() {
    let insts: Vec<TestInstruction> = vec![];
    let cfg = ControlFlowGraph::new(&insts);
    assert!(cfg.entry_block.is_none());
    assert_eq!(cfg.graph.node_count(), 0);
}

#[test]
fn build_one_basic_block() {
    let insts = [
        TestInstruction::new(0, Opcode::Add),
        TestInstruction::new(1, Opcode::Add),
        TestInstruction::new(2, Opcode::Ret),
    ];
    let cfg = ControlFlowGraph::new(&insts);
    assert!(cfg.entry_block.is_some());
    assert_eq!(cfg.graph.node_count(), 1);

    let inbound = cfg.graph.externals(EdgeDirection::Incoming);
    assert_eq!(inbound.count(), 1);

    let outbound = cfg.graph.externals(EdgeDirection::Outgoing);
    assert_eq!(outbound.count(), 1);
}

#[test]
fn build_cfg_containing_local_unconditional_jump() {
    let insts = [
        TestInstruction::new(0, Opcode::Add),
        TestInstruction::new(1, Opcode::CJmp(Address::new(4))),
        TestInstruction::new(2, Opcode::Add),
        TestInstruction::new(3, Opcode::Jmp(Address::new(5))),
        TestInstruction::new(4, Opcode::Add),
        TestInstruction::new(5, Opcode::Ret),
    ];

    let cfg = ControlFlowGraph::new(&insts);

    assert_eq!(4, cfg.graph.edge_count());
    assert_eq!(4, cfg.graph.node_count());

    let root_idx = block_at(&cfg, 0);
    let cond_taken_idx = block_at(&cfg, 4);
    let falltrough_idx = block_at(&cfg, 2);
    let ret_idx = block_at(&cfg, 5);

    let neighbours = cfg.graph.neighbors(root_idx).collect();
    assert_neighbours(neighbours, vec![cond_taken_idx, falltrough_idx]);

    let neighbours = cfg.graph.neighbors(cond_taken_idx).collect();
    assert_neighbours(neighbours, vec![ret_idx]);

    let neighbours = cfg.graph.neighbors(falltrough_idx).collect();
    assert_neighbours(neighbours, vec![ret_idx]);

    let neighbours = cfg.graph.neighbors(ret_idx).collect();
    assert_neighbours(neighbours, vec![]);
}

#[test]
fn build_cfg_with_goto_ending() {
    let insts = [
        TestInstruction::new(0, Opcode::Add),
        TestInstruction::new(1, Opcode::CJmp(Address::new(3))),
        TestInstruction::new(2, Opcode::Ret),
        TestInstruction::new(3, Opcode::Jmp(Address::new(2))),
    ];

    let cfg = ControlFlowGraph::new(&insts);

    assert_eq!(3, cfg.graph.edge_count());
    assert_eq!(3, cfg.graph.node_count());

    let root_idx = block_at(&cfg, 0);
    let ret_idx = block_at(&cfg, 2);
    let goto_idx = block_at(&cfg, 3);

    let neighbours = cfg.graph.neighbors(root_idx).collect();
    assert_neighbours(neighbours, vec![ret_idx, goto_idx]);

    let neighbours = cfg.graph.neighbors(ret_idx).collect();
    assert_neighbours(neighbours, vec![]);

    let neighbours = cfg.graph.neighbors(goto_idx).collect();
    assert_neighbours(neighbours, vec![ret_idx]);
}

#[test]
fn build_cfg_with_branch_ending() {
    let insts = [
        TestInstruction::new(0, Opcode::Add),
        TestInstruction::new(1, Opcode::CJmp(Address::new(0))),
    ];

    let cfg = ControlFlowGraph::new(&insts);

    assert_eq!(1, cfg.graph.edge_count());
    assert_eq!(1, cfg.graph.node_count());

    let root_idx = block_at(&cfg, 0);

    let neighbours = cfg.graph.neighbors(root_idx).collect();
    assert_neighbours(neighbours, vec![root_idx]);
}

#[test]
fn build_cfg_with_call_ending() {
    let insts = [
        TestInstruction::new(0, Opcode::Add),
        TestInstruction::new(1, Opcode::Call(Address::new(0))),
    ];

    let cfg = ControlFlowGraph::new(&insts);

    assert_eq!(0, cfg.graph.edge_count());
    assert_eq!(1, cfg.graph.node_count());
}

#[test]
fn build_cfg_with_call_before_return() {
    let insts = [
        TestInstruction::new(0, Opcode::Add),
        TestInstruction::new(1, Opcode::Call(Address::new(0))),
        TestInstruction::new(2, Opcode::Ret),
    ];

    let cfg = ControlFlowGraph::new(&insts);

    assert_eq!(1, cfg.graph.edge_count());
    assert_eq!(2, cfg.graph.node_count());

    let root_idx = block_at(&cfg, 0);
    let ret_idx = block_at(&cfg, 2);

    let neighbours = cfg.graph.neighbors(root_idx).collect();
    assert_neighbours(neighbours, vec![ret_idx]);
}

#[test]
fn build_cfg_with_regular_instruction_ending() {
    let insts = [
        TestInstruction::new(0, Opcode::Add),
        TestInstruction::new(1, Opcode::Jmp(Address::new(2))),
        TestInstruction::new(2, Opcode::Add),
    ];

    let cfg = ControlFlowGraph::new(&insts);

    assert_eq!(1, cfg.graph.edge_count());
    assert_eq!(2, cfg.graph.node_count());

    let root_idx = block_at(&cfg, 0);
    let add_idx = block_at(&cfg, 2);

    let neighbours = cfg.graph.neighbors(root_idx).collect();
    assert_neighbours(neighbours, vec![add_idx]);
}

#[test]
fn calls_none() {
    let insts = vec![
        TestInstruction::new(0, Opcode::Add),
        TestInstruction::new(1, Opcode::Add),
        TestInstruction::new(2, Opcode::Ret),
    ];
    let f = Function::new(Symbol::new(Address::new(100), None), insts);
    let calls = f.identify_call_sites();
    assert!(calls.is_empty());
}

#[test]
fn calls_some() {
    let insts = vec![
        TestInstruction::new(0, Opcode::Add),
        TestInstruction::new(1, Opcode::Call(Address::new(500))),
        TestInstruction::new(2, Opcode::Add),
        TestInstruction::new(3, Opcode::Call(Address::new(400))),
        TestInstruction::new(4, Opcode::Call(Address::new(500))),
        TestInstruction::new(5, Opcode::Ret),
    ];
    let f = Function::new(Symbol::new(Address::new(100), None), insts);
    let calls = f.identify_call_sites();
    assert_eq!(
        calls,
        vec![
            CallSite {
                call_site_address: Address::new(1),
                target: CallSiteTarget::Direct(Address::new(500)),
            },
            CallSite {
                call_site_address: Address::new(3),
                target: CallSiteTarget::Direct(Address::new(400)),
            },
            CallSite {
                call_site_address: Address::new(4),
                target: CallSiteTarget::Direct(Address::new(500)),
            }
        ]
    );
}

/// A call instruction whose target the backend cannot tell.
#[derive(Debug)]
struct IndirectCall(u64);

impl Instruction for IndirectCall {
    fn spec_address(&self) -> Address {
        self.address()
    }

    fn spec_is_call(&self) -> bool {
        self.is_call()
    }

    fn spec_is_local_conditional_jump(&self) -> bool {
        self.is_local_conditional_jump()
    }

    fn spec_is_local_jump(&self) -> bool {
        self.is_local_jump()
    }

    fn spec_is_return(&self) -> bool {
        self.is_return()
    }

    fn spec_target_address(&self) -> Option<Address> {
        self.target_address()
    }

    fn address(&self) -> Address {
        Address::new(self.0)
    }

    fn comment(&self) -> Option<String> {
        None
    }

    fn mnemonic(&self) -> &str {
        "call-indirect"
    }

    fn is_call(&self) -> bool {
        true
    }

    fn is_local_conditional_jump(&self) -> bool {
        false
    }

    fn is_local_jump(&self) -> bool {
        false
    }

    fn is_return(&self) -> bool {
        false
    }

    fn target_address(&self) -> Option<Address> {
        None
    }
}

#[test]
fn call_without_target_is_indirect() {
    let calls = identify_call_sites_in_instructions(&[IndirectCall(7), IndirectCall(9)]);
    assert_eq!(
        calls,
        vec![
            CallSite { call_site_address: Address::new(7), target: CallSiteTarget::Indirect },
            CallSite { call_site_address: Address::new(9), target: CallSiteTarget::Indirect },
        ]
    );
}

#[test]
fn straight_line_sequence_is_one_isolated_block() {
    let insts = [
        TestInstruction::new(0, Opcode::Add),
        TestInstruction::new(1, Opcode::Add),
        TestInstruction::new(2, Opcode::Ret),
    ];
    let cfg = ControlFlowGraph::new(&insts);
    assert_eq!(cfg.graph.node_count(), 1);
    assert_eq!(cfg.graph.edge_count(), 0);
    let entry = NodeIndex::new(cfg.entry_block.unwrap());
    assert_eq!(cfg.graph.neighbors_directed(entry, EdgeDirection::Incoming).count(), 0);
    assert_eq!(cfg.graph.neighbors_directed(entry, EdgeDirection::Outgoing).count(), 0);
    assert_eq!(cfg.graph[entry].instruction_indices, vec![0, 1, 2]);
}

#[test]
fn diamond_edges_have_their_kinds() {
    let insts = [
        TestInstruction::new(0, Opcode::Add),
        TestInstruction::new(1, Opcode::CJmp(Address::new(4))),
        TestInstruction::new(2, Opcode::Add),
        TestInstruction::new(3, Opcode::Jmp(Address::new(5))),
        TestInstruction::new(4, Opcode::Add),
        TestInstruction::new(5, Opcode::Ret),
    ];
    let cfg = ControlFlowGraph::new(&insts);
    let b0 = block_at(&cfg, 0).index();
    let b2 = block_at(&cfg, 2).index();
    let b4 = block_at(&cfg, 4).index();
    let b5 = block_at(&cfg, 5).index();
    assert_eq!(
        edge_list(&cfg),
        vec![
            (b0, b4, EdgeType::ConditionalTaken),
            (b0, b2, EdgeType::ConditionalFallthrough),
            (b2, b5, EdgeType::Unconditional),
            (b4, b5, EdgeType::Unconditional),
        ]
    );
    assert_eq!(cfg.graph.neighbors(NodeIndex::new(b5)).count(), 0);
}

#[test]
fn entry_block_holds_the_first_instruction() {
    let insts = [
        TestInstruction::new(10, Opcode::Jmp(Address::new(12))),
        TestInstruction::new(11, Opcode::Add),
        TestInstruction::new(12, Opcode::Ret),
    ];
    let cfg = ControlFlowGraph::new(&insts);
    let entry = cfg.entry_block.unwrap();
    assert_eq!(entry, *cfg.block_finder.get(&10).unwrap());
    assert_eq!(cfg.graph[NodeIndex::new(entry)].address, Address::new(10));
    assert!(cfg.graph[NodeIndex::new(entry)].instruction_indices.contains(&0));
}

#[test]
fn one_block_per_distinct_leader() {
    // Leaders: 0 (first), 1 (after a jump, and the target of two jumps), 3.
    let insts = [
        TestInstruction::new(0, Opcode::Jmp(Address::new(1))),
        TestInstruction::new(1, Opcode::Add),
        TestInstruction::new(2, Opcode::CJmp(Address::new(1))),
        TestInstruction::new(3, Opcode::Jmp(Address::new(99))),
    ];
    let cfg = ControlFlowGraph::new(&insts);
    assert_eq!(cfg.graph.node_count(), 3);
    let addresses: Vec<u64> = cfg.block_finder.keys().copied().collect();
    assert_eq!(addresses, vec![0, 1, 3]);
}

#[test]
fn every_instruction_in_exactly_one_block_in_order() {
    let insts = [
        TestInstruction::new(0, Opcode::Add),
        TestInstruction::new(1, Opcode::CJmp(Address::new(4))),
        TestInstruction::new(2, Opcode::Add),
        TestInstruction::new(3, Opcode::Jmp(Address::new(5))),
        TestInstruction::new(4, Opcode::Add),
        TestInstruction::new(5, Opcode::Call(Address::new(0))),
        TestInstruction::new(6, Opcode::Add),
        TestInstruction::new(7, Opcode::Ret),
    ];
    let cfg = ControlFlowGraph::new(&insts);
    let mut seen = vec![0; insts.len()];
    for block in cfg.graph.node_weights() {
        assert!(block.instruction_indices.windows(2).all(|w| w[0] < w[1]));
        for &i in &block.instruction_indices {
            seen[i] += 1;
        }
    }
    assert_eq!(seen, vec![1; insts.len()]);
    // The jump at 3 makes 5 a leader: the call there ends a one-instruction block.
    assert_eq!(cfg.graph[block_at(&cfg, 4)].instruction_indices, vec![4]);
    assert_eq!(cfg.graph[block_at(&cfg, 5)].instruction_indices, vec![5]);
    assert_eq!(cfg.graph[block_at(&cfg, 6)].instruction_indices, vec![6, 7]);
}

/// A branch that the backend cannot resolve, or a plain instruction.
#[derive(Debug)]
struct Branch(u64, bool);
impl Instruction for Branch {
    fn spec_address(&self) -> Address {
        self.address()
    }

    fn spec_is_call(&self) -> bool {
        self.is_call()
    }

    fn spec_is_local_conditional_jump(&self) -> bool {
        self.is_local_conditional_jump()
    }

    fn spec_is_local_jump(&self) -> bool {
        self.is_local_jump()
    }

    fn spec_is_return(&self) -> bool {
        self.is_return()
    }

    fn spec_target_address(&self) -> Option<Address> {
        self.target_address()
    }

    fn address(&self) -> Address {
        Address::new(self.0)
    }
    fn comment(&self) -> Option<String> {
        None
    }
    fn mnemonic(&self) -> &str {
        "branch"
    }
    fn is_call(&self) -> bool {
        false
    }
    fn is_local_conditional_jump(&self) -> bool {
        self.1
    }
    fn is_local_jump(&self) -> bool {
        self.1
    }
    fn is_return(&self) -> bool {
        false
    }
    fn target_address(&self) -> Option<Address> {
        None
    }
}

#[test]
fn conditional_jump_without_target_still_falls_through() {
    let cfg = ControlFlowGraph::new(&[Branch(0, true), Branch(1, false)]);
    assert_eq!(edge_list(&cfg), vec![(0, 1, EdgeType::ConditionalFallthrough)]);
}

#[test]
fn building_twice_gives_the_same_graph() {
    let insts = [
        TestInstruction::new(0, Opcode::Add),
        TestInstruction::new(1, Opcode::CJmp(Address::new(4))),
        TestInstruction::new(2, Opcode::Add),
        TestInstruction::new(3, Opcode::Jmp(Address::new(1))),
        TestInstruction::new(4, Opcode::Ret),
    ];
    let first = ControlFlowGraph::new(&insts);
    let second = ControlFlowGraph::new(&insts);
    assert_eq!(first.graph.node_count(), second.graph.node_count());
    assert_eq!(first.graph.edge_count(), second.graph.edge_count());
    assert_eq!(edge_list(&first), edge_list(&second));
    assert_eq!(first.block_finder, second.block_finder);
}

#[test]
fn no_entry_block_gives_an_empty_forest() {
    let insts: Vec<TestInstruction> = vec![];
    let cfg = ControlFlowGraph::new(&insts);
    let lsg = find_loops(&cfg);
    assert!(lsg.loops.is_empty());
    assert!(lsg.root.is_root);
    assert_eq!(lsg.loop_counter, 1);
}

#[test]
fn single_back_edge_makes_one_loop() {
    let insts = [
        TestInstruction::new(0, Opcode::Add),
        TestInstruction::new(1, Opcode::Add),
        TestInstruction::new(2, Opcode::CJmp(Address::new(4))),
        TestInstruction::new(3, Opcode::Add),
        TestInstruction::new(4, Opcode::CJmp(Address::new(1))),
        TestInstruction::new(5, Opcode::Ret),
    ];
    let cfg = ControlFlowGraph::new(&insts);
    let lsg = find_loops(&cfg);
    assert_eq!(lsg.loops.len(), 1);
    let l = &lsg.loops[0];
    let header = block_at(&cfg, 1).index();
    assert_eq!(l.header, Some(header));
    let mut blocks = l.basic_blocks.clone();
    blocks.sort();
    let mut expected = vec![header, block_at(&cfg, 3).index(), block_at(&cfg, 4).index()];
    expected.sort();
    assert_eq!(blocks, expected);
    assert!(l.is_reducible);
    assert_eq!(l.nesting_level, 0);
    assert_eq!(l.depth_level, 1);
    assert_eq!(l.parent, None);
    assert_eq!(lsg.root.children, vec![0]);
}

#[test]
fn nested_loops_have_their_levels() {
    let insts = [
        TestInstruction::new(0, Opcode::Add),
        TestInstruction::new(1, Opcode::Add),
        TestInstruction::new(2, Opcode::Add),
        TestInstruction::new(3, Opcode::CJmp(Address::new(2))),
        TestInstruction::new(4, Opcode::CJmp(Address::new(1))),
        TestInstruction::new(5, Opcode::Ret),
    ];
    let cfg = ControlFlowGraph::new(&insts);
    let lsg = find_loops(&cfg);
    assert_eq!(lsg.loops.len(), 2);
    let inner = &lsg.loops[0];
    let outer = &lsg.loops[1];
    assert_eq!(inner.header, Some(block_at(&cfg, 2).index()));
    assert_eq!(outer.header, Some(block_at(&cfg, 1).index()));
    assert_eq!(inner.nesting_level, 0);
    assert_eq!(outer.nesting_level, 1);
    assert_eq!(inner.depth_level, 2);
    assert_eq!(outer.depth_level, 1);
    assert_eq!(inner.parent, Some(1));
    assert_eq!(outer.children, vec![0]);
    assert_eq!(lsg.root.children, vec![1]);
    assert_eq!(lsg.root.nesting_level, 2);
    assert_eq!(outer.basic_blocks, vec![block_at(&cfg, 1).index(), block_at(&cfg, 4).index()]);
}

#[test]
fn sibling_loops_are_both_at_depth_one() {
    let insts = [
        TestInstruction::new(0, Opcode::Add),
        TestInstruction::new(1, Opcode::CJmp(Address::new(0))),
        TestInstruction::new(2, Opcode::Add),
        TestInstruction::new(3, Opcode::CJmp(Address::new(2))),
        TestInstruction::new(4, Opcode::Ret),
    ];
    let cfg = ControlFlowGraph::new(&insts);
    let lsg = find_loops(&cfg);
    assert_eq!(lsg.loops.len(), 2);
    for l in &lsg.loops {
        assert_eq!(l.nesting_level, 0);
        assert_eq!(l.depth_level, 1);
        assert_eq!(l.parent, None);
    }
    assert_eq!(lsg.root.nesting_level, 1);
}

#[test]
fn two_entry_loop_is_irreducible() {
    // Block 1 and block 2 form a cycle entered from both block 0 and
    // block 1's predecessor, so neither dominates the other.
    let insts = [
        TestInstruction::new(0, Opcode::CJmp(Address::new(2))),
        TestInstruction::new(1, Opcode::Add),
        TestInstruction::new(2, Opcode::CJmp(Address::new(1))),
        TestInstruction::new(3, Opcode::Ret),
    ];
    let cfg = ControlFlowGraph::new(&insts);
    let lsg = find_loops(&cfg);
    assert_eq!(lsg.loops.len(), 1);
    assert!(!lsg.loops[0].is_reducible);
}

#[test]
fn unreachable_blocks_are_in_no_loop() {
    let insts = [
        TestInstruction::new(0, Opcode::Ret),
        TestInstruction::new(1, Opcode::Add),
        TestInstruction::new(2, Opcode::CJmp(Address::new(1))),
        TestInstruction::new(3, Opcode::Ret),
    ];
    let cfg = ControlFlowGraph::new(&insts);
    let lsg = find_loops(&cfg);
    assert!(lsg.loops.is_empty());
}

#[test]
fn acyclic_graph_has_no_loops() {
    let insts = [
        TestInstruction::new(0, Opcode::Add),
        TestInstruction::new(1, Opcode::CJmp(Address::new(4))),
        TestInstruction::new(2, Opcode::Add),
        TestInstruction::new(3, Opcode::Jmp(Address::new(5))),
        TestInstruction::new(4, Opcode::Add),
        TestInstruction::new(5, Opcode::Ret),
    ];
    let cfg = ControlFlowGraph::new(&insts);
    let lsg = find_loops(&cfg);
    assert!(lsg.loops.is_empty());
    assert_eq!(lsg.root.nesting_level, 0);
    assert!(lsg.root.children.is_empty());
}

#[test]
fn every_loop_block_is_listed_once() {
    let insts = [
        TestInstruction::new(0, Opcode::Add),
        TestInstruction::new(1, Opcode::Add),
        TestInstruction::new(2, Opcode::Add),
        TestInstruction::new(3, Opcode::CJmp(Address::new(2))),
        TestInstruction::new(4, Opcode::CJmp(Address::new(1))),
        TestInstruction::new(5, Opcode::CJmp(Address::new(0))),
        TestInstruction::new(6, Opcode::Ret),
    ];
    let cfg = ControlFlowGraph::new(&insts);
    let lsg = find_loops(&cfg);
    assert_eq!(lsg.loops.len(), 3);
    let mut all: Vec<usize> = lsg.loops.iter().flat_map(|l| l.basic_blocks.clone()).collect();
    let total = all.len();
    all.sort();
    all.dedup();
    assert_eq!(all.len(), total);
    let depths: Vec<usize> = lsg.loops.iter().map(|l| l.depth_level).collect();
    let nesting: Vec<usize> = lsg.loops.iter().map(|l| l.nesting_level).collect();
    assert_eq!(depths, vec![3, 2, 1]);
    assert_eq!(nesting, vec![0, 1, 2]);
}

#[test]
fn graph_accessors_answer_lookups() {
    let insts = [
        TestInstruction::new(0, Opcode::Add),
        TestInstruction::new(1, Opcode::CJmp(Address::new(4))),
        TestInstruction::new(2, Opcode::Add),
        TestInstruction::new(3, Opcode::Jmp(Address::new(5))),
        TestInstruction::new(4, Opcode::Add),
        TestInstruction::new(5, Opcode::Ret),
    ];
    let cfg = ControlFlowGraph::new(&insts);
    assert_eq!(cfg.block_count(), 4);
    assert_eq!(cfg.edge_count(), 4);
    let b0 = cfg.block_at(Address::new(0)).unwrap();
    let b2 = cfg.block_at(Address::new(2)).unwrap();
    let b4 = cfg.block_at(Address::new(4)).unwrap();
    let b5 = cfg.block_at(Address::new(5)).unwrap();
    assert_eq!(cfg.block_at(Address::new(1)), None);
    assert_eq!(cfg.successors(b0), vec![b4, b2]);
    assert_eq!(cfg.successors(b2), vec![b5]);
    assert_eq!(cfg.successors(b5), Vec::<usize>::new());
}

#[test]
fn loop_of_block_finds_the_innermost_loop() {
    let insts = [
        TestInstruction::new(0, Opcode::Add),
        TestInstruction::new(1, Opcode::Add),
        TestInstruction::new(2, Opcode::Add),
        TestInstruction::new(3, Opcode::CJmp(Address::new(2))),
        TestInstruction::new(4, Opcode::CJmp(Address::new(1))),
        TestInstruction::new(5, Opcode::Ret),
    ];
    let cfg = ControlFlowGraph::new(&insts);
    let lsg = find_loops(&cfg);
    assert_eq!(lsg.loop_of_block(cfg.block_at(Address::new(2)).unwrap()), Some(0));
    assert_eq!(lsg.loop_of_block(cfg.block_at(Address::new(4)).unwrap()), Some(1));
    assert_eq!(lsg.loop_of_block(cfg.block_at(Address::new(5)).unwrap()), None);
    assert_eq!(lsg.loop_of_block(cfg.block_at(Address::new(0)).unwrap()), None);
}
