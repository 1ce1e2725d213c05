use crate::address::Address;
use crate::basicblock::{BasicBlock, EdgeType};
use crate::graph::{
    graph_add_edge, graph_add_node, graph_block_mut, graph_blocks, graph_edge, graph_edge_count,
    graph_edges, graph_new, graph_node_count, BlockGraph,
};
use crate::instruction::{is_terminator, Instruction};
use std::collections::BTreeMap;
use vstd::prelude::*;

verus! {

broadcast use vstd::laws_cmp::group_laws_cmp;

/// The largest instruction sequence a graph is built from: the graph indexes
/// its nodes and edges with `u32`, and each instruction adds at most two
/// nodes and two edges.
pub const MAX_INSTRUCTIONS: usize = 0x7fff_ffff;

/// The address value of an instruction.
pub open spec fn addr_of<I: Instruction>(i: I) -> u64 {
    i.spec_address().address
}

/// Whether `a` lies between the first and the last instruction's address.
pub open spec fn in_span<I: Instruction>(s: Seq<I>, a: u64) -> bool {
    s.len() > 0 && addr_of(s[0]) <= a && a <= addr_of(s.last())
}

/// Whether instruction `k` starts a block because of its position: it is the
/// first one, or it follows a block terminator.
pub open spec fn follows_terminator<I: Instruction>(s: Seq<I>, k: int) -> bool {
    k == 0 || is_terminator(&s[k - 1])
}

/// Whether instruction `k` is a terminator whose target lies in the span.
pub open spec fn has_local_target<I: Instruction>(s: Seq<I>, k: int) -> bool {
    is_terminator(&s[k]) && s[k].spec_target_address() is Some && in_span(
        s,
        s[k].spec_target_address()->0.address,
    )
}

/// The leader addresses that instruction `k` registers, in order.
pub open spec fn leader_requests_at<I: Instruction>(s: Seq<I>, k: int) -> Seq<u64> {
    (if follows_terminator(s, k) {
        seq![addr_of(s[k])]
    } else {
        Seq::empty()
    }) + (if has_local_target(s, k) {
        seq![s[k].spec_target_address()->0.address]
    } else {
        Seq::empty()
    })
}

/// The leader addresses that the first `n` instructions register, in order.
pub open spec fn leader_requests<I: Instruction>(s: Seq<I>, n: nat) -> Seq<u64>
    decreases n,
{
    if n == 0 {
        Seq::empty()
    } else {
        leader_requests(s, (n - 1) as nat) + leader_requests_at(s, n - 1)
    }
}

/// The set of leader addresses of an instruction sequence: the first
/// instruction, each instruction after a terminator, and each terminator's
/// target that lies in the span of the sequence.
pub open spec fn leaders<I: Instruction>(s: Seq<I>) -> Set<u64> {
    Set::new(
        |a: u64|
            exists|k: int|
                0 <= k < s.len() && ((follows_terminator(s, k) && a == addr_of(s[k])) || (
                has_local_target(s, k) && a == s[k].spec_target_address()->0.address)),
    )
}

/// The values of `e` in the order of their first occurrence.
pub open spec fn first_occurrences(e: Seq<u64>) -> Seq<u64>
    decreases e.len(),
{
    if e.len() == 0 {
        e
    } else {
        let d = first_occurrences(e.drop_last());
        if d.contains(e.last()) {
            d
        } else {
            d.push(e.last())
        }
    }
}

/// The block addresses of an instruction sequence, by node index.
pub open spec fn block_addresses<I: Instruction>(s: Seq<I>) -> Seq<u64> {
    first_occurrences(leader_requests(s, s.len()))
}

/// `m` maps each address of `d` to its position in `d`, and nothing else.
pub open spec fn indexes(m: Map<u64, usize>, d: Seq<u64>) -> bool {
    &&& forall|a: u64| #[trigger] m.contains_key(a) <==> d.contains(a)
    &&& forall|a: u64| #[trigger]
        m.contains_key(a) ==> m[a] < d.len() && d[m[a] as int] == a
}

/// The block that instruction `k` is appended to: the block starting at its
/// address, or else the block of the previous instruction.
pub open spec fn current_block<I: Instruction>(s: Seq<I>, m: Map<u64, usize>, k: nat) -> usize
    decreases k,
{
    if k == 0 || m.contains_key(addr_of(s[k as int])) {
        m[addr_of(s[k as int])]
    } else {
        current_block(s, m, (k - 1) as nat)
    }
}

/// The positions among the first `n` instructions that belong to block `b`.
pub open spec fn block_members<I: Instruction>(s: Seq<I>, m: Map<u64, usize>, b: usize, n: nat) -> Seq<
    usize,
>
    decreases n,
{
    if n == 0 {
        Seq::empty()
    } else {
        block_members(s, m, b, (n - 1) as nat) + (if current_block(s, m, (n - 1) as nat) == b {
            seq![(n - 1) as usize]
        } else {
            Seq::empty()
        })
    }
}

/// The edge from block `c` to the block at the target of `i`, if that
/// target starts a block.
pub open spec fn target_edge<I: Instruction>(i: I, m: Map<u64, usize>, c: usize, kind: EdgeType) -> Seq<
    (usize, usize, EdgeType),
> {
    match i.spec_target_address() {
        Some(t) => if m.contains_key(t.address) {
            seq![(c, m[t.address], kind)]
        } else {
            Seq::empty()
        },
        None => Seq::empty(),
    }
}

/// The edge from block `c` to the next block, if there is one.
pub open spec fn next_edge(c: usize, next: Option<usize>, kind: EdgeType) -> Seq<
    (usize, usize, EdgeType),
> {
    match next {
        Some(n) => seq![(c, n, kind)],
        None => Seq::empty(),
    }
}

/// The edges that close block `c` after its last instruction `i`.
pub open spec fn closing_edges<I: Instruction>(
    i: I,
    m: Map<u64, usize>,
    c: usize,
    next: Option<usize>,
) -> Seq<(usize, usize, EdgeType)> {
    if i.spec_is_local_conditional_jump() {
        target_edge(i, m, c, EdgeType::ConditionalTaken) + next_edge(
            c,
            next,
            EdgeType::ConditionalFallthrough,
        )
    } else if i.spec_is_call() {
        next_edge(c, next, EdgeType::Unconditional)
    } else if i.spec_is_local_jump() {
        target_edge(i, m, c, EdgeType::Unconditional)
    } else if i.spec_is_return() {
        Seq::empty()
    } else {
        next_edge(c, next, EdgeType::Unconditional)
    }
}

/// The edges added at instruction `k`: those closing its block when the
/// next instruction starts another block, or when it is the last one.
pub open spec fn edges_at<I: Instruction>(s: Seq<I>, m: Map<u64, usize>, k: nat) -> Seq<
    (usize, usize, EdgeType),
> {
    if k + 1 < s.len() {
        if current_block(s, m, k + 1) != current_block(s, m, k) {
            closing_edges(s[k as int], m, current_block(s, m, k), Some(current_block(s, m, k + 1)))
        } else {
            Seq::empty()
        }
    } else {
        closing_edges(s[k as int], m, current_block(s, m, k), None)
    }
}

/// The edges added for the first `n` instructions, in order.
pub open spec fn cfg_edges<I: Instruction>(s: Seq<I>, m: Map<u64, usize>, n: nat) -> Seq<
    (usize, usize, EdgeType),
>
    decreases n,
{
    if n == 0 {
        Seq::empty()
    } else {
        cfg_edges(s, m, (n - 1) as nat) + edges_at(s, m, (n - 1) as nat)
    }
}

/// The targets of the edges among the first `k` that leave block `b`, in
/// the order the edges were added.
pub open spec fn successors_among(edges: Seq<(usize, usize, EdgeType)>, b: usize, k: nat) -> Seq<usize>
    decreases k,
{
    if k == 0 {
        Seq::empty()
    } else if edges[k - 1].0 == b {
        successors_among(edges, b, (k - 1) as nat).push(edges[k - 1].1)
    } else {
        successors_among(edges, b, (k - 1) as nat)
    }
}

/// A control-flow graph: basic blocks connected by typed edges.
pub struct ControlFlowGraph {
    /// The graph of basic blocks.
    pub graph: BlockGraph,
    /// The node index of the entry block; `None` for an empty function.
    pub entry_block: Option<usize>,
    /// Maps the address value of each block's first instruction to the
    /// block's node index.
    pub block_finder: BTreeMap<u64, usize>,
}

impl ControlFlowGraph {
    /// The node weights of the graph.
    pub open spec fn blocks(&self) -> Seq<BasicBlock> {
        graph_blocks(self.graph)
    }

    /// The edges of the graph, in the order they were added.
    pub open spec fn edges(&self) -> Seq<(usize, usize, EdgeType)> {
        graph_edges(self.graph)
    }

    /// This is the graph built from the instruction sequence `s`.
    pub open spec fn is_cfg_of<I: Instruction>(&self, s: Seq<I>) -> bool {
        let d = block_addresses(s);
        let m = self.block_finder@;
        &&& s.len() <= MAX_INSTRUCTIONS
        &&& d.len() <= 2 * s.len()
        &&& s.len() == 0 ==> self.entry_block is None
        &&& s.len() > 0 ==> self.entry_block == Some(0usize)
        &&& self.blocks().len() == d.len()
        &&& indexes(m, d)
        &&& forall|b: int|
            0 <= b < d.len() ==> {
                &&& (#[trigger] self.blocks()[b]).address.address == d[b]
                &&& self.blocks()[b].name is None
                &&& self.blocks()[b].instruction_indices@ == block_members(
                    s,
                    m,
                    b as usize,
                    s.len(),
                )
            }
        &&& self.edges() == cfg_edges(s, m, s.len())
    }

    /// The number of basic blocks.
    pub fn block_count(&self) -> (r: usize)
        ensures
            r == self.blocks().len(),
    {
        graph_node_count(&self.graph)
    }

    /// The number of edges.
    pub fn edge_count(&self) -> (r: usize)
        ensures
            r == self.edges().len(),
    {
        graph_edge_count(&self.graph)
    }

    /// The block that starts at `address`, if any.
    pub fn block_at(&self, address: Address) -> (r: Option<usize>)
        ensures
            self.block_finder@.contains_key(address.address) ==> r == Some(
                self.block_finder@[address.address],
            ),
            !self.block_finder@.contains_key(address.address) ==> r is None,
    {
        match self.block_finder.get(&address.address) {
            Some(b) => Some(*b),
            None => None,
        }
    }

    /// The blocks that edges from `block` lead to, in the order the edges
    /// were added (with repeats for parallel edges).
    pub fn successors(&self, block: usize) -> (r: Vec<usize>)
        ensures
            r@ == successors_among(self.edges(), block, self.edges().len()),
    {
        let m = graph_edge_count(&self.graph);
        let mut out: Vec<usize> = Vec::new();
        let mut k: usize = 0;
        while k < m
            invariant
                k <= m,
                m == self.edges().len(),
                out@ == successors_among(self.edges(), block, k as nat),
            decreases m - k,
        {
            let (source, target, _kind) = graph_edge(&self.graph, k);
            if source == block {
                out.push(target);
            }
            k = k + 1;
        }
        out
    }

    /// After the leaders of the first `k` instructions were registered.
    pub open spec fn leaders_registered<I: Instruction>(&self, s: Seq<I>, k: nat) -> bool {
        self.leaders_registered_seq(leader_requests(s, k))
    }

    /// Build the control-flow graph of `instructions`.
    ///
    /// This is done in two passes. The first identifies the leaders, the
    /// instructions that begin a block, and adds a node for each. The second
    /// assigns each instruction to its block and adds the edges. Knowing all
    /// leaders first means no block has to be split when a backward branch
    /// is found.
    pub fn new<I: Instruction>(instructions: &[I]) -> (r: Self)
        requires
            instructions@.len() <= MAX_INSTRUCTIONS,
        ensures
            r.is_cfg_of(instructions@),
    {
        let mut cfg = ControlFlowGraph {
            graph: graph_new(),
            entry_block: None,
            block_finder: BTreeMap::new(),
        };
        if instructions.len() > 0 {
            cfg.identify_blocks(instructions);
            cfg.build_edges(instructions);
        } else {
            assert(cfg.block_finder@ =~= Map::<u64, usize>::empty());
        }
        cfg
    }

    /// Identify the leaders, the first instruction of each basic block: the
    /// first instruction, each instruction after a block terminator, and the
    /// target of each terminator when it lies between the first and the last
    /// instruction's address.
    fn identify_blocks<I: Instruction>(&mut self, instructions: &[I])
        requires
            0 < instructions@.len() <= MAX_INSTRUCTIONS,
            old(self).leaders_registered(instructions@, 0),
        ensures
            final(self).leaders_registered(instructions@, instructions@.len()),
            final(self).entry_block == Some(0usize),
    {
        let ghost s = instructions@;
        let n = instructions.len();
        let start_addr = instructions[0].address();
        let end_addr = instructions[n - 1].address();
        let mut next_is_leader: bool = true;
        let mut k: usize = 0;
        while k < n
            invariant
                n == s.len(),
                0 < n <= MAX_INSTRUCTIONS,
                0 <= k <= n,
                s == instructions@,
                start_addr.address == addr_of(s[0]),
                end_addr.address == addr_of(s.last()),
                next_is_leader == follows_terminator(s, k as int),
                self.leaders_registered(s, k as nat),
                leader_requests(s, k as nat).len() <= 2 * k,
            decreases n - k,
        {
            let ghost before = leader_requests(s, k as nat);
            proof {
                lemma_first_occurrences_len(before);
            }
            let inst = &instructions[k];
            if next_is_leader {
                self.add_node_to_graph(inst.address(), Ghost(before));
                next_is_leader = false;
            }
            let ghost mid = if follows_terminator(s, k as int) {
                before.push(addr_of(s[k as int]))
            } else {
                before
            };
            assert(self.leaders_registered_seq(mid));
            proof {
                lemma_first_occurrences_len(mid);
            }
            if inst.is_block_terminator() {
                match inst.target_address() {
                    Some(target_addr) => {
                        if target_addr.address >= start_addr.address && target_addr.address
                            <= end_addr.address {
                            self.add_node_to_graph(target_addr, Ghost(mid));
                        }
                    },
                    None => {},
                }
                next_is_leader = true;
            }
            let ghost after = if has_local_target(s, k as int) {
                mid.push(s[k as int].spec_target_address()->0.address)
            } else {
                mid
            };
            assert(self.leaders_registered_seq(after));
            assert(leader_requests(s, (k + 1) as nat) =~= after);
            k = k + 1;
        }
        proof {
            lemma_first_request(s, n as nat);
            lemma_first_occurrences_first(leader_requests(s, n as nat));
            let d = first_occurrences(leader_requests(s, n as nat));
            assert(d.contains(addr_of(s[0])));
            lemma_first_occurrences_len(leader_requests(s, n as nat));
            let a = addr_of(s[0]);
            assert(self.block_finder@.contains_key(a));
            assert(d[self.block_finder@[a] as int] == d[0]);
        }
        let first = instructions[0].address();
        self.entry_block = match self.block_finder.get(&first.address) {
            Some(b) => Some(*b),
            None => None,
        };
    }

    /// Add an edge of the given kind from block `current_block_idx` to the
    /// block at the target of `current_inst`, if that target starts a block.
    fn add_target_edge<I: Instruction>(
        &mut self,
        current_block_idx: usize,
        current_inst: &I,
        kind: EdgeType,
    )
        requires
            current_block_idx < old(self).blocks().len(),
            old(self).edges().len() + 1 < u32::MAX,
            forall|a: u64| #[trigger]
                old(self).block_finder@.contains_key(a) ==> old(self).block_finder@[a] < old(
                    self,
                ).blocks().len(),
        ensures
            final(self).edges() == old(self).edges() + target_edge(
                *current_inst,
                old(self).block_finder@,
                current_block_idx,
                kind,
            ),
            final(self).blocks() == old(self).blocks(),
            final(self).block_finder@ == old(self).block_finder@,
            final(self).entry_block == old(self).entry_block,
    {
        match current_inst.target_address() {
            Some(target_addr) => match self.block_finder.get(&target_addr.address) {
                Some(target_block_idx) => {
                    graph_add_edge(&mut self.graph, current_block_idx, *target_block_idx, kind);
                },
                None => {
                    assert(self.edges() =~= self.edges() + Seq::empty());
                },
            },
            None => {
                assert(self.edges() =~= self.edges() + Seq::empty());
            },
        }
    }

    /// Add the edge from block `current_block_idx` to the next block, if any.
    fn add_next_edge(&mut self, current_block_idx: usize, next_block_idx: Option<usize>, kind: EdgeType)
        requires
            current_block_idx < old(self).blocks().len(),
            next_block_idx matches Some(n) ==> n < old(self).blocks().len(),
            old(self).edges().len() + 1 < u32::MAX,
        ensures
            final(self).edges() == old(self).edges() + next_edge(current_block_idx, next_block_idx, kind),
            final(self).blocks() == old(self).blocks(),
            final(self).block_finder@ == old(self).block_finder@,
            final(self).entry_block == old(self).entry_block,
    {
        match next_block_idx {
            Some(index) => {
                graph_add_edge(&mut self.graph, current_block_idx, index, kind);
            },
            None => {
                assert(self.edges() =~= self.edges() + Seq::empty());
            },
        }
    }

    /// Add the edges that leave block `current_block_idx`, whose last
    /// instruction is `current_inst`, given the block that follows it.
    fn build_edge<I: Instruction>(
        &mut self,
        current_block_idx: usize,
        next_block_idx: Option<usize>,
        current_inst: &I,
    )
        requires
            current_block_idx < old(self).blocks().len(),
            next_block_idx matches Some(n) ==> n < old(self).blocks().len(),
            old(self).edges().len() + 2 < u32::MAX,
            forall|a: u64| #[trigger]
                old(self).block_finder@.contains_key(a) ==> old(self).block_finder@[a] < old(
                    self,
                ).blocks().len(),
        ensures
            final(self).edges() == old(self).edges() + closing_edges(
                *current_inst,
                old(self).block_finder@,
                current_block_idx,
                next_block_idx,
            ),
            final(self).blocks() == old(self).blocks(),
            final(self).block_finder@ == old(self).block_finder@,
            final(self).entry_block == old(self).entry_block,
    {
        let ghost e0 = self.edges();
        if current_inst.is_local_conditional_jump() {
            // One edge for the jump target and one for the fallthrough.
            self.add_target_edge(current_block_idx, current_inst, EdgeType::ConditionalTaken);
            self.add_next_edge(current_block_idx, next_block_idx, EdgeType::ConditionalFallthrough);
            assert(self.edges() =~= e0 + closing_edges(
                *current_inst,
                self.block_finder@,
                current_block_idx,
                next_block_idx,
            ));
        } else if current_inst.is_call() {
            // Control returns to the instruction after the call.
            self.add_next_edge(current_block_idx, next_block_idx, EdgeType::Unconditional);
        } else if current_inst.is_local_jump() {
            self.add_target_edge(current_block_idx, current_inst, EdgeType::Unconditional);
        } else if current_inst.is_return() {
            // The exit of the function is not an edge of the graph.
            assert(self.edges() =~= e0 + Seq::empty());
        } else {
            // A non-branching instruction ends this block: control falls
            // through to the next one.
            self.add_next_edge(current_block_idx, next_block_idx, EdgeType::Unconditional);
        }
    }

    /// Assign each instruction to its block and add the edges between the
    /// blocks identified before.
    fn build_edges<I: Instruction>(&mut self, instructions: &[I])
        requires
            0 < instructions@.len() <= MAX_INSTRUCTIONS,
            old(self).leaders_registered(instructions@, instructions@.len()),
            old(self).entry_block == Some(0usize),
        ensures
            final(self).is_cfg_of(instructions@),
    {
        let ghost s = instructions@;
        let ghost m = self.block_finder@;
        let ghost d = block_addresses(s);
        let n = instructions.len();
        proof {
            lemma_first_request(s, n as nat);
            lemma_first_occurrences_first(leader_requests(s, n as nat));
            assert(d.contains(addr_of(s[0])));
            lemma_first_occurrences_len(leader_requests(s, n as nat));
            lemma_leader_requests_len(s, n as nat);
            let a = addr_of(s[0]);
            assert(m.contains_key(a));
            assert(d[m[a] as int] == d[0]);
        }
        let mut current_block_idx: usize = 0;
        let mut k: usize = 0;
        while k < n
            invariant
                n == s.len(),
                0 < n <= MAX_INSTRUCTIONS,
                0 <= k <= n,
                s == instructions@,
                d == block_addresses(s),
                d.len() <= 2 * n,
                d.contains(addr_of(s[0])),
                self.block_finder@ == m,
                indexes(m, d),
                self.entry_block == Some(0usize),
                self.blocks().len() == d.len(),
                k < n ==> current_block_idx == current_block(s, m, k as nat),
                forall|b: int|
                    0 <= b < d.len() ==> {
                        &&& (#[trigger] self.blocks()[b]).address.address == d[b]
                        &&& self.blocks()[b].name is None
                        &&& self.blocks()[b].instruction_indices@ == block_members(
                            s,
                            m,
                            b as usize,
                            k as nat,
                        )
                    },
                self.edges() == cfg_edges(s, m, k as nat),
                self.edges().len() <= 2 * k,
            decreases n - k,
        {
            proof {
                lemma_current_block_bound(s, m, d, k as nat);
            }
            let ghost blocks0 = self.blocks();
            graph_block_mut(&mut self.graph, current_block_idx).instruction_indices.push(k);
            assert forall|b: int| 0 <= b < d.len() implies (#[trigger] self.blocks()[b]).instruction_indices@
                == block_members(s, m, b as usize, (k + 1) as nat) by {
                if b != current_block_idx {
                    assert(self.blocks()[b] == blocks0[b]);
                    assert(block_members(s, m, b as usize, (k + 1) as nat) =~= block_members(s, m, b as usize, k as nat));
                }
            }
            let ghost edges0 = self.edges();
            if k + 1 < n {
                // Does the next instruction begin a basic block?
                let next_addr = instructions[k + 1].address();
                let next_block_idx = match self.block_finder.get(&next_addr.address) {
                    Some(b) => *b,
                    None => current_block_idx,
                };
                proof {
                    lemma_current_block_bound(s, m, d, (k + 1) as nat);
                }
                if next_block_idx != current_block_idx {
                    self.build_edge(current_block_idx, Some(next_block_idx), &instructions[k]);
                    current_block_idx = next_block_idx;
                } else {
                    assert(self.edges() =~= edges0 + Seq::empty());
                }
            } else {
                self.build_edge(current_block_idx, None, &instructions[k]);
            }
            proof {
                lemma_closing_edges_len(s[k as int], m, current_block(s, m, k as nat), if k + 1 < n { Some(current_block(s, m, (k + 1) as nat)) } else { None });
            }
            k = k + 1;
        }
    }

    /// The blocks and the block finder hold the addresses of `first_occurrences(e)`.
    pub open spec fn leaders_registered_seq(&self, e: Seq<u64>) -> bool {
        let d = first_occurrences(e);
        &&& self.blocks().len() == d.len()
        &&& indexes(self.block_finder@, d)
        &&& forall|b: int|
            0 <= b < d.len() ==> {
                &&& (#[trigger] self.blocks()[b]).address.address == d[b]
                &&& self.blocks()[b].name is None
                &&& self.blocks()[b].instruction_indices@ == Seq::<usize>::empty()
            }
        &&& self.edges() == Seq::<(usize, usize, EdgeType)>::empty()
    }

    /// Add a block for `address`, unless one exists already.
    fn add_node_to_graph(&mut self, address: Address, Ghost(e): Ghost<Seq<u64>>)
        requires
            old(self).leaders_registered_seq(e),
            first_occurrences(e).len() < u32::MAX,
        ensures
            final(self).leaders_registered_seq(e.push(address.address)),
            final(self).entry_block == old(self).entry_block,
    {
        assert(e.push(address.address).drop_last() =~= e);
        if self.block_finder.contains_key(&address.address) {
            return;
        }
        let ghost d = first_occurrences(e);
        let idx = graph_add_node(&mut self.graph, BasicBlock::new(address));
        self.block_finder.insert(address.address, idx);
        let ghost d2 = first_occurrences(e.push(address.address));
        assert(d2 == d.push(address.address));
        assert forall|a: u64| #[trigger] self.block_finder@.contains_key(a) implies self.block_finder@[a] < d2.len() && d2[self.block_finder@[a] as int] == a by {
            if a != address.address {
                assert(d.contains(a));
            }
        }
        assert forall|a: u64| #[trigger] self.block_finder@.contains_key(a) <==> d2.contains(a) by {
            if d2.contains(a) && a != address.address {
                let j = choose|j: int| 0 <= j < d2.len() && d2[j] == a;
                assert(d[j] == a);
            }
            if d.contains(a) {
                let j = choose|j: int| 0 <= j < d.len() && d[j] == a;
                assert(d2[j] == a);
            }
        }
    }
}

/// `first_occurrences` lists no value twice and is no longer than its input.
proof fn lemma_first_occurrences_len(e: Seq<u64>)
    ensures
        first_occurrences(e).len() <= e.len(),
        first_occurrences(e).no_duplicates(),
        first_occurrences(e).to_set() == e.to_set(),
    decreases e.len(),
{
    if e.len() > 0 {
        lemma_first_occurrences_len(e.drop_last());
        let d = first_occurrences(e.drop_last());
        assert(e =~= e.drop_last().push(e.last()));
        Seq::lemma_to_set_insert_commutes(e.drop_last(), e.last());
        assert(e =~= e.drop_last() + seq![e.last()]);
        if !d.contains(e.last()) {
            Seq::lemma_to_set_insert_commutes(d, e.last());
            assert(d.push(e.last()) =~= d + seq![e.last()]);
        } else {
            assert(d.to_set() =~= d.to_set().insert(e.last()));
        }
    }
}

/// The first instruction's address is the first leader requested.
proof fn lemma_first_request<I: Instruction>(s: Seq<I>, n: nat)
    requires
        0 < n <= s.len(),
    ensures
        leader_requests(s, n).len() > 0,
        leader_requests(s, n)[0] == addr_of(s[0]),
    decreases n,
{
    let at = leader_requests_at(s, n - 1);
    if n > 1 {
        lemma_first_request(s, (n - 1) as nat);
        assert(leader_requests(s, n)[0] == leader_requests(s, (n - 1) as nat)[0]);
    } else {
        assert(follows_terminator(s, 0));
        assert(at[0] == addr_of(s[0]));
        assert(leader_requests(s, 0) =~= Seq::<u64>::empty());
        assert(leader_requests(s, n) == leader_requests(s, 0) + at);
        assert(leader_requests(s, n) =~= at);
    }
}

/// The first value of a non-empty sequence occurs first.
proof fn lemma_first_occurrences_first(e: Seq<u64>)
    requires
        e.len() > 0,
    ensures
        first_occurrences(e).len() > 0,
        first_occurrences(e)[0] == e[0],
    decreases e.len(),
{
    if e.len() > 1 {
        lemma_first_occurrences_first(e.drop_last());
        assert(e.drop_last()[0] == e[0]);
    } else {
        assert(e.drop_last().len() == 0);
        assert(first_occurrences(e.drop_last()).len() == 0);
        assert(first_occurrences(e) =~= seq![e.last()]);
    }
}

/// The entry block: for a non-empty sequence it is the block at the first
/// instruction's address, which holds that instruction; for the empty
/// sequence there is no entry block and no block at all.
pub proof fn lemma_entry_block<I: Instruction>(cfg: &ControlFlowGraph, s: Seq<I>)
    requires
        cfg.is_cfg_of(s),
    ensures
        s.len() == 0 ==> cfg.entry_block is None && cfg.blocks().len() == 0,
        s.len() > 0 ==> {
            &&& cfg.entry_block == Some(0usize)
            &&& cfg.block_finder@.contains_key(addr_of(s[0]))
            &&& cfg.block_finder@[addr_of(s[0])] == 0
            &&& cfg.blocks()[0].address == s[0].spec_address()
            &&& cfg.blocks()[0].instruction_indices@.contains(0usize)
        },
{
    let n = s.len();
    let m = cfg.block_finder@;
    let d = block_addresses(s);
    if n == 0 {
        assert(leader_requests(s, 0) =~= Seq::<u64>::empty());
    } else {
        lemma_first_request(s, n);
        lemma_first_occurrences_first(leader_requests(s, n));
        lemma_first_occurrences_len(leader_requests(s, n));
        let a = addr_of(s[0]);
        assert(d.contains(a));
        assert(m.contains_key(a));
        assert(d[m[a] as int] == d[0]);
        lemma_block_members(s, m, 0, n);
        assert(cfg.blocks()[0].address.address == a);
    }
}

/// The graph has one block per distinct leader address: registering an
/// address twice never adds a second block.
pub proof fn lemma_blocks_are_leaders<I: Instruction>(cfg: &ControlFlowGraph, s: Seq<I>)
    requires
        cfg.is_cfg_of(s),
    ensures
        cfg.blocks().len() == leaders(s).len(),
        forall|b: int| 0 <= b < cfg.blocks().len() ==> leaders(s).contains(#[trigger] cfg.blocks()[b].address.address),
        forall|b1: int, b2: int|
            0 <= b1 < cfg.blocks().len() && 0 <= b2 < cfg.blocks().len() && #[trigger] cfg.blocks()[b1].address
                == #[trigger] cfg.blocks()[b2].address ==> b1 == b2,
{
    let e = leader_requests(s, s.len());
    let d = block_addresses(s);
    lemma_first_occurrences_len(e);
    lemma_leader_requests_contents(s, s.len());
    assert(e.to_set() =~= leaders(s));
    d.unique_seq_to_set();
    assert forall|b: int| 0 <= b < cfg.blocks().len() implies leaders(s).contains(#[trigger] cfg.blocks()[b].address.address) by {
        assert(d.to_set().contains(d[b]));
    }
}

/// Every instruction is in exactly one block, and each block lists its
/// instructions in program order.
pub proof fn lemma_instructions_partitioned<I: Instruction>(cfg: &ControlFlowGraph, s: Seq<I>)
    requires
        cfg.is_cfg_of(s),
    ensures
        forall|k: int|
            #![trigger s[k]]
            0 <= k < s.len() ==> exists|b: int|
                0 <= b < cfg.blocks().len() && (#[trigger] cfg.blocks()[b]).instruction_indices@.contains(k as usize),
        forall|k: int, b1: int, b2: int|
            0 <= k < s.len() && 0 <= b1 < cfg.blocks().len() && 0 <= b2 < cfg.blocks().len()
                && #[trigger] cfg.blocks()[b1].instruction_indices@.contains(k as usize)
                && #[trigger] cfg.blocks()[b2].instruction_indices@.contains(k as usize) ==> b1 == b2,
        forall|b: int, i: int, j: int|
            0 <= b < cfg.blocks().len() && 0 <= i < j < cfg.blocks()[b].instruction_indices@.len()
                ==> #[trigger] cfg.blocks()[b].instruction_indices@[i] < #[trigger] cfg.blocks()[b].instruction_indices@[j],
        forall|b: int, i: int|
            0 <= b < cfg.blocks().len() && 0 <= i < cfg.blocks()[b].instruction_indices@.len()
                ==> #[trigger] cfg.blocks()[b].instruction_indices@[i] < s.len(),
{
    let n = s.len();
    let m = cfg.block_finder@;
    let d = block_addresses(s);
    assert forall|b: int| #![trigger cfg.blocks()[b]] 0 <= b < cfg.blocks().len() implies {
        &&& forall|k: int| 0 <= k < n ==> ((#[trigger] cfg.blocks()[b].instruction_indices@.contains(k as usize)) <==> current_block(s, m, k as nat) == b)
        &&& forall|i: int, j: int| 0 <= i < j < cfg.blocks()[b].instruction_indices@.len()
                ==> #[trigger] cfg.blocks()[b].instruction_indices@[i] < #[trigger] cfg.blocks()[b].instruction_indices@[j]
        &&& forall|i: int| 0 <= i < cfg.blocks()[b].instruction_indices@.len()
                ==> #[trigger] cfg.blocks()[b].instruction_indices@[i] < n
    } by {
        lemma_block_members(s, m, b as usize, n);
    }
    if n > 0 {
        lemma_first_request(s, n);
        lemma_first_occurrences_first(leader_requests(s, n));
        assert(d.contains(addr_of(s[0])));
        assert forall|k: int| #![trigger s[k]] 0 <= k < n implies exists|b: int|
            0 <= b < cfg.blocks().len() && (#[trigger] cfg.blocks()[b]).instruction_indices@.contains(k as usize) by {
            lemma_current_block_bound(s, m, d, k as nat);
            let b = current_block(s, m, k as nat) as int;
            assert(cfg.blocks()[b].instruction_indices@.contains(k as usize));
        }
    }
}

/// Building twice from the same instruction sequence gives graphs with the
/// same blocks, the same block finder and the same edges, kinds included.
pub proof fn lemma_build_deterministic<I: Instruction>(
    cfg1: &ControlFlowGraph,
    cfg2: &ControlFlowGraph,
    s: Seq<I>,
)
    requires
        cfg1.is_cfg_of(s),
        cfg2.is_cfg_of(s),
    ensures
        cfg1.blocks().len() == cfg2.blocks().len(),
        cfg1.edges().len() == cfg2.edges().len(),
        cfg1.edges() == cfg2.edges(),
        cfg1.block_finder@ == cfg2.block_finder@,
        cfg1.entry_block == cfg2.entry_block,
{
    let d = block_addresses(s);
    lemma_first_occurrences_len(leader_requests(s, s.len()));
    let m1 = cfg1.block_finder@;
    let m2 = cfg2.block_finder@;
    assert forall|a: u64| #[trigger] m1.contains_key(a) implies m1[a] == m2[a] by {
        assert(m2.contains_key(a));
        assert(d[m1[a] as int] == d[m2[a] as int]);
    }
    assert(m1 =~= m2);
}

/// The leader requests of the first `n` instructions are the leaders among them.
proof fn lemma_leader_requests_contents<I: Instruction>(s: Seq<I>, n: nat)
    requires
        n <= s.len(),
    ensures
        forall|a: u64|
            #[trigger] leader_requests(s, n).contains(a) <==> exists|k: int|
                0 <= k < n && ((follows_terminator(s, k) && a == addr_of(s[k])) || (
                has_local_target(s, k) && a == s[k].spec_target_address()->0.address)),
    decreases n,
{
    if n == 0 {
        assert(leader_requests(s, 0) =~= Seq::<u64>::empty());
    } else {
        lemma_leader_requests_contents(s, (n - 1) as nat);
        let prev = leader_requests(s, (n - 1) as nat);
        let at = leader_requests_at(s, n - 1);
        assert forall|a: u64| #[trigger] leader_requests(s, n).contains(a) <==> exists|k: int|
            0 <= k < n && ((follows_terminator(s, k) && a == addr_of(s[k])) || (
            has_local_target(s, k) && a == s[k].spec_target_address()->0.address)) by {
            if leader_requests(s, n).contains(a) {
                let j = choose|j: int| 0 <= j < leader_requests(s, n).len() && leader_requests(s, n)[j] == a;
                if j < prev.len() {
                    assert(prev[j] == a);
                    assert(prev.contains(a));
                } else {
                    assert(at[j - prev.len()] == a);
                }
            }
            if exists|k: int|
                0 <= k < n && ((follows_terminator(s, k) && a == addr_of(s[k])) || (
                has_local_target(s, k) && a == s[k].spec_target_address()->0.address)) {
                let k = choose|k: int|
                    0 <= k < n && ((follows_terminator(s, k) && a == addr_of(s[k])) || (
                    has_local_target(s, k) && a == s[k].spec_target_address()->0.address));
                if k < n - 1 {
                    assert(prev.contains(a));
                    let j = choose|j: int| 0 <= j < prev.len() && prev[j] == a;
                    assert(leader_requests(s, n)[j] == a);
                } else if follows_terminator(s, k) && a == addr_of(s[k]) {
                    assert(leader_requests(s, n)[prev.len() as int] == a);
                } else {
                    assert(leader_requests(s, n)[leader_requests(s, n).len() - 1] == a);
                }
            }
        }
    }
}

/// Block `b` lists, in increasing order, exactly the instructions among the
/// first `n` whose current block is `b`.
proof fn lemma_block_members<I: Instruction>(s: Seq<I>, m: Map<u64, usize>, b: usize, n: nat)
    requires
        n <= MAX_INSTRUCTIONS,
    ensures
        forall|k: int| 0 <= k < n ==> ((#[trigger] block_members(s, m, b, n).contains(k as usize)) <==> current_block(s, m, k as nat) == b),
        forall|i: int, j: int| 0 <= i < j < block_members(s, m, b, n).len()
            ==> #[trigger] block_members(s, m, b, n)[i] < #[trigger] block_members(s, m, b, n)[j],
        forall|i: int| 0 <= i < block_members(s, m, b, n).len() ==> #[trigger] block_members(s, m, b, n)[i] < n,
    decreases n,
{
    if n > 0 {
        lemma_block_members(s, m, b, (n - 1) as nat);
        let prev = block_members(s, m, b, (n - 1) as nat);
        let cur = block_members(s, m, b, n);
        assert forall|k: int| 0 <= k < n implies ((#[trigger] cur.contains(k as usize)) <==> current_block(s, m, k as nat) == b) by {
            if cur.contains(k as usize) {
                let j = choose|j: int| 0 <= j < cur.len() && cur[j] == k as usize;
                if j < prev.len() {
                    assert(prev[j] == k as usize);
                    assert(prev.contains(k as usize));
                }
            }
            if current_block(s, m, k as nat) == b {
                if k < n - 1 {
                    assert(prev.contains(k as usize));
                    let j = choose|j: int| 0 <= j < prev.len() && prev[j] == k as usize;
                    assert(cur[j] == k as usize);
                } else {
                    assert(cur[cur.len() - 1] == k as usize);
                }
            }
        }
    }
}

/// At most two leaders are requested per instruction.
proof fn lemma_leader_requests_len<I: Instruction>(s: Seq<I>, n: nat)
    ensures
        leader_requests(s, n).len() <= 2 * n,
    decreases n,
{
    if n > 0 {
        lemma_leader_requests_len(s, (n - 1) as nat);
    }
}

/// The block of each instruction is a block of the graph.
proof fn lemma_current_block_bound<I: Instruction>(s: Seq<I>, m: Map<u64, usize>, d: Seq<u64>, k: nat)
    requires
        indexes(m, d),
        d.contains(addr_of(s[0])),
        k < s.len(),
    ensures
        current_block(s, m, k) < d.len(),
    decreases k,
{
    assert(m.contains_key(addr_of(s[0])));
    if k > 0 && !m.contains_key(addr_of(s[k as int])) {
        lemma_current_block_bound(s, m, d, (k - 1) as nat);
    }
}

/// A block is closed by at most two edges.
proof fn lemma_closing_edges_len<I: Instruction>(i: I, m: Map<u64, usize>, c: usize, next: Option<usize>)
    ensures
        closing_edges(i, m, c, next).len() <= 2,
{
}

} // verus!
