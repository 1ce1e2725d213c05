use crate::basicblock::EdgeType;
use crate::cfg::ControlFlowGraph;
use crate::graph::{graph_edge, graph_edge_count, graph_node_count};
use vstd::prelude::*;

verus! {

/// A loop of the loop nesting forest.
#[derive(Debug)]
pub struct SimpleLoop {
    /// The blocks of this loop that belong to no inner loop, header first.
    pub basic_blocks: Vec<usize>,
    /// The positions in `LoopStructureGraph::loops` of the loops directly
    /// inside this one, in increasing order.
    pub children: Vec<usize>,
    /// The position in `LoopStructureGraph::loops` of the loop directly
    /// around this one; `None` when that is the root.
    pub parent: Option<usize>,
    /// The number of this loop: 0 for the root, then 1, 2, ... in order of
    /// discovery.
    pub counter: usize,
    /// The header block; `None` for the root.
    pub header: Option<usize>,
    /// Whether this is the synthetic root of the forest.
    pub is_root: bool,
    /// Whether every path from the entry into the loop passes its header.
    pub is_reducible: bool,
    /// 0 for an innermost loop, else one more than the largest nesting level
    /// of the loops directly inside it.
    pub nesting_level: usize,
    /// The distance from the root in the forest: 1 for an outermost loop.
    pub depth_level: usize,
}

impl SimpleLoop {
    /// Construct an empty loop with the given number.
    pub fn new(counter: usize) -> (r: Self)
        ensures
            r.counter == counter,
            r.basic_blocks@.len() == 0,
            r.children@.len() == 0,
            r.parent is None,
            r.header is None,
            !r.is_root,
            !r.is_reducible,
            r.nesting_level == 0,
            r.depth_level == 0,
    {
        SimpleLoop {
            basic_blocks: Vec::new(),
            children: Vec::new(),
            parent: None,
            counter,
            header: None,
            is_root: false,
            is_reducible: false,
            nesting_level: 0,
            depth_level: 0,
        }
    }
}

/// The loop nesting forest of a control-flow graph.
///
/// Two values are kept for each loop: its depth, counted from the root
/// down, and its nesting level, counted from the innermost loops up:
///
/// ```text
///    loop        nesting level    depth
///   ----------------------------------------
///    root        2                0
///      loop-1    1                1
///      loop-3    1                1
///        loop-2  0                2
/// ```
#[derive(Debug)]
pub struct LoopStructureGraph {
    /// The number the next loop found would get.
    pub loop_counter: usize,
    /// The loops found, innermost first: a loop comes before the loop
    /// around it.
    pub loops: Vec<SimpleLoop>,
    /// The synthetic root, which holds no block and is around every loop.
    pub root: SimpleLoop,
}

/// Whether some edge leads from block `a` to block `b`.
pub open spec fn is_edge(edges: Seq<(usize, usize, EdgeType)>, a: usize, b: usize) -> bool {
    exists|k: int| 0 <= k < edges.len() && #[trigger] edges[k].0 == a && edges[k].1 == b
}

/// Whether `path` is a non-empty walk along `edges` through blocks below `n`.
pub open spec fn is_walk(edges: Seq<(usize, usize, EdgeType)>, n: nat, path: Seq<usize>) -> bool {
    &&& path.len() > 0
    &&& forall|i: int| 0 <= i < path.len() ==> #[trigger] path[i] < n
    &&& forall|i: int| 0 <= i < path.len() - 1 ==> #[trigger] is_edge(edges, path[i], path[i + 1])
}

/// Whether a walk along `edges` through blocks below `n` leads from `from`
/// to `to`.
pub open spec fn reaches(edges: Seq<(usize, usize, EdgeType)>, n: nat, from: usize, to: usize) -> bool {
    exists|path: Seq<usize>| #[trigger] is_walk(edges, n, path) && path[0] == from && path.last() == to
}

/// Whether block `h` lies on a cycle: some block that `h` reaches has an
/// edge back to `h`.
pub open spec fn on_cycle(edges: Seq<(usize, usize, EdgeType)>, n: nat, h: usize) -> bool {
    exists|b: usize| #[trigger] reaches(edges, n, h, b) && is_edge(edges, b, h)
}

/// Whether `h` dominates `b`: every walk from `from` to `b` through blocks
/// below `n` passes `h`.
pub open spec fn dominates(edges: Seq<(usize, usize, EdgeType)>, n: nat, from: usize, h: usize, b: usize) -> bool {
    forall|path: Seq<usize>| #[trigger] is_walk(edges, n, path) && path[0] == from && path.last() == b ==> path.contains(h)
}

/// Whether some loop has header `b`.
pub open spec fn heads_loop(loops: Seq<SimpleLoop>, b: usize) -> bool {
    exists|i: int| 0 <= i < loops.len() && (#[trigger] loops[i]).header == Some(b)
}

/// No block is listed twice, in one loop or in two.
pub open spec fn blocks_listed_once(loops: Seq<SimpleLoop>) -> bool {
    forall|i: int, j: int, a: int, b: int|
        0 <= i < loops.len() && 0 <= j < loops.len() && 0 <= a < loops[i].basic_blocks@.len() && 0
            <= b < loops[j].basic_blocks@.len() && (i != j || a != b) ==> #[trigger] loops[i].basic_blocks@[a]
            != #[trigger] loops[j].basic_blocks@[b]
}

/// The parent of each loop.
pub open spec fn parents_of(loops: Seq<SimpleLoop>) -> Seq<Option<usize>> {
    loops.map_values(|l: SimpleLoop| l.parent)
}

/// The positions below `k` whose parent is `p`, in increasing order.
pub open spec fn children_among(ps: Seq<Option<usize>>, p: Option<usize>, k: nat) -> Seq<usize>
    decreases k,
{
    if k == 0 {
        Seq::empty()
    } else if ps[k - 1] == p {
        children_among(ps, p, (k - 1) as nat).push((k - 1) as usize)
    } else {
        children_among(ps, p, (k - 1) as nat)
    }
}

/// One more than the largest of `ns` over the positions below `k` whose
/// parent is `p`; 0 when there is none.
pub open spec fn child_nesting(ps: Seq<Option<usize>>, ns: Seq<usize>, p: Option<usize>, k: nat) -> nat
    decreases k,
{
    if k == 0 {
        0
    } else {
        let prev = child_nesting(ps, ns, p, (k - 1) as nat);
        if ps[k - 1] == p && prev < ns[k - 1] + 1 {
            (ns[k - 1] + 1) as nat
        } else {
            prev
        }
    }
}

impl LoopStructureGraph {
    /// The nesting level of each loop.
    pub open spec fn nesting_levels(&self) -> Seq<usize> {
        self.loops@.map_values(|l: SimpleLoop| l.nesting_level)
    }

    /// This is a well-formed loop forest over the blocks `0..n`.
    pub open spec fn is_forest(&self, n: nat) -> bool {
        let loops = self.loops@;
        let ps = parents_of(loops);
        let ns = self.nesting_levels();
        &&& self.loop_counter == loops.len() + 1
        &&& self.root.is_root
        &&& self.root.header is None
        &&& self.root.parent is None
        &&& self.root.basic_blocks@.len() == 0
        &&& self.root.counter == 0
        &&& self.root.depth_level == 0
        &&& self.root.children@ == children_among(ps, None, loops.len())
        &&& self.root.nesting_level == child_nesting(ps, ns, None, loops.len())
        &&& blocks_listed_once(loops)
        &&& forall|i: int|
            0 <= i < loops.len() ==> {
                let l = #[trigger] loops[i];
                &&& !l.is_root
                &&& l.counter == i + 1
                &&& l.header matches Some(h) && h < n
                &&& l.basic_blocks@.len() > 0
                &&& l.basic_blocks@[0] == l.header->0
                &&& forall|j: int| 0 <= j < l.basic_blocks@.len() ==> #[trigger] l.basic_blocks@[j] < n
                &&& l.parent matches Some(p) ==> i < p < loops.len()
                &&& l.depth_level == match l.parent {
                    Some(p) => loops[p as int].depth_level + 1,
                    None => 1,
                }
                &&& l.children@ == children_among(ps, Some(i as usize), loops.len())
                &&& l.nesting_level == child_nesting(ps, ns, Some(i as usize), loops.len())
            }
    }
}

impl LoopStructureGraph {
    /// The position in `loops` of the loop that lists `block` among its
    /// blocks (its innermost loop); `None` when no loop does.
    pub fn loop_of_block(&self, block: usize) -> (r: Option<usize>)
        ensures
            r matches Some(i) ==> i < self.loops@.len() && self.loops@[i as int].basic_blocks@.contains(block),
            r is None ==> forall|i: int| 0 <= i < self.loops@.len() ==> !(#[trigger] self.loops@[i]).basic_blocks@.contains(block),
    {
        let mut i: usize = 0;
        while i < self.loops.len()
            invariant
                i <= self.loops@.len(),
                forall|q: int| 0 <= q < i ==> !(#[trigger] self.loops@[q]).basic_blocks@.contains(block),
            decreases self.loops@.len() - i,
        {
            let blocks = &self.loops[i].basic_blocks;
            let mut a: usize = 0;
            while a < blocks.len()
                invariant
                    i < self.loops@.len(),
                    a <= blocks@.len(),
                    *blocks == self.loops@[i as int].basic_blocks,
                    forall|c: int| 0 <= c < a ==> blocks@[c] != block,
                decreases blocks@.len() - a,
            {
                if blocks[a] == block {
                    assert(self.loops@[i as int].basic_blocks@[a as int] == block);
                    return Some(i);
                }
                a = a + 1;
            }
            i = i + 1;
        }
        None
    }
}

impl Default for LoopStructureGraph {
    /// A forest with only its root.
    fn default() -> (r: Self)
        ensures
            r.is_forest(0),
            r.loops@.len() == 0,
    {
        let mut root = SimpleLoop::new(0);
        root.is_root = true;
        let r = LoopStructureGraph { loop_counter: 1, loops: Vec::new(), root };
        assert(r.root.children@ =~= children_among(parents_of(r.loops@), None, 0));
        r
    }
}


/// Whether every value listed in `lists` is below `n`.
pub open spec fn all_below(lists: Seq<Vec<usize>>, n: nat) -> bool {
    forall|v: int, j: int|
        0 <= v < lists.len() && 0 <= j < lists[v]@.len() ==> #[trigger] lists[v]@[j] < n
}

/// The successors and the predecessors of each block, in the order in which
/// the edges were added.
fn adjacency(cfg: &ControlFlowGraph, n: usize) -> (r: (Vec<Vec<usize>>, Vec<Vec<usize>>))
    requires
        n == cfg.blocks().len(),
    ensures
        r.0@.len() == n,
        r.1@.len() == n,
        all_below(r.0@, n as nat),
        all_below(r.1@, n as nat),
        forall|k: int| 0 <= k < cfg.edges().len() && #[trigger] cfg.edges()[k].0 < n && cfg.edges()[k].1 < n ==> {
            &&& r.0@[cfg.edges()[k].0 as int]@.contains(cfg.edges()[k].1)
            &&& r.1@[cfg.edges()[k].1 as int]@.contains(cfg.edges()[k].0)
        },
        forall|v: int, j: int| 0 <= v < n && 0 <= j < r.0@[v]@.len() ==> is_edge(cfg.edges(), v as usize, #[trigger] r.0@[v]@[j]),
        forall|t: int, j: int| 0 <= t < n && 0 <= j < r.1@[t]@.len() ==> is_edge(cfg.edges(), #[trigger] r.1@[t]@[j], t as usize),
{
    let mut succs: Vec<Vec<usize>> = Vec::new();
    let mut preds: Vec<Vec<usize>> = Vec::new();
    let mut v: usize = 0;
    while v < n
        invariant
            v <= n,
            succs@.len() == v,
            preds@.len() == v,
            forall|i: int| 0 <= i < v ==> (#[trigger] succs@[i])@.len() == 0,
            forall|i: int| 0 <= i < v ==> (#[trigger] preds@[i])@.len() == 0,
        decreases n - v,
    {
        succs.push(Vec::new());
        preds.push(Vec::new());
        v = v + 1;
    }
    let m = graph_edge_count(&cfg.graph);
    let mut k: usize = 0;
    while k < m
        invariant
            k <= m,
            m == cfg.edges().len(),
            n == cfg.blocks().len(),
            succs@.len() == n,
            preds@.len() == n,
            all_below(succs@, n as nat),
            all_below(preds@, n as nat),
            forall|e: int| 0 <= e < k && #[trigger] cfg.edges()[e].0 < n && cfg.edges()[e].1 < n ==> {
                &&& succs@[cfg.edges()[e].0 as int]@.contains(cfg.edges()[e].1)
                &&& preds@[cfg.edges()[e].1 as int]@.contains(cfg.edges()[e].0)
            },
            forall|v: int, j: int| 0 <= v < n && 0 <= j < succs@[v]@.len() ==> is_edge(cfg.edges(), v as usize, #[trigger] succs@[v]@[j]),
            forall|t: int, j: int| 0 <= t < n && 0 <= j < preds@[t]@.len() ==> is_edge(cfg.edges(), #[trigger] preds@[t]@[j], t as usize),
        decreases m - k,
    {
        let (source, target, _kind) = graph_edge(&cfg.graph, k);
        if source < n && target < n {
            let ghost succs0 = succs@;
            let ghost preds0 = preds@;
            succs[source].push(target);
            preds[target].push(source);
            proof {
                assert forall|t: int, j: int| 0 <= t < n && 0 <= j < preds@[t]@.len() implies is_edge(cfg.edges(), #[trigger] preds@[t]@[j], t as usize) by {
                    if t == target && j == preds@[t]@.len() - 1 {
                        assert(cfg.edges()[k as int].0 == source && cfg.edges()[k as int].1 == target);
                    } else {
                        assert(preds@[t]@[j] == preds0[t]@[j]);
                    }
                }
                assert forall|v: int, j: int| 0 <= v < n && 0 <= j < succs@[v]@.len() implies is_edge(cfg.edges(), v as usize, #[trigger] succs@[v]@[j]) by {
                    if v == source && j == succs@[v]@.len() - 1 {
                        assert(cfg.edges()[k as int].0 == source && cfg.edges()[k as int].1 == target);
                    } else {
                        assert(succs@[v]@[j] == succs0[v]@[j]);
                    }
                }
                assert forall|e: int| 0 <= e < k + 1 && #[trigger] cfg.edges()[e].0 < n && cfg.edges()[e].1 < n implies {
                    &&& succs@[cfg.edges()[e].0 as int]@.contains(cfg.edges()[e].1)
                    &&& preds@[cfg.edges()[e].1 as int]@.contains(cfg.edges()[e].0)
                } by {
                    let (es, et, _) = cfg.edges()[e];
                    if e < k {
                        let i = choose|i: int| 0 <= i < succs0[es as int]@.len() && succs0[es as int]@[i] == et;
                        assert(succs@[es as int]@[i] == et);
                        let j = choose|j: int| 0 <= j < preds0[et as int]@.len() && preds0[et as int]@[j] == es;
                        assert(preds@[et as int]@[j] == es);
                    } else {
                        assert(succs@[es as int]@.last() == et);
                        assert(preds@[et as int]@.last() == es);
                    }
                }
            }
        }
        k = k + 1;
    }
    (succs, preds)
}

/// A depth-first spanning tree, by preorder number.
struct DfsTree {
    /// The preorder number of each block; `None` for an unreached block.
    number: Vec<Option<usize>>,
    /// The block of each preorder number.
    node_of: Vec<usize>,
    /// The largest preorder number in the subtree of each preorder number.
    last: Vec<usize>,
    /// For each preorder number, a walk from the entry to its block along
    /// the spanning tree: through its ancestors only.
    walks: Ghost<Seq<Seq<usize>>>,
}

impl DfsTree {
    /// The numbering is consistent over `n` blocks.
    spec fn wf(&self, n: nat) -> bool {
        let count = self.node_of@.len();
        &&& self.number@.len() == n
        &&& 0 < count <= n
        &&& self.last@.len() == count
        &&& forall|v: int| 0 <= v < n ==> (#[trigger] self.number@[v] matches Some(w) ==> w < count && self.node_of@[w as int] == v)
        &&& forall|w: int| 0 <= w < count ==> #[trigger] self.node_of@[w] < n && self.number@[self.node_of@[w] as int] == Some(w as usize)
        &&& forall|w: int| 0 <= w < count ==> #[trigger] self.last@[w] < count && w <= self.last@[w]
    }
}

/// Every successor of block `v` is numbered, or a frame of `stack` for `v`
/// has numbered those before its position.
spec fn successors_numbered(number: Seq<Option<usize>>, succs: Seq<Vec<usize>>, v: int, stack: Seq<(usize, usize)>) -> bool {
    (forall|j: int| 0 <= j < succs[v]@.len() ==> (#[trigger] number[succs[v]@[j] as int]) is Some) || (exists|f: int|
        0 <= f < stack.len() && (#[trigger] stack[f]).0 == v && forall|j: int|
            0 <= j < stack[f].1 ==> (#[trigger] number[succs[v]@[j] as int]) is Some)
}

/// The work left to the frames of a depth-first stack: each frame still has
/// its remaining successors to look at, and its pop.
spec fn stack_work(st: Seq<(usize, usize)>, succs: Seq<Vec<usize>>) -> int
    decreases st.len(),
{
    if st.len() == 0 {
        0
    } else {
        stack_work(st.drop_last(), succs) + (succs[st.last().0 as int]@.len() - st.last().1) + 1
    }
}

/// The work left to a stack is at least its number of frames.
proof fn lemma_stack_work_nonneg(st: Seq<(usize, usize)>, succs: Seq<Vec<usize>>)
    requires
        forall|f: int| 0 <= f < st.len() ==> (#[trigger] st[f]).1 <= succs[st[f].0 as int]@.len(),
    ensures
        stack_work(st, succs) >= st.len(),
    decreases st.len(),
{
    if st.len() > 0 {
        let rest = st.drop_last();
        assert forall|f: int| 0 <= f < rest.len() implies (#[trigger] rest[f]).1 <= succs[rest[f].0 as int]@.len() by {
            assert(rest[f] == st[f]);
        }
        lemma_stack_work_nonneg(rest, succs);
        assert(st[st.len() - 1] == st.last());
    }
}

/// Every block below `n` reaches itself.
proof fn lemma_reaches_self(edges: Seq<(usize, usize, EdgeType)>, n: nat, x: usize)
    requires
        x < n,
    ensures
        reaches(edges, n, x, x),
{
    let path = seq![x];
    assert(is_walk(edges, n, path));
    assert(path[0] == x && path.last() == x);
}

/// A walk to `v` followed by an edge to `t` is a walk to `t`.
proof fn lemma_reaches_step(edges: Seq<(usize, usize, EdgeType)>, n: nat, from: usize, v: usize, t: usize)
    requires
        reaches(edges, n, from, v),
        is_edge(edges, v, t),
        t < n,
    ensures
        reaches(edges, n, from, t),
{
    let path = choose|path: Seq<usize>| #[trigger] is_walk(edges, n, path) && path[0] == from && path.last() == v;
    let longer = path.push(t);
    assert forall|i: int| 0 <= i < longer.len() - 1 implies #[trigger] is_edge(edges, longer[i], longer[i + 1]) by {
        if i < path.len() - 1 {
            assert(is_edge(edges, path[i], path[i + 1]));
        }
    }
    assert(is_walk(edges, n, longer));
}

/// A sequence of distinct values below `n` has at most `n` elements.
proof fn lemma_distinct_below(s: Seq<usize>, n: nat)
    requires
        s.no_duplicates(),
        forall|i: int| 0 <= i < s.len() ==> #[trigger] s[i] < n,
    ensures
        s.len() <= n,
{
    let t = s.map_values(|x: usize| x as int);
    assert(t.no_duplicates()) by {
        assert forall|i: int, j: int| 0 <= i < t.len() && 0 <= j < t.len() && i != j implies t[i] != t[j] by {
            assert(s[i] != s[j]);
        }
    }
    t.unique_seq_to_set();
    vstd::set_lib::lemma_int_range(0, n as int);
    assert(t.to_set().subset_of(vstd::set_lib::set_int_range(0, n as int)));
    vstd::set_lib::lemma_len_subset(t.to_set(), vstd::set_lib::set_int_range(0, n as int));
}

/// Block `a` on the walk of number `y` is numbered at most `y`, and is open
/// or has `y` in its subtree.
spec fn walk_block_ok(number: Seq<Option<usize>>, open: Seq<bool>, last: Seq<usize>, y: int, a: usize) -> bool {
    match number[a as int] {
        Some(z) => z <= y && (open[z as int] || y <= last[z as int]),
        None => false,
    }
}

/// Block `x` is numbered and open, and so is every block of its walk.
spec fn frame_open(number: Seq<Option<usize>>, open: Seq<bool>, tw: Seq<Seq<usize>>, x: usize) -> bool {
    match number[x as int] {
        Some(z) => z < open.len() && open[z as int] && forall|i: int|
            0 <= i < tw[z as int].len() ==> (#[trigger] number[tw[z as int][i] as int]) is Some && open[number[tw[z as int][i] as int]->0 as int],
        None => false,
    }
}

/// Block `a` is numbered at most `y`, and `y` lies in its subtree.
spec fn is_dfs_ancestor(number: Seq<Option<usize>>, last: Seq<usize>, y: int, a: usize) -> bool {
    match number[a as int] {
        Some(z) => z <= y && y <= last[z as int],
        None => false,
    }
}

/// The frames hold the same blocks.
proof fn lemma_same_frames(
    number: Seq<Option<usize>>,
    node_of: Seq<usize>,
    a: Seq<(usize, usize)>,
    b: Seq<(usize, usize)>,
    open: Seq<bool>,
    tw: Seq<Seq<usize>>,
)
    requires
        open_on_stack(number, node_of, a, open, tw),
        a.len() == b.len(),
        forall|f: int| 0 <= f < a.len() ==> (#[trigger] a[f]).0 == b[f].0,
    ensures
        open_on_stack(number, node_of, b, open, tw),
{
    assert forall|f: int| 0 <= f < b.len() implies frame_open(number, open, tw, (#[trigger] b[f]).0) by {
        assert(frame_open(number, open, tw, a[f].0));
    }
    assert forall|z: int| 0 <= z < open.len() && #[trigger] open[z] implies exists|f: int| 0 <= f < b.len() && (#[trigger] b[f]).0 == node_of[z] by {
        let f = choose|f: int| 0 <= f < a.len() && (#[trigger] a[f]).0 == node_of[z];
        assert(b[f].0 == node_of[z]);
    }
}

/// Each preorder number `y` has a walk from `entry` to its block whose blocks
/// are numbered at most `y`, each either open (on the depth-first stack) or
/// with `y` inside its subtree.
spec fn tree_walks(
    edges: Seq<(usize, usize, EdgeType)>,
    n: nat,
    entry: usize,
    number: Seq<Option<usize>>,
    node_of: Seq<usize>,
    last: Seq<usize>,
    open: Seq<bool>,
    tw: Seq<Seq<usize>>,
) -> bool {
    &&& tw.len() == node_of.len()
    &&& open.len() == node_of.len()
    &&& last.len() == node_of.len()
    &&& number.len() == n
    &&& forall|y: int|
        0 <= y < tw.len() ==> is_walk(edges, n, #[trigger] tw[y]) && tw[y][0] == entry && tw[y].last()
            == node_of[y]
    &&& forall|y: int, i: int|
        0 <= y < tw.len() && 0 <= i < tw[y].len() ==> walk_block_ok(number, open, last, y, #[trigger] tw[y][i])
}

/// The blocks on the stack are open, and so are the blocks of their walks;
/// an open number's block is on the stack.
spec fn open_on_stack(
    number: Seq<Option<usize>>,
    node_of: Seq<usize>,
    stack: Seq<(usize, usize)>,
    open: Seq<bool>,
    tw: Seq<Seq<usize>>,
) -> bool {
    &&& forall|f: int| 0 <= f < stack.len() ==> frame_open(number, open, tw, (#[trigger] stack[f]).0)
    &&& forall|z: int| 0 <= z < open.len() && #[trigger] open[z] ==> exists|f: int| 0 <= f < stack.len() && (#[trigger] stack[f]).0 == node_of[z]
}

/// The numbering is a bijection between numbered blocks and `0..node_of.len()`.
spec fn numbering_consistent(number: Seq<Option<usize>>, node_of: Seq<usize>) -> bool {
    &&& forall|x: int| 0 <= x < number.len() ==> (#[trigger] number[x] matches Some(z) ==> z < node_of.len() && node_of[z as int] == x)
    &&& forall|z: int| 0 <= z < node_of.len() ==> #[trigger] node_of[z] < number.len() && number[node_of[z] as int] == Some(z as usize)
}

/// Numbering block `t`, reached by an edge from the block `v` on top of the
/// stack, and pushing it, keeps the walks and the open marks right.
proof fn lemma_tree_push(
    edges: Seq<(usize, usize, EdgeType)>,
    n: nat,
    entry: usize,
    number: Seq<Option<usize>>,
    node_of: Seq<usize>,
    last: Seq<usize>,
    open: Seq<bool>,
    tw: Seq<Seq<usize>>,
    stack: Seq<(usize, usize)>,
    t: usize,
)
    requires
        tree_walks(edges, n, entry, number, node_of, last, open, tw),
        open_on_stack(number, node_of, stack, open, tw),
        numbering_consistent(number, node_of),
        stack.len() > 0,
        forall|f: int| 0 <= f < stack.len() ==> (#[trigger] stack[f]).0 < n,
        t < n,
        n <= usize::MAX,
        node_of.len() < n,
        number[t as int] is None,
        is_edge(edges, stack.last().0, t),
    ensures
        ({
            let c = node_of.len();
            let zv = number[stack.last().0 as int]->0;
            let number2 = number.update(t as int, Some(c as usize));
            let node_of2 = node_of.push(t);
            let last2 = last.push(c as usize);
            let open2 = open.push(true);
            let tw2 = tw.push(tw[zv as int].push(t));
            let stack2 = stack.push((t, 0usize));
            &&& tree_walks(edges, n, entry, number2, node_of2, last2, open2, tw2)
            &&& open_on_stack(number2, node_of2, stack2, open2, tw2)
        }),
{
    let c = node_of.len();
    let top = stack.len() - 1;
    let v = stack.last().0;
    assert(stack[top] == stack.last());
    assert(frame_open(number, open, tw, stack[top].0));
    let zv = number[v as int]->0;
    let number2 = number.update(t as int, Some(c as usize));
    let node_of2 = node_of.push(t);
    let last2 = last.push(c as usize);
    let open2 = open.push(true);
    let walk = tw[zv as int].push(t);
    let tw2 = tw.push(walk);
    let stack2 = stack.push((t, 0usize));
    assert(is_walk(edges, n, tw[zv as int]));
    assert forall|i: int| 0 <= i < walk.len() - 1 implies #[trigger] is_edge(edges, walk[i], walk[i + 1]) by {
        if i < tw[zv as int].len() - 1 {
            assert(is_edge(edges, tw[zv as int][i], tw[zv as int][i + 1]));
        }
    }
    assert(is_walk(edges, n, walk));
    assert forall|y: int|
        0 <= y < tw2.len() implies is_walk(edges, n, #[trigger] tw2[y]) && tw2[y][0] == entry && tw2[y].last() == node_of2[y] by {
        if y < tw.len() {
            assert(tw2[y] == tw[y]);
        }
    }
    assert forall|y: int, i: int|
        0 <= y < tw2.len() && 0 <= i < tw2[y].len() implies walk_block_ok(number2, open2, last2, y, #[trigger] tw2[y][i]) by {
        if y < tw.len() {
            assert(tw2[y] == tw[y]);
            assert(walk_block_ok(number, open, last, y, tw[y][i]));
            assert(tw[y][i] != t);
        } else if i < walk.len() - 1 {
            assert(walk[i] == tw[zv as int][i]);
            assert(number[tw[zv as int][i] as int] is Some);
            assert(walk[i] != t);
            assert(walk_block_ok(number, open, last, zv as int, tw[zv as int][i]));
        } else {
            assert(tw2[y][i] == t);
        }
    }
    assert forall|f: int| 0 <= f < stack2.len() implies frame_open(number2, open2, tw2, (#[trigger] stack2[f]).0) by {
        if f < stack.len() {
            assert(stack2[f] == stack[f]);
            assert(frame_open(number, open, tw, stack[f].0));
            assert(stack[f].0 != t);
            let z = number[stack[f].0 as int]->0;
            assert(tw2[z as int] == tw[z as int]);
            assert forall|i: int| 0 <= i < tw2[z as int].len() implies (#[trigger] number2[tw2[z as int][i] as int]) is Some
                && open2[number2[tw2[z as int][i] as int]->0 as int] by {
                assert(number[tw[z as int][i] as int] is Some);
                assert(tw[z as int][i] != t);
            }
        } else {
            assert(stack2[f].0 == t);
            assert forall|i: int| 0 <= i < tw2[c as int].len() implies (#[trigger] number2[tw2[c as int][i] as int]) is Some
                && open2[number2[tw2[c as int][i] as int]->0 as int] by {
                if i < walk.len() - 1 {
                    assert(walk[i] == tw[zv as int][i]);
                    assert(number[tw[zv as int][i] as int] is Some);
                    assert(walk[i] != t);
                }
            }
        }
    }
    assert forall|z: int| 0 <= z < open2.len() && #[trigger] open2[z] implies exists|f: int| 0 <= f < stack2.len() && (#[trigger] stack2[f]).0 == node_of2[z] by {
        if z < open.len() {
            let f = choose|f: int| 0 <= f < stack.len() && (#[trigger] stack[f]).0 == node_of[z];
            assert(stack2[f] == stack[f]);
        } else {
            assert(stack2[stack.len() as int].0 == node_of2[z]);
        }
    }
}

/// Popping the block `v` on top of the stack closes its number and ends its
/// subtree at the last number given.
proof fn lemma_tree_pop(
    edges: Seq<(usize, usize, EdgeType)>,
    n: nat,
    entry: usize,
    number: Seq<Option<usize>>,
    node_of: Seq<usize>,
    last: Seq<usize>,
    open: Seq<bool>,
    tw: Seq<Seq<usize>>,
    stack: Seq<(usize, usize)>,
)
    requires
        tree_walks(edges, n, entry, number, node_of, last, open, tw),
        open_on_stack(number, node_of, stack, open, tw),
        numbering_consistent(number, node_of),
        stack.len() > 0,
        n <= usize::MAX,
        node_of.len() <= n,
        forall|f: int| 0 <= f < stack.len() ==> (#[trigger] stack[f]).0 < n,
        forall|f: int, g: int| 0 <= f < g < stack.len() ==> (#[trigger] number[stack[f].0 as int])->0 < (#[trigger] number[stack[g].0 as int])->0,
    ensures
        ({
            let zv = number[stack.last().0 as int]->0;
            let last2 = last.update(zv as int, (node_of.len() - 1) as usize);
            let open2 = open.update(zv as int, false);
            &&& tree_walks(edges, n, entry, number, node_of, last2, open2, tw)
            &&& open_on_stack(number, node_of, stack.drop_last(), open2, tw)
        }),
{
    let top = stack.len() - 1;
    let v = stack[top].0;
    assert(stack[top] == stack.last());
    assert(frame_open(number, open, tw, stack[top].0));
    assert(v < n && number.len() == n);
    assert(number[v as int] is Some);
    let zv = number[v as int]->0;
    assert(zv < node_of.len() && node_of[zv as int] == v);
    let last2 = last.update(zv as int, (node_of.len() - 1) as usize);
    let open2 = open.update(zv as int, false);
    let stack2 = stack.drop_last();
    assert forall|y: int, i: int|
        0 <= y < tw.len() && 0 <= i < tw[y].len() implies walk_block_ok(number, open2, last2, y, #[trigger] tw[y][i]) by {
        assert(walk_block_ok(number, open, last, y, tw[y][i]));
        let z = number[tw[y][i] as int]->0;
        if z == zv {
            assert(last2[z as int] == node_of.len() - 1);
        }
    }
    assert forall|f: int| 0 <= f < stack2.len() implies frame_open(number, open2, tw, (#[trigger] stack2[f]).0) by {
        assert(stack2[f] == stack[f]);
        assert(frame_open(number, open, tw, stack[f].0));
        assert(number[stack[f].0 as int]->0 < number[stack[top].0 as int]->0);
        let z = number[stack[f].0 as int]->0;
        assert forall|i: int| 0 <= i < tw[z as int].len() implies (#[trigger] number[tw[z as int][i] as int]) is Some
            && open2[number[tw[z as int][i] as int]->0 as int] by {
            assert(walk_block_ok(number, open, last, z as int, tw[z as int][i]));
        }
    }
    assert forall|z: int| 0 <= z < open2.len() && #[trigger] open2[z] implies exists|f: int| 0 <= f < stack2.len() && (#[trigger] stack2[f]).0 == node_of[z] by {
        assert(open[z]);
        let f = choose|f: int| 0 <= f < stack.len() && (#[trigger] stack[f]).0 == node_of[z];
        assert(node_of[z] < number.len() && number[node_of[z] as int] == Some(z as usize));
        if f == top {
            assert(v == node_of[z]);
            assert(number[v as int] == Some(z as usize));
            assert(z == zv);
        }
        assert(stack2[f] == stack[f]);
    }
}

/// Number the blocks reached from `entry` in depth-first preorder, visiting
/// successors in the order their edges were added. An explicit stack keeps
/// deep graphs from exhausting the call stack.
#[verifier::rlimit(100)]
#[verifier::spinoff_prover]
fn depth_first_numbering(succs: &Vec<Vec<usize>>, entry: usize, Ghost(edges): Ghost<Seq<(usize, usize, EdgeType)>>) -> (r: DfsTree)
    requires
        entry < succs@.len(),
        all_below(succs@, succs@.len() as nat),
        forall|v: int, j: int| 0 <= v < succs@.len() && 0 <= j < succs@[v]@.len() ==> is_edge(edges, v as usize, #[trigger] succs@[v]@[j]),
    ensures
        forall|v: int| 0 <= v < succs@.len() && (#[trigger] r.number@[v]) is Some ==> reaches(edges, succs@.len() as nat, entry, v as usize),
        forall|w: int, y: int|
            #![trigger r.last@[w], r.node_of@[y]]
            0 <= w <= y <= r.last@[w] && w < r.node_of@.len() ==> reaches(edges, succs@.len() as nat, r.node_of@[w], r.node_of@[y]),
        r.wf(succs@.len() as nat),
        r.number@[entry as int] == Some(0usize),
        r.walks@.len() == r.node_of@.len(),
        forall|y: int|
            0 <= y < r.walks@.len() ==> is_walk(edges, succs@.len() as nat, #[trigger] r.walks@[y]) && r.walks@[y][0] == entry
                && r.walks@[y].last() == r.node_of@[y],
        forall|y: int, i: int|
            0 <= y < r.walks@.len() && 0 <= i < r.walks@[y].len() ==> is_dfs_ancestor(r.number@, r.last@, y, #[trigger] r.walks@[y][i]),
        forall|v: int, j: int|
            0 <= v < succs@.len() && r.number@[v] is Some && 0 <= j < succs@[v]@.len() ==> (#[trigger] r.number@[
                succs@[v]@[j] as int]) is Some,
{
    let n = succs.len();
    let mut number: Vec<Option<usize>> = Vec::new();
    let mut v: usize = 0;
    while v < n
        invariant
            v <= n,
            n == succs@.len(),
            number@.len() == v,
            forall|i: int| 0 <= i < v ==> (#[trigger] number@[i]) is None,
        decreases n - v,
    {
        number.push(None);
        v = v + 1;
    }
    let mut node_of: Vec<usize> = Vec::new();
    let mut last: Vec<usize> = Vec::new();
    number.set(entry, Some(0));
    node_of.push(entry);
    last.push(0);
    let mut stack: Vec<(usize, usize)> = Vec::new();
    stack.push((entry, 0));
    assert(stack@.drop_last() =~= Seq::<(usize, usize)>::empty());
    let ghost mut open: Seq<bool> = seq![true];
    let ghost mut tw: Seq<Seq<usize>> = seq![seq![entry]];
    proof {
        lemma_stack_work_nonneg(stack@, succs@);
        assert(is_walk(edges, n as nat, seq![entry]));
        assert(tw[0] == seq![entry]);
        assert(number@[tw[0][0] as int] == Some(0usize));
        assert(tree_walks(edges, n as nat, entry, number@, node_of@, last@, open, tw));
        assert(frame_open(number@, open, tw, stack@[0].0));
        assert(open_on_stack(number@, node_of@, stack@, open, tw));
        assert forall|v: int| 0 <= v < n && (#[trigger] number@[v]) is Some implies reaches(edges, n as nat, entry, v as usize) by {
            assert(v == entry);
            assert(seq![entry][0] == entry && seq![entry].last() == entry);
        }
    }
    while stack.len() > 0
        invariant
            n == succs@.len(),
            all_below(succs@, n as nat),
            number@.len() == n,
            0 < node_of@.len() <= n,
            last@.len() == node_of@.len(),
            number@[entry as int] == Some(0usize),
            forall|v: int| 0 <= v < n ==> (#[trigger] number@[v] matches Some(w) ==> w < node_of@.len() && node_of@[w as int] == v),
            forall|w: int| 0 <= w < node_of@.len() ==> #[trigger] node_of@[w] < n && number@[node_of@[w] as int] == Some(w as usize),
            forall|w: int| 0 <= w < node_of@.len() ==> #[trigger] last@[w] < node_of@.len() && w <= last@[w],
            forall|v: int| 0 <= v < n && (#[trigger] number@[v]) is Some ==> successors_numbered(number@, succs@, v, stack@),
            forall|f: int| 0 <= f < stack@.len() ==> {
                &&& (#[trigger] stack@[f]).0 < n
                &&& stack@[f].1 <= succs@[stack@[f].0 as int]@.len()
                &&& number@[stack@[f].0 as int] is Some
            },
            entry < n,
            stack_work(stack@, succs@) >= 0,
            forall|v: int, j: int| 0 <= v < n && 0 <= j < succs@[v]@.len() ==> is_edge(edges, v as usize, #[trigger] succs@[v]@[j]),
            forall|v: int| 0 <= v < n && (#[trigger] number@[v]) is Some ==> reaches(edges, n as nat, entry, v as usize),
            forall|f: int, g: int| 0 <= f < g < stack@.len() ==> (#[trigger] number@[stack@[f].0 as int])->0 < (#[trigger] number@[stack@[g].0 as int])->0,
            forall|f: int, u: int|
                0 <= f < stack@.len() && 0 <= u < n && (#[trigger] number@[u]) is Some && number@[u]->0 >= number@[(#[trigger] stack@[f]).0 as int]->0
                    ==> reaches(edges, n as nat, stack@[f].0, u as usize),
            forall|w: int, y: int|
                #![trigger last@[w], node_of@[y]]
                0 <= w <= y <= last@[w] && w < node_of@.len() ==> reaches(edges, n as nat, node_of@[w], node_of@[y]),
            tree_walks(edges, n as nat, entry, number@, node_of@, last@, open, tw),
            open_on_stack(number@, node_of@, stack@, open, tw),
        decreases n - node_of@.len(), stack_work(stack@, succs@),
    {
        let ghost num0 = number@;
        let ghost st_start = stack@;
        let top = stack.len() - 1;
        let (v, p) = stack[top];
        if p < succs[v].len() {
            let t = succs[v][p];
            let ghost st0 = stack@;
            stack.set(top, (v, p + 1));
            assert(stack@.drop_last() == st0.drop_last());
            proof {
                lemma_same_frames(number@, node_of@, st0, stack@, open, tw);
            }
            if number[t].is_none() {
                proof {
                    let seen = node_of@.push(t);
                    assert forall|i: int, j: int| 0 <= i < seen.len() && 0 <= j < seen.len() && i != j implies seen[i] != seen[j] by {
                        if i < node_of@.len() && j < node_of@.len() {
                            assert(number@[node_of@[i] as int] != number@[node_of@[j] as int]);
                        }
                    }
                    lemma_distinct_below(seen, n as nat);
                }
                proof {
                    assert(is_edge(edges, v, succs@[v as int]@[p as int]));
                    lemma_reaches_step(edges, n as nat, entry, v, t);
                }
                proof {
                    assert(numbering_consistent(number@, node_of@));
                    assert(is_edge(edges, stack@.last().0, t));
                    lemma_tree_push(edges, n as nat, entry, number@, node_of@, last@, open, tw, stack@, t);
                    let zv = number@[v as int]->0;
                    tw = tw.push(tw[zv as int].push(t));
                    open = open.push(true);
                }
                let w = node_of.len();
                let ghost num1 = number@;
                let ghost st1 = stack@;
                let ghost node_of1 = node_of@;
                let ghost last1 = last@;
                number.set(t, Some(w));
                node_of.push(t);
                last.push(w);
                stack.push((t, 0));
                proof {
                    lemma_reaches_self(edges, n as nat, t);
                    assert forall|f: int| 0 <= f < st1.len() implies #[trigger] stack@[f] == st1[f] && st1[f].0 == st_start[f].0 by {
                        if f == top {
                        } else {
                            assert(st1[f] == st_start[f]);
                        }
                    }
                    assert forall|f: int, g: int| 0 <= f < g < stack@.len() implies (#[trigger] number@[stack@[f].0 as int])->0 < (#[trigger] number@[stack@[g].0 as int])->0 by {
                        assert(stack@[f].0 != t);
                        if g < st1.len() {
                            assert(stack@[g].0 != t);
                        }
                    }
                    assert forall|f: int, u: int|
                        0 <= f < stack@.len() && 0 <= u < n && (#[trigger] number@[u]) is Some && number@[u]->0 >= number@[(#[trigger] stack@[f]).0 as int]->0
                            implies reaches(edges, n as nat, stack@[f].0, u as usize) by {
                        if f == st1.len() {
                            assert(stack@[f].0 == t);
                            assert(u == t);
                        } else {
                            assert(stack@[f].0 != t);
                            if u == t {
                                assert(num1[v as int] is Some);
                                assert(reaches(edges, n as nat, st_start[f].0, v)) by {
                                    if f < top {
                                        assert(num1[st_start[f].0 as int]->0 < num1[st_start[top as int].0 as int]->0);
                                    }
                                }
                                lemma_reaches_step(edges, n as nat, st_start[f].0, v, t);
                            } else {
                                assert(num1[u] == number@[u]);
                            }
                        }
                    }
                    assert forall|x: int, y: int|
                        #![trigger last@[x], node_of@[y]]
                        0 <= x <= y <= last@[x] && x < node_of@.len() implies reaches(edges, n as nat, node_of@[x], node_of@[y]) by {
                        if x < w {
                            assert(last@[x] == last1[x]);
                            assert(node_of@[y] == node_of1[y]);
                            assert(node_of@[x] == node_of1[x]);
                        }
                    }
                }
            }
        } else {
            let ghost st0 = stack@;
            let ghost last0 = last@;
            proof {
                assert(numbering_consistent(number@, node_of@));
                assert(stack@.last().0 == v);
                lemma_tree_pop(edges, n as nat, entry, number@, node_of@, last@, open, tw, stack@);
                open = open.update(number@[v as int]->0 as int, false);
            }
            match number[v] {
                Some(w) => {
                    last.set(w, node_of.len() - 1);
                },
                None => {},
            }
            stack.pop();
            assert(stack@ == st0.drop_last());
            proof {
                let wv = number@[v as int]->0;
                assert(node_of@[wv as int] == v);
                assert forall|x: int, y: int|
                    #![trigger last@[x], node_of@[y]]
                    0 <= x <= y <= last@[x] && x < node_of@.len() implies reaches(edges, n as nat, node_of@[x], node_of@[y]) by {
                    if x == wv {
                        let u = node_of@[y];
                        assert(number@[u as int] == Some(y as usize));
                    } else {
                        assert(last@[x] == last0[x]);
                    }
                }
            }
        }
        proof {
            lemma_stack_work_nonneg(stack@, succs@);
            assert forall|u: int| 0 <= u < n && (#[trigger] number@[u]) is Some implies successors_numbered(number@, succs@, u, stack@) by {
                assert forall|x: int| 0 <= x < n && (#[trigger] num0[x]) is Some implies number@[x] is Some by {}
                if num0[u] is Some {
                    assert(successors_numbered(num0, succs@, u, st_start));
                    if forall|j: int| 0 <= j < succs@[u]@.len() ==> (#[trigger] num0[succs@[u]@[j] as int]) is Some {
                        assert forall|j: int| 0 <= j < succs@[u]@.len() implies (#[trigger] number@[succs@[u]@[j] as int]) is Some by {
                            assert(num0[succs@[u]@[j] as int] is Some);
                        }
                    } else {
                        let f = choose|f: int|
                            0 <= f < st_start.len() && (#[trigger] st_start[f]).0 == u && forall|j: int|
                                0 <= j < st_start[f].1 ==> (#[trigger] num0[succs@[u]@[j] as int]) is Some;
                        if f < top {
                            assert(stack@[f] == st_start[f]);
                            assert forall|j: int| 0 <= j < stack@[f].1 implies (#[trigger] number@[succs@[u]@[j] as int]) is Some by {
                                assert(num0[succs@[u]@[j] as int] is Some);
                            }
                        } else if p < succs@[v as int]@.len() {
                            assert(stack@[top as int] == (v, (p + 1) as usize));
                            assert forall|j: int| 0 <= j < stack@[top as int].1 implies (#[trigger] number@[succs@[u]@[j] as int]) is Some by {
                                if j < p {
                                    assert(num0[succs@[u]@[j] as int] is Some);
                                }
                            }
                        } else {
                            assert forall|j: int| 0 <= j < succs@[u]@.len() implies (#[trigger] number@[succs@[u]@[j] as int]) is Some by {
                                assert(num0[succs@[u]@[j] as int] is Some);
                            }
                        }
                    }
                } else {
                    let f = stack@.len() - 1;
                    assert(stack@[f].0 == u);
                }
            }
        }
    }
    proof {
        assert forall|u: int, j: int|
            0 <= u < n && number@[u] is Some && 0 <= j < succs@[u]@.len() implies (#[trigger] number@[succs@[u]@[j] as int]) is Some by {
            assert(successors_numbered(number@, succs@, u, stack@));
        }
    }
    proof {
        assert forall|y: int, i: int|
            0 <= y < tw.len() && 0 <= i < tw[y].len() implies is_dfs_ancestor(number@, last@, y, #[trigger] tw[y][i]) by {
            assert(walk_block_ok(number@, open, last@, y, tw[y][i]));
            let z = number@[tw[y][i] as int]->0;
            if open[z as int] {
                let f = choose|f: int| 0 <= f < stack@.len() && (#[trigger] stack@[f]).0 == node_of@[z as int];
            }
        }
    }
    DfsTree { number, node_of, last, walks: Ghost(tw) }
}

/// Whether `v` is in the depth-first subtree of `w`.
fn is_ancestor(w: usize, v: usize, last: &Vec<usize>) -> (r: bool)
    requires
        w < last@.len(),
    ensures
        r == (w <= v && v <= last@[w as int]),
{
    w <= v && v <= last[w]
}

/// Split the predecessors of each block, by preorder number, into back-edge
/// predecessors (its descendants, itself included) and the others.
/// Unreached predecessors are left out.
fn classify_predecessors(preds: &Vec<Vec<usize>>, dfs: &DfsTree) -> (r: (Vec<Vec<usize>>, Vec<Vec<usize>>))
    requires
        dfs.wf(preds@.len() as nat),
        all_below(preds@, preds@.len() as nat),
    ensures
        r.0@.len() == dfs.node_of@.len(),
        r.1@.len() == dfs.node_of@.len(),
        all_below(r.0@, dfs.node_of@.len() as nat),
        all_below(r.1@, dfs.node_of@.len() as nat),
        forall|w: int, j: int| 0 <= w < r.0@.len() && 0 <= j < r.0@[w]@.len() ==> w <= #[trigger] r.0@[w]@[j],
        forall|w: int, j: int|
            0 <= w < r.0@.len() && 0 <= j < preds@[dfs.node_of@[w] as int]@.len() ==> recorded_if_descendant(
                #[trigger] dfs.number@[preds@[dfs.node_of@[w] as int]@[j] as int], w, dfs.last@[w], r.0@[w]@),
        forall|w: int, j: int| 0 <= w < r.0@.len() && 0 <= j < r.0@[w]@.len() ==> #[trigger] r.0@[w]@[j] <= dfs.last@[w] && numbered_among(
            preds@[dfs.node_of@[w] as int]@, dfs.number@, r.0@[w]@[j]),
{
    let n = preds.len();
    let count = dfs.node_of.len();
    let mut back_preds: Vec<Vec<usize>> = Vec::new();
    let mut non_back_preds: Vec<Vec<usize>> = Vec::new();
    let mut w: usize = 0;
    while w < count
        invariant
            dfs.wf(n as nat),
            n == preds@.len(),
            count == dfs.node_of@.len(),
            all_below(preds@, n as nat),
            w <= count,
            back_preds@.len() == w,
            non_back_preds@.len() == w,
            all_below(back_preds@, count as nat),
            all_below(non_back_preds@, count as nat),
            forall|x: int, j: int| 0 <= x < back_preds@.len() && 0 <= j < back_preds@[x]@.len() ==> x <= #[trigger] back_preds@[x]@[j],
            forall|x: int, j: int|
                0 <= x < w && 0 <= j < preds@[dfs.node_of@[x] as int]@.len() ==> recorded_if_descendant(
                    #[trigger] dfs.number@[preds@[dfs.node_of@[x] as int]@[j] as int], x, dfs.last@[x], back_preds@[x]@),
            forall|x: int, j: int| 0 <= x < back_preds@.len() && 0 <= j < back_preds@[x]@.len() ==> #[trigger] back_preds@[x]@[j] <= dfs.last@[x] && numbered_among(
                preds@[dfs.node_of@[x] as int]@, dfs.number@, back_preds@[x]@[j]),
        decreases count - w,
    {
        let block = dfs.node_of[w];
        let mut back: Vec<usize> = Vec::new();
        let mut non_back: Vec<usize> = Vec::new();
        let mut j: usize = 0;
        while j < preds[block].len()
            invariant
                dfs.wf(n as nat),
                n == preds@.len(),
                count == dfs.node_of@.len(),
                all_below(preds@, n as nat),
                block < n,
                w < count,
                forall|i: int| 0 <= i < back@.len() ==> w <= #[trigger] back@[i] < count,
                forall|i: int| 0 <= i < non_back@.len() ==> #[trigger] non_back@[i] < count,
                block == dfs.node_of@[w as int],
                forall|i: int|
                    0 <= i < j ==> recorded_if_descendant(#[trigger] dfs.number@[preds@[block as int]@[i] as int], w as int, dfs.last@[w as int], back@),
                forall|q: int| 0 <= q < back@.len() ==> #[trigger] back@[q] <= dfs.last@[w as int] && numbered_among(
                    preds@[block as int]@.take(j as int), dfs.number@, back@[q]),
                j <= preds@[block as int]@.len(),
            decreases preds@[block as int]@.len() - j,
        {
            let pred = preds[block][j];
            let ghost back0 = back@;
            match dfs.number[pred] {
                Some(v) => {
                    if is_ancestor(w, v, &dfs.last) {
                        back.push(v);
                        assert(back@.last() == v);
                        proof {
                            let pre = preds@[block as int]@.take(j as int);
                            let pre1 = preds@[block as int]@.take(j + 1);
                            assert forall|q: int| 0 <= q < back@.len() implies #[trigger] back@[q] <= dfs.last@[w as int] && numbered_among(
                                pre1, dfs.number@, back@[q]) by {
                                if q < back0.len() {
                                    assert(back@[q] == back0[q]);
                                    assert(numbered_among(pre, dfs.number@, back0[q]));
                                    let i = choose|i: int| 0 <= i < pre.len() && dfs.number@[pre[i] as int] == Some(back0[q]);
                                    assert(pre1[i] == pre[i]);
                                } else {
                                    assert(pre1[j as int] == preds@[block as int]@[j as int]);
                                    assert(dfs.number@[pre1[j as int] as int] == Some(back@[q]));
                                }
                            }
                        }
                    } else {
                        non_back.push(v);
                    }
                },
                None => {},
            }
            proof {
                let pre = preds@[block as int]@.take(j as int);
                let pre1 = preds@[block as int]@.take(j + 1);
                assert forall|q: int| 0 <= q < back@.len() implies #[trigger] back@[q] <= dfs.last@[w as int] && numbered_among(
                    pre1, dfs.number@, back@[q]) by {
                    if q < back0.len() {
                        assert(back@[q] == back0[q]);
                        assert(numbered_among(pre, dfs.number@, back0[q]));
                        let i = choose|i: int| 0 <= i < pre.len() && dfs.number@[pre[i] as int] == Some(back0[q]);
                        assert(pre1[i] == pre[i]);
                    }
                }
                assert forall|i: int|
                    0 <= i < j + 1 implies recorded_if_descendant(#[trigger] dfs.number@[preds@[block as int]@[i] as int], w as int, dfs.last@[w as int], back@) by {
                    if i < j {
                        match dfs.number@[preds@[block as int]@[i] as int] {
                            Some(v) => {
                                if w <= v && v <= dfs.last@[w as int] {
                                    let q = choose|q: int| 0 <= q < back0.len() && back0[q] == v;
                                    assert(back@[q] == v);
                                }
                            },
                            None => {},
                        }
                    }
                }
            }
            j = j + 1;
        }
        let ghost bp0 = back_preds@;
        let ghost backv = back@;
        back_preds.push(back);
        non_back_preds.push(non_back);
        proof {
            assert forall|x: int, q: int| 0 <= x < back_preds@.len() && 0 <= q < back_preds@[x]@.len() implies #[trigger] back_preds@[x]@[q] <= dfs.last@[x] && numbered_among(
                preds@[dfs.node_of@[x] as int]@, dfs.number@, back_preds@[x]@[q]) by {
                if x < w {
                    assert(back_preds@[x] == bp0[x]);
                } else {
                    assert(back_preds@[x]@ == backv);
                    assert(dfs.node_of@[x] == block);
                    assert(preds@[block as int]@.take(j as int) =~= preds@[block as int]@);
                }
            }
        }
        w = w + 1;
    }
    (back_preds, non_back_preds)
}

/// The representative of the set of `x` in a union-find forest whose links
/// point to smaller elements no smaller than `lo`.
fn find(uf: &Vec<usize>, x: usize, Ghost(lo): Ghost<nat>) -> (r: usize)
    requires
        x < uf@.len(),
        forall|i: int| 0 <= i < uf@.len() ==> #[trigger] uf@[i] == i || (lo <= uf@[i] && uf@[i] < i),
    ensures
        r <= x,
        r == x || lo <= r,
        uf@[r as int] == r,
{
    let mut y = x;
    while uf[y] != y
        invariant
            y < uf@.len(),
            y <= x,
            y == x || lo <= y,
            forall|i: int| 0 <= i < uf@.len() ==> #[trigger] uf@[i] == i || (lo <= uf@[i] && uf@[i] < i),
        decreases y,
    {
        y = uf[y];
    }
    y
}

/// Whether `v` holds `x`.
fn contains(v: &Vec<usize>, x: usize) -> (r: bool)
    ensures
        r == v@.contains(x),
{
    let mut i: usize = 0;
    while i < v.len()
        invariant
            i <= v@.len(),
            forall|j: int| 0 <= j < i ==> v@[j] != x,
        decreases v@.len() - i,
    {
        if v[i] == x {
            return true;
        }
        i = i + 1;
    }
    false
}

/// The loops found so far are well formed over `n` blocks, with parents
/// below `bound`.
spec fn found_loops(loops: Seq<SimpleLoop>, n: nat, bound: nat) -> bool {
    forall|i: int|
        0 <= i < loops.len() ==> {
            let l = #[trigger] loops[i];
            &&& !l.is_root
            &&& l.counter == i + 1
            &&& l.header matches Some(h) && h < n
            &&& l.basic_blocks@.len() > 0
            &&& l.basic_blocks@[0] == l.header->0
            &&& forall|j: int| 0 <= j < l.basic_blocks@.len() ==> #[trigger] l.basic_blocks@[j] < n
            &&& l.parent matches Some(p) ==> i < p < bound
            &&& l.children@.len() == 0
            &&& l.nesting_level == 0
            &&& l.depth_level == 0
        }
}

/// Each listed block has a preorder number of at least `lo`, whose set was
/// merged into a loop's or whose block heads a loop.
spec fn blocks_accounted(loops: Seq<SimpleLoop>, dfs: &DfsTree, uf: Seq<usize>, loop_of: Seq<Option<usize>>, lo: int) -> bool {
    forall|i: int, a: int|
        0 <= i < loops.len() && 0 <= a < loops[i].basic_blocks@.len() ==> {
            let b = #[trigger] loops[i].basic_blocks@[a];
            &&& b < dfs.number@.len()
            &&& dfs.number@[b as int] matches Some(y) && lo <= y && y < dfs.node_of@.len() && (uf[y as int] != y
                || loop_of[y as int] is Some)
        }
}

/// The loops are well formed over `n` blocks, children aside.
spec fn found_loops_but_children(loops: Seq<SimpleLoop>, n: nat) -> bool {
    &&& blocks_listed_once(loops)
    &&& forall|i: int|
        0 <= i < loops.len() ==> {
            let l = #[trigger] loops[i];
            &&& !l.is_root
            &&& l.counter == i + 1
            &&& l.header matches Some(h) && h < n
            &&& l.basic_blocks@.len() > 0
            &&& l.basic_blocks@[0] == l.header->0
            &&& forall|j: int| 0 <= j < l.basic_blocks@.len() ==> #[trigger] l.basic_blocks@[j] < n
            &&& l.parent matches Some(p) ==> i < p < loops.len()
            &&& l.nesting_level == 0
            &&& l.depth_level == 0
        }
}

/// The loops are well formed over `n` blocks, levels and children aside.
spec fn found_loops_but_levels(loops: Seq<SimpleLoop>, n: nat) -> bool {
    &&& blocks_listed_once(loops)
    &&& forall|i: int|
        0 <= i < loops.len() ==> {
            let l = #[trigger] loops[i];
            &&& !l.is_root
            &&& l.counter == i + 1
            &&& l.header matches Some(h) && h < n
            &&& l.basic_blocks@.len() > 0
            &&& l.basic_blocks@[0] == l.header->0
            &&& forall|j: int| 0 <= j < l.basic_blocks@.len() ==> #[trigger] l.basic_blocks@[j] < n
            &&& l.parent matches Some(p) ==> i < p < loops.len()
        }
}

/// Find the loops of the graph numbered by `dfs`, innermost first
/// (Havlak's algorithm). Blocks are visited in decreasing preorder; a block
/// with back-edge predecessors is a loop header, and its body is gathered by
/// walking non-back-edge predecessors up to the header through a union-find
/// forest, whose sets are the loops already found. A predecessor outside the
/// header's subtree makes the loop irreducible.
fn havlak_loops(dfs: &DfsTree, back_preds: &Vec<Vec<usize>>, non_back_preds: Vec<Vec<usize>>, Ghost(n): Ghost<nat>) -> (loops: Vec<SimpleLoop>)
    requires
        dfs.wf(n),
        back_preds@.len() == dfs.node_of@.len(),
        non_back_preds@.len() == dfs.node_of@.len(),
        all_below(back_preds@, dfs.node_of@.len() as nat),
        all_below(non_back_preds@, dfs.node_of@.len() as nat),
        forall|w: int, j: int| 0 <= w < back_preds@.len() && 0 <= j < back_preds@[w]@.len() ==> w <= #[trigger] back_preds@[w]@[j],
    ensures
        found_loops(loops@, n, loops@.len() as nat),
        blocks_listed_once(loops@),
        loops@.len() <= dfs.node_of@.len(),
        forall|x: int| 0 <= x < dfs.node_of@.len() && (#[trigger] back_preds@[x])@.len() > 0 ==> heads_loop(loops@, dfs.node_of@[x]),
        forall|i: int, a: int|
            0 <= i < loops@.len() && 0 <= a < loops@[i].basic_blocks@.len() ==> (#[trigger] loops@[i].basic_blocks@[a]) < n
                && dfs.number@[loops@[i].basic_blocks@[a] as int] is Some,
        forall|i: int| 0 <= i < loops@.len() ==> headed_by_back_target(#[trigger] loops@[i], back_preds@, dfs.node_of@, 0),
{
    let count = dfs.node_of.len();
    let mut non_back_preds = non_back_preds;
    let mut uf: Vec<usize> = Vec::new();
    let mut loop_of: Vec<Option<usize>> = Vec::new();
    let mut x: usize = 0;
    while x < count
        invariant
            x <= count,
            uf@.len() == x,
            loop_of@.len() == x,
            forall|i: int| 0 <= i < x ==> #[trigger] uf@[i] == i,
            forall|i: int| 0 <= i < x ==> (#[trigger] loop_of@[i]) is None,
        decreases count - x,
    {
        uf.push(x);
        loop_of.push(None);
        x = x + 1;
    }
    let mut loops: Vec<SimpleLoop> = Vec::new();
    let mut w = count;
    while w > 0
        invariant
            dfs.wf(n),
            count == dfs.node_of@.len(),
            back_preds@.len() == count,
            non_back_preds@.len() == count,
            all_below(back_preds@, count as nat),
            all_below(non_back_preds@, count as nat),
            forall|v: int, j: int| 0 <= v < back_preds@.len() && 0 <= j < back_preds@[v]@.len() ==> v <= #[trigger] back_preds@[v]@[j],
            w <= count,
            uf@.len() == count,
            forall|i: int| 0 <= i < count ==> #[trigger] uf@[i] == i || (w <= uf@[i] && uf@[i] < i),
            loop_of@.len() == count,
            forall|i: int| 0 <= i < count ==> (#[trigger] loop_of@[i] matches Some(l) ==> l < loops@.len()),
            found_loops(loops@, n, loops@.len() as nat),
            loops@.len() <= count - w,
            forall|i: int| 0 <= i < count && (#[trigger] loop_of@[i]) is Some ==> w <= i,
            blocks_listed_once(loops@),
            blocks_accounted(loops@, dfs, uf@, loop_of@, w as int),
            forall|x: int| w <= x < count && (#[trigger] back_preds@[x])@.len() > 0 ==> heads_loop(loops@, dfs.node_of@[x]),
            forall|i: int| 0 <= i < loops@.len() ==> headed_by_back_target(#[trigger] loops@[i], back_preds@, dfs.node_of@, w as int),
        decreases w,
    {
        w = w - 1;
        let mut pool: Vec<usize> = Vec::new();
        let mut is_self_loop = false;
        let mut irreducible = false;
        let mut j: usize = 0;
        while j < back_preds[w].len()
            invariant
                w < count,
                count == dfs.node_of@.len(),
                back_preds@.len() == count,
                all_below(back_preds@, count as nat),
                forall|v: int, k: int| 0 <= v < back_preds@.len() && 0 <= k < back_preds@[v]@.len() ==> v <= #[trigger] back_preds@[v]@[k],
                uf@.len() == count,
                forall|i: int| 0 <= i < count ==> #[trigger] uf@[i] == i || (w + 1 <= uf@[i] && uf@[i] < i),
                pool@.no_duplicates(),
                forall|i: int| 0 <= i < pool@.len() ==> w < #[trigger] pool@[i] < count,
                forall|i: int| 0 <= i < pool@.len() ==> uf@[#[trigger] pool@[i] as int] == pool@[i],
                j > 0 ==> pool@.len() > 0 || is_self_loop,
                pool@.len() > 0 || is_self_loop ==> j > 0,
                j <= back_preds@[w as int]@.len(),
            decreases back_preds@[w as int]@.len() - j,
        {
            let v = back_preds[w][j];
            if v != w {
                let r = find(&uf, v, Ghost((w + 1) as nat));
                if !contains(&pool, r) {
                    pool.push(r);
                }
            } else {
                is_self_loop = true;
            }
            j = j + 1;
        }
        let mut i: usize = 0;
        while i < pool.len()
            invariant
                w < count,
                count == dfs.node_of@.len(),
                dfs.wf(n),
                non_back_preds@.len() == count,
                all_below(non_back_preds@, count as nat),
                uf@.len() == count,
                forall|k: int| 0 <= k < count ==> #[trigger] uf@[k] == k || (w + 1 <= uf@[k] && uf@[k] < k),
                pool@.no_duplicates(),
                forall|k: int| 0 <= k < pool@.len() ==> w < #[trigger] pool@[k] < count,
                forall|k: int| 0 <= k < pool@.len() ==> uf@[#[trigger] pool@[k] as int] == pool@[k],
                i <= pool@.len(),
                back_preds@[w as int]@.len() > 0 ==> pool@.len() > 0 || is_self_loop,
                pool@.len() > 0 || is_self_loop ==> back_preds@[w as int]@.len() > 0,
            decreases count - i,
        {
            proof {
                lemma_distinct_below(pool@, count as nat);
            }
            let x = pool[i];
            let ghost preds_x = non_back_preds@[x as int];
            let mut k: usize = 0;
            while k < non_back_preds[x].len()
                invariant
                    w < x < count,
                    count == dfs.node_of@.len(),
                    dfs.wf(n),
                    non_back_preds@.len() == count,
                    non_back_preds@[x as int] == preds_x,
                    all_below(non_back_preds@, count as nat),
                    uf@.len() == count,
                    forall|m: int| 0 <= m < count ==> #[trigger] uf@[m] == m || (w + 1 <= uf@[m] && uf@[m] < m),
                    pool@.no_duplicates(),
                    forall|m: int| 0 <= m < pool@.len() ==> w < #[trigger] pool@[m] < count,
                    forall|m: int| 0 <= m < pool@.len() ==> uf@[#[trigger] pool@[m] as int] == pool@[m],
                    i < pool@.len(),
                    back_preds@[w as int]@.len() > 0 ==> pool@.len() > 0 || is_self_loop,
                    pool@.len() > 0 || is_self_loop ==> back_preds@[w as int]@.len() > 0,
                decreases preds_x@.len() - k,
            {
                let y = non_back_preds[x][k];
                let ydash = find(&uf, y, Ghost((w + 1) as nat));
                if !is_ancestor(w, ydash, &dfs.last) {
                    irreducible = true;
                    non_back_preds[w].push(ydash);
                } else if ydash != w && !contains(&pool, ydash) {
                    pool.push(ydash);
                }
                k = k + 1;
            }
            i = i + 1;
        }
        if pool.len() > 0 || is_self_loop {
            let idx = loops.len();
            let header = dfs.node_of[w];
            let mut blocks: Vec<usize> = Vec::new();
            blocks.push(header);
            let ghost mut bnum: Seq<usize> = seq![w];
            proof {
                assert forall|i: int, a: int, m: int|
                    0 <= i < loops@.len() && 0 <= a < loops@[i].basic_blocks@.len() && 0 <= m < blocks@.len()
                        implies #[trigger] loops@[i].basic_blocks@[a] != #[trigger] blocks@[m] by {
                    let b = loops@[i].basic_blocks@[a];
                    assert(dfs.number@[header as int] == Some(w));
                }
            }
            let mut k: usize = 0;
            while k < pool.len()
                invariant
                    w < count,
                    count == dfs.node_of@.len(),
                    dfs.wf(n),
                    idx == loops@.len(),
                    idx < count,
                    uf@.len() == count,
                    forall|m: int| 0 <= m < count ==> #[trigger] uf@[m] == m || (w <= uf@[m] && uf@[m] < m),
                    forall|m: int| 0 <= m < pool@.len() ==> w < #[trigger] pool@[m] < count,
                    loop_of@.len() == count,
                    forall|m: int| 0 <= m < count ==> (#[trigger] loop_of@[m] matches Some(l) ==> l < loops@.len()),
                    found_loops(loops@, n, (loops@.len() + 1) as nat),
                    blocks@.len() > 0,
                    blocks@[0] == header,
                    header < n,
                    forall|m: int| 0 <= m < blocks@.len() ==> #[trigger] blocks@[m] < n,
                    pool@.no_duplicates(),
                    k <= pool@.len(),
                    forall|m: int| k <= m < pool@.len() ==> uf@[#[trigger] pool@[m] as int] == pool@[m],
                    forall|m: int| 0 <= m < count && (#[trigger] loop_of@[m]) is Some ==> w < m,
                    blocks_listed_once(loops@),
                    blocks_accounted(loops@, dfs, uf@, loop_of@, w as int),
                    bnum.len() == blocks@.len(),
                    bnum[0] == w,
                    forall|m: int| 0 <= m < bnum.len() ==> #[trigger] bnum[m] < count && blocks@[m] == dfs.node_of@[bnum[m] as int],
                    forall|m: int| 0 < m < bnum.len() ==> w < #[trigger] bnum[m] && uf@[bnum[m] as int] != bnum[m],
                    forall|m: int| 0 <= m < bnum.len() ==> forall|q: int| k <= q < pool@.len() ==> #[trigger] bnum[m] != #[trigger] pool@[q],
                    bnum.no_duplicates(),
                    blocks@.no_duplicates(),
                    forall|i: int, a: int, m: int|
                        0 <= i < loops@.len() && 0 <= a < loops@[i].basic_blocks@.len() && 0 <= m < blocks@.len()
                            ==> #[trigger] loops@[i].basic_blocks@[a] != #[trigger] blocks@[m],
                    uf@[w as int] == w,
                    loop_of@[w as int] is None,
                    forall|x: int| w < x < count && (#[trigger] back_preds@[x])@.len() > 0 ==> heads_loop(loops@, dfs.node_of@[x]),
                    back_preds@.len() == count,
                    forall|i: int| 0 <= i < loops@.len() ==> headed_by_back_target(#[trigger] loops@[i], back_preds@, dfs.node_of@, (w + 1) as int),
                    back_preds@[w as int]@.len() > 0,
                decreases pool@.len() - k,
            {
                let node = pool[k];
                uf.set(node, w);
                match loop_of[node] {
                    Some(l) => {
                        let ghost loops0 = loops@;
                        loops[l].parent = Some(idx);
                        proof {
                            assert forall|i: int| 0 <= i < loops@.len() implies headed_by_back_target(#[trigger] loops@[i], back_preds@, dfs.node_of@, (w + 1) as int) by {
                                assert(headed_by_back_target(loops0[i], back_preds@, dfs.node_of@, (w + 1) as int));
                                let x = choose|x: int| (w + 1) as int <= x < dfs.node_of@.len() && back_preds@[x]@.len() > 0 && loops0[i].header == Some(#[trigger] dfs.node_of@[x]);
                                assert(loops@[i].header == loops0[i].header);
                            }
                            assert forall|x: int| w < x < count && (#[trigger] back_preds@[x])@.len() > 0 implies heads_loop(loops@, dfs.node_of@[x]) by {
                                let i = choose|i: int| 0 <= i < loops0.len() && (#[trigger] loops0[i]).header == Some(dfs.node_of@[x]);
                                assert(loops@[i].header == loops0[i].header);
                            }
                        }
                    },
                    None => {
                        let ghost blocks0 = blocks@;
                        blocks.push(dfs.node_of[node]);
                        proof {
                            let added = dfs.node_of@[node as int];
                            assert(dfs.number@[added as int] == Some(node));
                            assert forall|m: int| 0 <= m < blocks0.len() implies #[trigger] blocks0[m] != added by {
                                assert(dfs.number@[dfs.node_of@[bnum[m] as int] as int] == Some(bnum[m]));
                            }
                            assert forall|i: int, a: int|
                                0 <= i < loops@.len() && 0 <= a < loops@[i].basic_blocks@.len()
                                    implies #[trigger] loops@[i].basic_blocks@[a] != added by {
                                let b = loops@[i].basic_blocks@[a];
                            }
                            bnum = bnum.push(node);
                        }
                    },
                }
                k = k + 1;
            }
            let ghost before = loops@;
            let ghost new_blocks = blocks@;
            loops.push(SimpleLoop {
                basic_blocks: blocks,
                children: Vec::new(),
                parent: None,
                counter: idx + 1,
                header: Some(header),
                is_root: false,
                is_reducible: !irreducible,
                nesting_level: 0,
                depth_level: 0,
            });
            loop_of.set(w, Some(idx));
            proof {
                assert(loops@[idx as int].header == Some(dfs.node_of@[w as int]));
                assert forall|i: int| 0 <= i < loops@.len() implies headed_by_back_target(#[trigger] loops@[i], back_preds@, dfs.node_of@, w as int) by {
                    if i < idx {
                        assert(loops@[i] == before[i]);
                        assert(headed_by_back_target(before[i], back_preds@, dfs.node_of@, (w + 1) as int));
                        let x = choose|x: int| (w + 1) as int <= x < dfs.node_of@.len() && back_preds@[x]@.len() > 0 && before[i].header == Some(#[trigger] dfs.node_of@[x]);
                    } else {
                        assert(loops@[i].header == Some(dfs.node_of@[w as int]));
                    }
                }
                assert forall|x: int| w <= x < count && (#[trigger] back_preds@[x])@.len() > 0 implies heads_loop(loops@, dfs.node_of@[x]) by {
                    if x == w {
                        assert(loops@[idx as int].header == Some(dfs.node_of@[x]));
                    } else {
                        let i = choose|i: int| 0 <= i < before.len() && (#[trigger] before[i]).header == Some(dfs.node_of@[x]);
                        assert(loops@[i] == before[i]);
                    }
                }
                let node_of = dfs.node_of@;
                let number = dfs.number@;
                assert(loops@[idx as int].basic_blocks@ == new_blocks);
                assert forall|i: int, a: int|
                    0 <= i < loops@.len() && 0 <= a < loops@[i].basic_blocks@.len() implies {
                        let b = #[trigger] loops@[i].basic_blocks@[a];
                        &&& b < number.len()
                        &&& number[b as int] matches Some(y) && w <= y && y < count && (uf@[y as int] != y
                            || loop_of@[y as int] is Some)
                    } by {
                    if i < idx {
                        assert(loops@[i] == before[i]);
                        let b = before[i].basic_blocks@[a];
                        let y = number[b as int]->0;
                        if y == w {
                        }
                    } else {
                        assert(new_blocks[a] == node_of[bnum[a] as int]);
                        assert(number[node_of[bnum[a] as int] as int] == Some(bnum[a]));
                    }
                }
                assert forall|i: int, j: int, a: int, b: int|
                    0 <= i < loops@.len() && 0 <= j < loops@.len() && 0 <= a < loops@[i].basic_blocks@.len()
                        && 0 <= b < loops@[j].basic_blocks@.len() && (i != j || a != b) implies #[trigger] loops@[i].basic_blocks@[a]
                    != #[trigger] loops@[j].basic_blocks@[b] by {
                    if i < idx && j < idx {
                        assert(loops@[i] == before[i]);
                        assert(loops@[j] == before[j]);
                    } else if i == idx && j == idx {
                        assert(number[node_of[bnum[a] as int] as int] == Some(bnum[a]));
                        assert(number[node_of[bnum[b] as int] as int] == Some(bnum[b]));
                    } else if i == idx {
                        assert(loops@[j] == before[j]);
                        assert(number[node_of[bnum[a] as int] as int] == Some(bnum[a]));
                    } else {
                        assert(loops@[i] == before[i]);
                        assert(number[node_of[bnum[b] as int] as int] == Some(bnum[b]));
                    }
                }
            }
        }
    }
    loops
}

/// Along a walk from a numbered block, every block is numbered when the
/// numbering is closed under the successor lists, which hold every edge.
proof fn lemma_walk_numbered(
    edges: Seq<(usize, usize, EdgeType)>,
    succs: Seq<Vec<usize>>,
    number: Seq<Option<usize>>,
    path: Seq<usize>,
    i: int,
)
    requires
        number.len() == succs.len(),
        is_walk(edges, succs.len() as nat, path),
        number[path[0] as int] is Some,
        0 <= i < path.len(),
        forall|k: int| 0 <= k < edges.len() && #[trigger] edges[k].0 < succs.len() && edges[k].1 < succs.len()
            ==> succs[edges[k].0 as int]@.contains(edges[k].1),
        forall|v: int, j: int|
            0 <= v < succs.len() && number[v] is Some && 0 <= j < succs[v]@.len() ==> (#[trigger] number[
                succs[v]@[j] as int]) is Some,
    ensures
        number[path[i] as int] is Some,
    decreases i,
{
    if i > 0 {
        lemma_walk_numbered(edges, succs, number, path, i - 1);
        let h = i - 1;
        assert(is_edge(edges, path[h], path[h + 1]));
        assert(h + 1 == i);
        let k = choose|k: int| 0 <= k < edges.len() && #[trigger] edges[k].0 == path[i - 1] && edges[k].1 == path[i];
        assert(path[i - 1] < succs.len() && path[i] < succs.len());
        assert(succs[path[i - 1] as int]@.contains(path[i]));
        let j = choose|j: int| 0 <= j < succs[path[i - 1] as int]@.len() && #[trigger] succs[path[i - 1] as int]@[j] == path[i];
        assert(number[succs[path[i - 1] as int]@[j] as int] is Some);
    }
}

/// Some predecessor in `preds` has preorder number `v`.
spec fn numbered_among(preds: Seq<usize>, number: Seq<Option<usize>>, v: usize) -> bool {
    exists|i: int| 0 <= i < preds.len() && number[preds[i] as int] == Some(v)
}

/// The header of loop `l` is the block of a preorder number of at least
/// `lo` that has back-edge predecessors.
spec fn headed_by_back_target(l: SimpleLoop, back_preds: Seq<Vec<usize>>, node_of: Seq<usize>, lo: int) -> bool {
    exists|x: int| lo <= x < node_of.len() && back_preds[x]@.len() > 0 && l.header == Some(#[trigger] node_of[x])
}

/// A predecessor numbered within the subtree of `w`, which ends at `last`,
/// is recorded in `list`.
spec fn recorded_if_descendant(number: Option<usize>, w: int, last: usize, list: Seq<usize>) -> bool {
    match number {
        Some(v) => (w <= v && v <= last) ==> list.contains(v),
        None => true,
    }
}

/// Raising a nesting level at position `p` leaves the child nesting over
/// the positions below `k <= p` unchanged.
proof fn lemma_child_nesting_update(ps: Seq<Option<usize>>, ns: Seq<usize>, q: Option<usize>, k: nat, p: int, x: usize)
    requires
        k <= p < ns.len(),
    ensures
        child_nesting(ps, ns.update(p, x), q, k) == child_nesting(ps, ns, q, k),
    decreases k,
{
    if k > 0 {
        lemma_child_nesting_update(ps, ns, q, (k - 1) as nat, p, x);
    }
}

/// The forest with only its root, over `n` blocks.
fn empty_forest(Ghost(n): Ghost<nat>) -> (r: LoopStructureGraph)
    ensures
        r.is_forest(n),
        r.loops@.len() == 0,
{
    let r = LoopStructureGraph::default();
    assert(r.is_forest(n));
    r
}

/// Find the loops of `cfg` and build its loop nesting forest (Havlak's
/// algorithm, derived from Tarjan's interval analysis). Without an entry
/// block the forest holds only its root. The graph has fewer than
/// `u32::MAX` blocks, so that the loop counter fits a `usize` on every
/// platform; each graph that `ControlFlowGraph::new` builds does.
pub fn find_loops(cfg: &ControlFlowGraph) -> (r: LoopStructureGraph)
    requires
        cfg.blocks().len() < u32::MAX,
    ensures
        r.is_forest(cfg.blocks().len()),
        cfg.entry_block is None ==> r.loops@.len() == 0,
        cfg.entry_block matches Some(e) ==> forall|b: usize|
            #[trigger] reaches(cfg.edges(), cfg.blocks().len(), e, b) && is_edge(cfg.edges(), b, b) ==> heads_loop(
                r.loops@,
                b,
            ),
        forall|i: int| 0 <= i < r.loops@.len() ==> on_cycle(cfg.edges(), cfg.blocks().len(), (#[trigger] r.loops@[i]).header->0),
        cfg.entry_block matches Some(e) ==> forall|b: usize, h: usize|
            reaches(cfg.edges(), cfg.blocks().len(), e, b) && is_edge(cfg.edges(), b, h) && #[trigger] dominates(
                cfg.edges(),
                cfg.blocks().len(),
                e,
                h,
                b,
            ) ==> heads_loop(r.loops@, h),
        cfg.entry_block matches Some(e) ==> forall|i: int, a: int|
            0 <= i < r.loops@.len() && 0 <= a < r.loops@[i].basic_blocks@.len() ==> reaches(
                cfg.edges(),
                cfg.blocks().len(),
                e,
                #[trigger] r.loops@[i].basic_blocks@[a],
            ),
{
    let n = graph_node_count(&cfg.graph);
    let entry = match cfg.entry_block {
        Some(e) => e,
        None => {
            return empty_forest(Ghost(n as nat));
        },
    };
    if entry >= n {
        let r = empty_forest(Ghost(n as nat));
        assert forall|b: usize| #[trigger] reaches(cfg.edges(), cfg.blocks().len(), entry, b) implies false by {
            let path = choose|path: Seq<usize>| #[trigger] is_walk(cfg.edges(), n as nat, path) && path[0] == entry && path.last() == b;
            assert(path[0] < n);
        }
        return r;
    }
    let (succs, preds) = adjacency(cfg, n);
    let dfs = depth_first_numbering(&succs, entry, Ghost(cfg.edges()));
    let (back_preds, non_back_preds) = classify_predecessors(&preds, &dfs);
    let mut loops = havlak_loops(&dfs, &back_preds, non_back_preds, Ghost(n as nat));
    proof {
        assert forall|b: usize|
            #[trigger] reaches(cfg.edges(), n as nat, entry, b) && is_edge(cfg.edges(), b, b) implies heads_loop(loops@, b) by {
            let path = choose|path: Seq<usize>| #[trigger] is_walk(cfg.edges(), n as nat, path) && path[0] == entry && path.last() == b;
            lemma_walk_numbered(cfg.edges(), succs@, dfs.number@, path, path.len() - 1);
            assert(path[path.len() - 1] == b);
            let w = dfs.number@[b as int]->0;
            assert(dfs.node_of@[w as int] == b);
            let k = choose|k: int| 0 <= k < cfg.edges().len() && #[trigger] cfg.edges()[k].0 == b && cfg.edges()[k].1 == b;
            assert(preds@[b as int]@.contains(b));
            let j = choose|j: int| 0 <= j < preds@[b as int]@.len() && #[trigger] preds@[b as int]@[j] == b;
            assert(recorded_if_descendant(dfs.number@[preds@[dfs.node_of@[w as int] as int]@[j] as int], w as int, dfs.last@[w as int], back_preds@[w as int]@));
            assert(back_preds@[w as int]@.contains(w));
        }
    }
    proof {
        assert forall|i: int| 0 <= i < loops@.len() implies on_cycle(cfg.edges(), n as nat, (#[trigger] loops@[i]).header->0) by {
            assert(headed_by_back_target(loops@[i], back_preds@, dfs.node_of@, 0));
            let x = choose|x: int| 0 <= x < dfs.node_of@.len() && back_preds@[x]@.len() > 0 && loops@[i].header == Some(#[trigger] dfs.node_of@[x]);
            let h = dfs.node_of@[x];
            let v = back_preds@[x]@[0];
            assert(x <= v && v <= dfs.last@[x]);
            let i2 = choose|i2: int| 0 <= i2 < preds@[h as int]@.len() && dfs.number@[preds@[h as int]@[i2] as int] == Some(v);
            let p = preds@[h as int]@[i2];
            assert(p < n);
            assert(dfs.node_of@[v as int] == p);
            assert(reaches(cfg.edges(), n as nat, dfs.node_of@[x], dfs.node_of@[v as int]));
            assert(is_edge(cfg.edges(), p, h));
        }
    }
    proof {
        assert forall|b: usize, h: usize|
            reaches(cfg.edges(), n as nat, entry, b) && is_edge(cfg.edges(), b, h) && #[trigger] dominates(cfg.edges(), n as nat, entry, h, b)
                implies heads_loop(loops@, h) by {
            let path = choose|path: Seq<usize>| #[trigger] is_walk(cfg.edges(), n as nat, path) && path[0] == entry && path.last() == b;
            lemma_walk_numbered(cfg.edges(), succs@, dfs.number@, path, path.len() - 1);
            assert(path[path.len() - 1] == b);
            let yb = dfs.number@[b as int]->0;
            assert(dfs.node_of@[yb as int] == b);
            let tree = dfs.walks@[yb as int];
            assert(is_walk(cfg.edges(), n as nat, tree) && tree[0] == entry && tree.last() == b);
            assert(tree.contains(h));
            let i = choose|i: int| 0 <= i < tree.len() && tree[i] == h;
            assert(is_dfs_ancestor(dfs.number@, dfs.last@, yb as int, tree[i]));
            assert(h < n);
            let zh = dfs.number@[h as int]->0;
            assert(dfs.node_of@[zh as int] == h);
            let k = choose|k: int| 0 <= k < cfg.edges().len() && #[trigger] cfg.edges()[k].0 == b && cfg.edges()[k].1 == h;
            assert(preds@[h as int]@.contains(b));
            let j = choose|j: int| 0 <= j < preds@[h as int]@.len() && #[trigger] preds@[h as int]@[j] == b;
            assert(recorded_if_descendant(dfs.number@[preds@[dfs.node_of@[zh as int] as int]@[j] as int], zh as int, dfs.last@[zh as int], back_preds@[zh as int]@));
            assert(back_preds@[zh as int]@.contains(yb));
            assert(back_preds@[zh as int]@.len() > 0);
        }
    }
    let count = loops.len();
    let ghost ps = parents_of(loops@);
    let ghost hdrs = loops@.map_values(|l: SimpleLoop| l.header);
    let ghost blks = loops@.map_values(|l: SimpleLoop| l.basic_blocks@);
    let ghost found = loops@;
    let mut root = SimpleLoop::new(0);
    root.is_root = true;

    // Link each loop to its parent, the root standing for `None`.
    let mut j: usize = 0;
    while j < count
        invariant
            j <= count,
            count == loops@.len(),
            parents_of(loops@) == ps,
            loops@.map_values(|l: SimpleLoop| l.header) == hdrs,
            loops@.map_values(|l: SimpleLoop| l.basic_blocks@) == blks,
            found_loops_but_children(loops@, n as nat),
            forall|q: int| 0 <= q < count ==> (#[trigger] loops@[q]).children@ == children_among(ps, Some(q as usize), j as nat),
            root.children@ == children_among(ps, None, j as nat),
            root.is_root && root.header is None && root.parent is None && root.counter == 0,
            root.basic_blocks@.len() == 0 && root.depth_level == 0 && root.nesting_level == 0,
        decreases count - j,
    {
        assert(ps[j as int] == loops@[j as int].parent);
        match loops[j].parent {
            Some(p) => {
                loops[p].children.push(j);
                assert forall|q: int| 0 <= q < count implies (#[trigger] loops@[q]).children@ == children_among(ps, Some(q as usize), (j + 1) as nat) by {
                    if q == p {
                    }
                }
            },
            None => {
                root.children.push(j);
            },
        }
        assert(parents_of(loops@) =~= ps);
        assert(loops@.map_values(|l: SimpleLoop| l.header) =~= hdrs);
        assert(loops@.map_values(|l: SimpleLoop| l.basic_blocks@) =~= blks);
        j = j + 1;
    }

    // Depth levels, outermost loops first: a parent comes after its children.
    let mut i: usize = count;
    while i > 0
        invariant
            i <= count,
            count == loops@.len(),
            parents_of(loops@) == ps,
            loops@.map_values(|l: SimpleLoop| l.header) == hdrs,
            loops@.map_values(|l: SimpleLoop| l.basic_blocks@) == blks,
            found_loops_but_levels(loops@, n as nat),
            forall|q: int| 0 <= q < count ==> (#[trigger] loops@[q]).children@ == children_among(ps, Some(q as usize), count as nat),
            forall|q: int| 0 <= q < count ==> (#[trigger] loops@[q]).nesting_level == 0,
            root.nesting_level == 0,
            root.children@ == children_among(ps, None, count as nat),
            root.is_root && root.header is None && root.parent is None && root.counter == 0,
            root.basic_blocks@.len() == 0 && root.depth_level == 0,
            forall|q: int| i <= q < count ==> {
                &&& (#[trigger] loops@[q]).depth_level == match loops@[q].parent {
                    Some(p) => loops@[p as int].depth_level + 1,
                    None => 1,
                }
                &&& loops@[q].depth_level <= count - q
            },
        decreases i,
    {
        i = i - 1;
        let depth = match loops[i].parent {
            Some(p) => loops[p].depth_level + 1,
            None => 1,
        };
        loops[i].depth_level = depth;
        assert(parents_of(loops@) =~= ps);
        assert(loops@.map_values(|l: SimpleLoop| l.header) =~= hdrs);
        assert(loops@.map_values(|l: SimpleLoop| l.basic_blocks@) =~= blks);
    }

    // Nesting levels, innermost loops first: a child comes before its parent.
    let mut k: usize = 0;
    while k < count
        invariant
            k <= count,
            count == loops@.len(),
            parents_of(loops@) == ps,
            loops@.map_values(|l: SimpleLoop| l.header) == hdrs,
            loops@.map_values(|l: SimpleLoop| l.basic_blocks@) == blks,
            found_loops_but_levels(loops@, n as nat),
            forall|q: int| 0 <= q < count ==> (#[trigger] loops@[q]).children@ == children_among(ps, Some(q as usize), count as nat),
            forall|q: int| 0 <= q < count ==> (#[trigger] loops@[q]).depth_level == match loops@[q].parent {
                Some(p) => loops@[p as int].depth_level + 1,
                None => 1,
            },
            forall|q: int| 0 <= q < count ==> (#[trigger] loops@[q]).nesting_level == child_nesting(ps, loops@.map_values(|l: SimpleLoop| l.nesting_level), Some(q as usize), k as nat),
            forall|q: int| 0 <= q < count ==> (#[trigger] loops@[q]).nesting_level <= k,
            root.nesting_level == child_nesting(ps, loops@.map_values(|l: SimpleLoop| l.nesting_level), None, k as nat),
            root.nesting_level <= k,
            root.children@ == children_among(ps, None, count as nat),
            root.is_root && root.header is None && root.parent is None && root.counter == 0,
            root.basic_blocks@.len() == 0 && root.depth_level == 0,
        decreases count - k,
    {
        let ghost ns0 = loops@.map_values(|l: SimpleLoop| l.nesting_level);
        let level = loops[k].nesting_level + 1;
        assert(ps[k as int] == loops@[k as int].parent);
        match loops[k].parent {
            Some(p) => {
                if loops[p].nesting_level < level {
                    loops[p].nesting_level = level;
                }
                proof {
                    let ns1 = loops@.map_values(|l: SimpleLoop| l.nesting_level);
                    assert(ns1 =~= ns0.update(p as int, ns1[p as int]));
                    assert forall|q: int| 0 <= q < count implies (#[trigger] loops@[q]).nesting_level == child_nesting(ps, ns1, Some(q as usize), (k + 1) as nat) by {
                        lemma_child_nesting_update(ps, ns0, Some(q as usize), k as nat, p as int, ns1[p as int]);
                        lemma_child_nesting_update(ps, ns0, Some(q as usize), (k + 1) as nat, p as int, ns1[p as int]);
                    }
                    lemma_child_nesting_update(ps, ns0, None, k as nat, p as int, ns1[p as int]);
                }
            },
            None => {
                if root.nesting_level < level {
                    root.nesting_level = level;
                }
            },
        }
        assert(parents_of(loops@) =~= ps);
        assert(loops@.map_values(|l: SimpleLoop| l.header) =~= hdrs);
        assert(loops@.map_values(|l: SimpleLoop| l.basic_blocks@) =~= blks);
        k = k + 1;
    }
    let r = LoopStructureGraph { loop_counter: count + 1, loops, root };
    proof {
        assert forall|b: usize|
            #[trigger] reaches(cfg.edges(), n as nat, entry, b) && is_edge(cfg.edges(), b, b) implies heads_loop(r.loops@, b) by {
            assert(heads_loop(found, b));
            let i = choose|i: int| 0 <= i < found.len() && (#[trigger] found[i]).header == Some(b);
            assert(hdrs[i] == Some(b));
            assert(r.loops@.map_values(|l: SimpleLoop| l.header)[i] == Some(b));
            assert(r.loops@[i].header == Some(b));
        }
        assert forall|b: usize, h: usize|
            reaches(cfg.edges(), n as nat, entry, b) && is_edge(cfg.edges(), b, h) && #[trigger] dominates(cfg.edges(), n as nat, entry, h, b)
                implies heads_loop(r.loops@, h) by {
            assert(heads_loop(found, h));
            let i = choose|i: int| 0 <= i < found.len() && (#[trigger] found[i]).header == Some(h);
            assert(hdrs[i] == Some(h));
            assert(r.loops@.map_values(|l: SimpleLoop| l.header)[i] == Some(h));
            assert(r.loops@[i].header == Some(h));
        }
        assert forall|i: int| 0 <= i < r.loops@.len() implies on_cycle(cfg.edges(), n as nat, (#[trigger] r.loops@[i]).header->0) by {
            assert(on_cycle(cfg.edges(), n as nat, found[i].header->0));
            assert(hdrs[i] == found[i].header);
            assert(r.loops@.map_values(|l: SimpleLoop| l.header)[i] == r.loops@[i].header);
        }
        assert forall|i: int, a: int|
            0 <= i < r.loops@.len() && 0 <= a < r.loops@[i].basic_blocks@.len() implies reaches(
                cfg.edges(),
                n as nat,
                entry,
                #[trigger] r.loops@[i].basic_blocks@[a],
            ) by {
            assert(blks[i] == found[i].basic_blocks@);
            assert(r.loops@.map_values(|l: SimpleLoop| l.basic_blocks@)[i] == r.loops@[i].basic_blocks@);
            let b = found[i].basic_blocks@[a];
            assert(dfs.number@[b as int] is Some);
        }
    }
    r
}

/// A forest with a single loop: that loop is outermost and innermost, at
/// nesting level 0 and depth level 1, and is the root's only child.
pub proof fn lemma_single_loop_levels(lsg: &LoopStructureGraph, n: nat)
    requires
        lsg.is_forest(n),
        lsg.loops@.len() == 1,
    ensures
        lsg.loops@[0].parent is None,
        lsg.loops@[0].nesting_level == 0,
        lsg.loops@[0].depth_level == 1,
        lsg.root.children@ == seq![0usize],
{
    let ps = parents_of(lsg.loops@);
    let l = lsg.loops@[0];
    assert(l.parent is None);
    assert(ps[0] == l.parent);
    assert(children_among(ps, None, 0) =~= Seq::<usize>::empty());
    assert(lsg.root.children@ =~= seq![0usize]);
    let ns = lsg.nesting_levels();
    assert(child_nesting(ps, ns, Some(0usize), 0) == 0);
    assert(child_nesting(ps, ns, Some(0usize), 1) == 0);
}

/// A forest of two loops, one inside the other: the inner loop is at
/// nesting level 0 and depth level 2, the outer one at nesting level 1 and
/// depth level 1.
pub proof fn lemma_nested_pair_levels(lsg: &LoopStructureGraph, n: nat)
    requires
        lsg.is_forest(n),
        lsg.loops@.len() == 2,
        lsg.loops@[0].parent == Some(1usize),
    ensures
        lsg.loops@[0].nesting_level == 0,
        lsg.loops@[0].depth_level == 2,
        lsg.loops@[1].nesting_level == 1,
        lsg.loops@[1].depth_level == 1,
{
    let ps = parents_of(lsg.loops@);
    let ns = lsg.nesting_levels();
    let inner = lsg.loops@[0];
    let outer = lsg.loops@[1];
    assert(outer.parent is None);
    assert(ps[0] == Some(1usize));
    assert(ps[1] is None);
    assert(ns[0] == inner.nesting_level);
    assert(child_nesting(ps, ns, Some(0usize), 0) == 0);
    assert(child_nesting(ps, ns, Some(0usize), 1) == 0);
    assert(child_nesting(ps, ns, Some(0usize), 2) == 0);
    assert(inner.nesting_level == 0);
    assert(child_nesting(ps, ns, Some(1usize), 0) == 0);
    assert(child_nesting(ps, ns, Some(1usize), 1) == 1);
    assert(child_nesting(ps, ns, Some(1usize), 2) == 1);
}

} // verus!
