//! Turns a control-flow graph into WASM's structured control flow.
//!
//! WASM has no arbitrary goto, only `block` / `loop` / `if` / `br` /
//! `br_table`, while a function body is a graph of basic blocks.
//!
//! The structuring follows the dominator tree (Ramsey 2022, "Beyond
//! Relooper"), which structures any reducible graph without splitting
//! nodes:
//!
//! 1. take the reverse postorder, to order merge points;
//! 2. build the dominator tree: what a block dominates can be placed
//!    inside it;
//! 3. build the tree recursively from the entry: a loop header (a block
//!    a back edge returns to) is wrapped in `loop`, whose `br` goes back to
//!    its start; a merge point (a block with two predecessors or more) is
//!    wrapped, before the block that dominates it, in `block`, whose `br`
//!    leaves to what follows; any other successor is placed where it is.
//!
//! Only the flow of each block is read here: what a block holds is left
//! as its number, and turned into instructions by the caller.

use vstd::prelude::*;

verus! {

/// A basic block, by its position in the function body.
#[derive(Debug, Clone, Copy, PartialEq, Eq, Hash, Structural)]
pub struct BasicBlock(pub u32);

impl BasicBlock {
    /// The entry block.
    pub fn start() -> (r: BasicBlock)
        ensures
            r.0 == 0,
    {
        BasicBlock(0)
    }

    pub fn new(n: u32) -> (r: BasicBlock)
        ensures
            r.0 == n,
    {
        BasicBlock(n)
    }

    pub fn value(&self) -> (r: u32)
        ensures
            r == self.0,
    {
        self.0
    }

    pub fn index(&self) -> (r: usize)
        ensures
            r == self.0,
    {
        self.0 as usize
    }
}

/// How a block hands on control: what of its terminator the structuring
/// reads.
#[derive(Debug, Clone, PartialEq, Eq)]
pub enum TerminatorKind {
    Return,
    Unreachable,
    Goto { target: BasicBlock },
    /// A call hands control on to `target` when it returns.
    Call { target: BasicBlock },
    /// Compares a value with each of `arms`, going to the block of the one
    /// it equals, or to `otherwise`.
    SwitchInt { arms: Vec<(u128, BasicBlock)>, otherwise: BasicBlock },
}

/// The blocks a terminator hands control to, in order.
pub open spec fn successors(t: TerminatorKind) -> Seq<BasicBlock> {
    match t {
        TerminatorKind::Return => Seq::empty(),
        TerminatorKind::Unreachable => Seq::empty(),
        TerminatorKind::Goto { target } => seq![target],
        TerminatorKind::Call { target } => seq![target],
        TerminatorKind::SwitchInt { arms, otherwise } => arms@.map_values(|a: (u128, BasicBlock)| a.1).push(
            otherwise,
        ),
    }
}

/// Structured control flow.
///
/// The depth of a `br` counts, from the inside, the [`Structured::Block`],
/// [`Structured::Loop`] and [`Structured::If`] around it (WASM's rule for
/// relative depths).
#[derive(Debug)]
pub enum Structured {
    /// `block ... end`: runs its items in order; a `br` to it leaves to its
    /// end.
    Block(Vec<Structured>),
    /// `loop ... end`: a `br` to it goes back to its start.
    Loop(Box<Structured>),
    /// What a basic block holds (its statements, and a terminator that is
    /// no branch). Where control goes next is told by what follows.
    Simple(BasicBlock),
    /// `if ... else ... end`; the condition is the terminator of `bb`.
    If { bb: BasicBlock, then: Vec<Structured>, els: Vec<Structured> },
    /// `br <depth>`.
    Br(u32),
    Return,
    Unreachable,
}

/// The first `br` in `t`, in preorder, whose depth reaches out of its
/// enclosing constructs, when `t` stands inside `depth` of them.
pub open spec fn first_bad_br(t: Structured, depth: int) -> Option<u32>
    decreases t, 1nat,
{
    match t {
        Structured::Br(d) => if d >= depth {
            Some(d)
        } else {
            None
        },
        Structured::Block(items) => first_bad_br_in(items@, depth + 1),
        Structured::Loop(inner) => first_bad_br(*inner, depth + 1),
        Structured::If { then, els, .. } => match first_bad_br_in(then@, depth + 1) {
            Some(d) => Some(d),
            None => first_bad_br_in(els@, depth + 1),
        },
        _ => None,
    }
}

pub open spec fn first_bad_br_in(ts: Seq<Structured>, depth: int) -> Option<u32>
    decreases ts, 0nat,
{
    if ts.len() == 0 {
        None
    } else {
        match first_bad_br_in(ts.subrange(0, ts.len() - 1), depth) {
            Some(d) => Some(d),
            None => first_bad_br(ts[ts.len() - 1], depth),
        }
    }
}

/// Whether every `br` of `t` stays inside its enclosing constructs.
pub open spec fn branches_ok(t: Structured, depth: int) -> bool {
    first_bad_br(t, depth) is None
}

pub open spec fn branches_ok_in(ts: Seq<Structured>, depth: int) -> bool {
    first_bad_br_in(ts, depth) is None
}

/// `depth + 1`, held below `u64::MAX`; depths of `br` are `u32`, so a
/// held depth answers every comparison as the true one.
fn deeper(depth: u64) -> (r: u64)
    ensures
        r == if depth == u64::MAX { depth as int } else { depth + 1 },
{
    if depth == u64::MAX {
        depth
    } else {
        depth + 1
    }
}

/// The depth held in a `u64`.
pub open spec fn held(depth: int) -> int {
    if depth >= u64::MAX {
        u64::MAX as int
    } else {
        depth
    }
}

fn walk(tree: &Structured, depth: u64, Ghost(true_depth): Ghost<int>) -> (r: Result<(), u32>)
    requires
        depth == held(true_depth),
        true_depth >= 0,
    ensures
        match first_bad_br(*tree, true_depth) {
            Some(d) => r == Err::<(), u32>(d),
            None => r is Ok,
        },
    decreases tree, 1nat,
{
    match tree {
        Structured::Br(d) => {
            if (*d as u64) >= depth {
                Err(*d)
            } else {
                Ok(())
            }
        },
        Structured::Block(items) => walk_all(items, deeper(depth), Ghost(true_depth + 1)),
        Structured::Loop(inner) => {
            proof {
                assert(decreases_to!(*tree => **inner));
            }
            walk(inner, deeper(depth), Ghost(true_depth + 1))
        },
        Structured::If { then, els, .. } => {
            match walk_all(then, deeper(depth), Ghost(true_depth + 1)) {
                Err(d) => Err(d),
                Ok(()) => walk_all(els, deeper(depth), Ghost(true_depth + 1)),
            }
        },
        _ => Ok(()),
    }
}

fn walk_all(items: &Vec<Structured>, depth: u64, Ghost(true_depth): Ghost<int>) -> (r: Result<(), u32>)
    requires
        depth == held(true_depth),
        true_depth >= 0,
    ensures
        match first_bad_br_in(items@, true_depth) {
            Some(d) => r == Err::<(), u32>(d),
            None => r is Ok,
        },
    decreases items@, 0nat,
{
    let ghost s = items@;
    let mut i: usize = 0;
    assert(s.take(0) =~= Seq::<Structured>::empty());
    while i < items.len()
        invariant
            i <= s.len(),
            s == items@,
            depth == held(true_depth),
            true_depth >= 0,
            first_bad_br_in(s.take(i as int), true_depth) is None,
        decreases s.len() - i,
    {
        proof {
            assert(decreases_to!(items@ => items@[i as int]));
            let t = s.take(i + 1);
            assert(t.subrange(0, t.len() - 1) =~= s.take(i as int));
            assert(t[t.len() - 1] == s[i as int]);
        }
        match walk(&items[i], depth, Ghost(true_depth)) {
            Err(d) => {
                proof {
                    lemma_first_bad_prefix(s, i + 1, true_depth);
                }
                return Err(d);
            },
            Ok(()) => {},
        }
        i = i + 1;
    }
    assert(s.take(s.len() as int) =~= s);
    Ok(())
}

/// A bad `br` in a prefix is the first bad one of the whole.
proof fn lemma_first_bad_prefix(s: Seq<Structured>, k: int, depth: int)
    requires
        0 <= k <= s.len(),
        first_bad_br_in(s.take(k), depth) is Some,
    ensures
        first_bad_br_in(s, depth) == first_bad_br_in(s.take(k), depth),
    decreases s.len(),
{
    if k < s.len() {
        let d = s.subrange(0, s.len() - 1);
        assert(d.take(k) =~= s.take(k));
        lemma_first_bad_prefix(d, k, depth);
    } else {
        assert(s.take(k) =~= s);
    }
}

/// Checks that no `br` reaches out of its enclosing constructs; a tree
/// that failed would fail WASM's validation, so it is looked at before it
/// is written. `Err` holds the first depth too large, in preorder.
pub fn check_branch_depths(tree: &Structured) -> (r: Result<(), u32>)
    ensures
        match first_bad_br(*tree, 0) {
            Some(d) => r == Err::<(), u32>(d),
            None => r is Ok,
        },
{
    walk(tree, 0, Ghost(0))
}

/// The basic blocks of a tree, in preorder, as many times as they appear.
pub open spec fn blocks_of(t: Structured) -> Seq<BasicBlock>
    decreases t, 1nat,
{
    match t {
        Structured::Simple(bb) => seq![bb],
        Structured::Block(items) => blocks_of_all(items@),
        Structured::Loop(inner) => blocks_of(*inner),
        Structured::If { bb, then, els } => seq![bb] + blocks_of_all(then@) + blocks_of_all(els@),
        _ => Seq::empty(),
    }
}

pub open spec fn blocks_of_all(ts: Seq<Structured>) -> Seq<BasicBlock>
    decreases ts, 0nat,
{
    if ts.len() == 0 {
        Seq::empty()
    } else {
        blocks_of_all(ts.subrange(0, ts.len() - 1)) + blocks_of(ts[ts.len() - 1])
    }
}

fn collect_blocks(tree: &Structured, out: &mut Vec<BasicBlock>)
    ensures
        final(out)@ == old(out)@ + blocks_of(*tree),
    decreases tree, 1nat,
{
    match tree {
        Structured::Simple(bb) => {
            out.push(*bb);
        },
        Structured::Block(items) => {
            collect_all(items, out);
        },
        Structured::Loop(inner) => {
            proof {
                assert(decreases_to!(*tree => **inner));
            }
            collect_blocks(inner, out);
        },
        Structured::If { bb, then, els } => {
            out.push(*bb);
            collect_all(then, out);
            collect_all(els, out);
            assert(final(out)@ =~= old(out)@ + blocks_of(*tree));
        },
        _ => {
            assert(out@ =~= old(out)@ + blocks_of(*tree));
        },
    }
}

fn collect_all(items: &Vec<Structured>, out: &mut Vec<BasicBlock>)
    ensures
        final(out)@ == old(out)@ + blocks_of_all(items@),
    decreases items@, 0nat,
{
    let ghost s = items@;
    let ghost head = out@;
    let mut i: usize = 0;
    assert(s.take(0) =~= Seq::<Structured>::empty());
    assert(head + blocks_of_all(s.take(0)) =~= head);
    while i < items.len()
        invariant
            i <= s.len(),
            s == items@,
            out@ == head + blocks_of_all(s.take(i as int)),
        decreases s.len() - i,
    {
        proof {
            assert(decreases_to!(items@ => items@[i as int]));
            let t = s.take(i + 1);
            assert(t.subrange(0, t.len() - 1) =~= s.take(i as int));
            assert(t[t.len() - 1] == s[i as int]);
        }
        collect_blocks(&items[i], out);
        assert(out@ =~= head + blocks_of_all(s.take(i + 1)));
        i = i + 1;
    }
    assert(s.take(s.len() as int) =~= s);
}

/// The basic blocks that appear in a tree, in preorder (a block appears
/// once for each place it stands).
pub fn blocks_in(tree: &Structured) -> (r: Vec<BasicBlock>)
    ensures
        r@ == blocks_of(*tree),
{
    let mut out = Vec::new();
    collect_blocks(tree, &mut out);
    assert(out@ =~= blocks_of(*tree));
    out
}


/// The successor lists of the blocks, as plain values.
pub open spec fn graph_of(succs: Seq<Vec<BasicBlock>>) -> Seq<Seq<BasicBlock>> {
    succs.map_values(|v: Vec<BasicBlock>| v@)
}

/// Every successor named is a block of the graph.
pub open spec fn graph_closed(g: Seq<Seq<BasicBlock>>) -> bool {
    forall|u: int, k: int| 0 <= u < g.len() && 0 <= k < g[u].len() ==> (#[trigger] g[u][k]).0 < g.len()
}

/// A path from the entry: each block is a successor of the one before.
pub open spec fn is_path(g: Seq<Seq<BasicBlock>>, p: Seq<BasicBlock>) -> bool {
    &&& p.len() >= 1
    &&& p[0].0 == 0
    &&& forall|k: int| 0 <= k < p.len() - 1 ==> (#[trigger] p[k]).0 < g.len() && g[p[k].0 as int].contains(p[k + 1])
}

/// Whether a block can be reached from the entry.
pub open spec fn reachable(g: Seq<Seq<BasicBlock>>, v: BasicBlock) -> bool {
    exists|p: Seq<BasicBlock>| is_path(g, p) && p.last() == v
}

proof fn lemma_reach_step(g: Seq<Seq<BasicBlock>>, u: BasicBlock, k: int)
    requires
        reachable(g, u),
        u.0 < g.len(),
        0 <= k < g[u.0 as int].len(),
    ensures
        reachable(g, g[u.0 as int][k]),
{
    let p = choose|p: Seq<BasicBlock>| is_path(g, p) && p.last() == u;
    let v = g[u.0 as int][k];
    let q = p.push(v);
    assert forall|j: int| 0 <= j < q.len() - 1 implies (#[trigger] q[j]).0 < g.len() && g[q[j].0 as int].contains(q[j + 1]) by {
        if j < p.len() - 1 {
            assert(q[j] == p[j] && q[j + 1] == p[j + 1]);
        } else {
            assert(q[j] == u && q[j + 1] == v);
            assert(g[u.0 as int][k] == v);
        }
    }
    assert(is_path(g, q) && q.last() == v);
}

proof fn lemma_entry_reachable(g: Seq<Seq<BasicBlock>>)
    ensures
        reachable(g, BasicBlock(0)),
{
    let p = seq![BasicBlock(0)];
    assert(is_path(g, p) && p.last() == BasicBlock(0));
}

/// A set of blocks that holds the entry and every successor of its blocks
/// holds every block reachable from the entry.
pub proof fn lemma_closed_holds_reachable(g: Seq<Seq<BasicBlock>>, s: Seq<BasicBlock>, v: BasicBlock)
    requires
        s.contains(BasicBlock(0)),
        forall|i: int, k: int| 0 <= i < s.len() && 0 <= k < g[s[i].0 as int].len() ==> s.contains(
            #[trigger] g[s[i].0 as int][k],
        ),
        forall|i: int| 0 <= i < s.len() ==> (#[trigger] s[i]).0 < g.len(),
        reachable(g, v),
    ensures
        s.contains(v),
{
    let p = choose|p: Seq<BasicBlock>| is_path(g, p) && p.last() == v;
    lemma_path_inside(g, s, p, p.len() - 1);
}

proof fn lemma_path_inside(g: Seq<Seq<BasicBlock>>, s: Seq<BasicBlock>, p: Seq<BasicBlock>, j: int)
    requires
        s.contains(BasicBlock(0)),
        forall|i: int, k: int| 0 <= i < s.len() && 0 <= k < g[s[i].0 as int].len() ==> s.contains(
            #[trigger] g[s[i].0 as int][k],
        ),
        is_path(g, p),
        0 <= j < p.len(),
    ensures
        s.contains(p[j]),
    decreases j,
{
    if j == 0 {
        assert(p[0] == BasicBlock(0));
    } else {
        lemma_path_inside(g, s, p, j - 1);
        let i = choose|i: int| 0 <= i < s.len() && s[i] == p[j - 1];
        assert(p[j - 1].0 < g.len() && g[p[j - 1].0 as int].contains(p[j]));
        let row = g[p[j - 1].0 as int];
        let k = choose|k: int| 0 <= k < row.len() && #[trigger] row[k] == p[j];
        assert(s.contains(g[s[i].0 as int][k]));
    }
}

/// How many blocks are not visited yet.
pub open spec fn unvisited_count(vis: Seq<bool>) -> nat
    decreases vis.len(),
{
    if vis.len() == 0 {
        0
    } else {
        unvisited_count(vis.drop_last()) + if vis.last() { 0nat } else { 1nat }
    }
}

proof fn lemma_visit_one(vis: Seq<bool>, i: int)
    requires
        0 <= i < vis.len(),
        !vis[i],
    ensures
        unvisited_count(vis.update(i, true)) + 1 == unvisited_count(vis),
    decreases vis.len(),
{
    let w = vis.update(i, true);
    if i < vis.len() - 1 {
        assert(w.drop_last() =~= vis.drop_last().update(i, true));
        lemma_visit_one(vis.drop_last(), i);
    } else {
        assert(w.drop_last() =~= vis.drop_last());
    }
}

/// The number of edges.
pub open spec fn edge_count(g: Seq<Seq<BasicBlock>>) -> nat
    decreases g.len(),
{
    if g.len() == 0 {
        0
    } else {
        edge_count(g.drop_last()) + g.last().len()
    }
}

proof fn lemma_edge_count_bound(g: Seq<Seq<BasicBlock>>, u: int)
    requires
        0 <= u < g.len(),
    ensures
        g[u].len() <= edge_count(g),
    decreases g.len(),
{
    if u < g.len() - 1 {
        lemma_edge_count_bound(g.drop_last(), u);
        assert(g.drop_last()[u] == g[u]);
    }
}

/// The work left on the search stack: for each entry, the successors not
/// looked at yet, and its finishing.
pub open spec fn stack_work(g: Seq<Seq<BasicBlock>>, st: Seq<(BasicBlock, usize)>) -> int
    decreases st.len(),
{
    if st.len() == 0 {
        0
    } else {
        stack_work(g, st.drop_last()) + (g[st.last().0.0 as int].len() - st.last().1 + 1)
    }
}

pub open spec fn on_stack(st: Seq<(BasicBlock, usize)>, v: BasicBlock) -> bool {
    exists|j: int| 0 <= j < st.len() && (#[trigger] st[j]).0 == v
}

/// The invariant of the depth-first search.
pub open spec fn dfs_inv(
    g: Seq<Seq<BasicBlock>>,
    vis: Seq<bool>,
    post: Seq<BasicBlock>,
    st: Seq<(BasicBlock, usize)>,
) -> bool {
    let n = g.len();
    &&& vis.len() == n
    &&& graph_closed(g)
    &&& post.no_duplicates()
    &&& forall|i: int| 0 <= i < post.len() ==> (#[trigger] post[i]).0 < n
    &&& forall|j: int| 0 <= j < st.len() ==> (#[trigger] st[j]).0.0 < n && st[j].1 <= g[st[j].0.0 as int].len()
    &&& forall|j: int, m: int| 0 <= j < m < st.len() ==> (#[trigger] st[j]).0 != (#[trigger] st[m]).0
    &&& forall|v: int| 0 <= v < n ==> (#[trigger] vis[v] <==> (post.contains(BasicBlock(v as u32)) || on_stack(st, BasicBlock(v as u32))))
    &&& forall|j: int| 0 <= j < st.len() ==> !post.contains(#[trigger] st[j].0)
    &&& forall|i: int, k: int| 0 <= i < post.len() && 0 <= k < g[post[i].0 as int].len() ==> vis[(#[trigger] g[post[i].0 as int][k]).0 as int]
    &&& forall|j: int, k: int| 0 <= j < st.len() && 0 <= k < st[j].1 ==> vis[(#[trigger] g[st[j].0.0 as int][k]).0 as int]
    &&& forall|v: int| 0 <= v < n && #[trigger] vis[v] ==> reachable(g, BasicBlock(v as u32))
    &&& st.len() >= 1 ==> st[0].0.0 == 0 && !post.contains(BasicBlock(0))
    &&& st.len() == 0 ==> post.len() >= 1 && post.last().0 == 0
}

proof fn lemma_stack_work_push(g: Seq<Seq<BasicBlock>>, st: Seq<(BasicBlock, usize)>, e: (BasicBlock, usize))
    ensures
        stack_work(g, st.push(e)) == stack_work(g, st) + (g[e.0.0 as int].len() - e.1 + 1),
{
    assert(st.push(e).drop_last() =~= st);
}

proof fn lemma_stack_work_nonneg(g: Seq<Seq<BasicBlock>>, st: Seq<(BasicBlock, usize)>)
    requires
        forall|j: int| 0 <= j < st.len() ==> (#[trigger] st[j]).1 <= g[st[j].0.0 as int].len(),
    ensures
        stack_work(g, st) >= 0,
    decreases st.len(),
{
    if st.len() > 0 {
        assert forall|j: int| 0 <= j < st.drop_last().len() implies (#[trigger] st.drop_last()[j]).1 <= g[st.drop_last()[j].0.0 as int].len() by {
            assert(st.drop_last()[j] == st[j]);
        }
        lemma_stack_work_nonneg(g, st.drop_last());
        assert(st.last() == st[st.len() - 1]);
    }
}

proof fn lemma_dfs_visit(
    g: Seq<Seq<BasicBlock>>,
    vis0: Seq<bool>,
    post: Seq<BasicBlock>,
    st0: Seq<(BasicBlock, usize)>,
    bb: BasicBlock,
    next: usize,
    s: BasicBlock,
)
    requires
        dfs_inv(g, vis0, post, st0),
        g.len() <= u32::MAX,
        st0.len() >= 1,
        st0.last() == (bb, next),
        next < g[bb.0 as int].len(),
        next < usize::MAX,
        g[bb.0 as int][next as int] == s,
        !vis0[s.0 as int],
    ensures
        dfs_inv(
            g,
            vis0.update(s.0 as int, true),
            post,
            st0.drop_last().push((bb, (next + 1) as usize)).push((s, 0usize)),
        ),
        stack_work(g, st0.drop_last().push((bb, (next + 1) as usize)).push((s, 0usize))) == stack_work(g, st0) + g[s.0 as int].len(),
{
    let n = g.len();
    let vis = vis0.update(s.0 as int, true);
    let st1 = st0.drop_last();
    let st2 = st1.push((bb, (next + 1) as usize));
    let st = st2.push((s, 0usize));
    let top = st0.len() - 1;
    assert(st0[top] == (bb, next));
    assert(bb.0 < n);
    assert(s.0 < n);
    lemma_stack_work_push(g, st1, (bb, (next + 1) as usize));
    lemma_stack_work_push(g, st2, (s, 0usize));
    assert(st0 == st1.push((bb, next)));
    lemma_stack_work_push(g, st1, (bb, next));
    // s was neither finished nor on the stack.
    assert(!post.contains(s) && !on_stack(st0, s)) by {
        assert(s == BasicBlock(s.0 as u32));
    }
    assert forall|j: int| 0 <= j < st.len() implies (#[trigger] st[j]).0.0 < n && st[j].1 <= g[st[j].0.0 as int].len() by {
        if j < top {
            assert(st[j] == st0[j]);
        }
    }
    assert forall|j: int, m: int| 0 <= j < m < st.len() implies (#[trigger] st[j]).0 != (#[trigger] st[m]).0 by {
        if m < top {
            assert(st[j] == st0[j] && st[m] == st0[m]);
        } else if m == top {
            assert(st[m].0 == st0[top].0);
            assert(st[j] == st0[j]);
        } else {
            if j < top {
                assert(st[j] == st0[j]);
                assert(on_stack(st0, st0[j].0));
            } else {
                assert(st[j].0 == bb);
                assert(on_stack(st0, bb));
            }
        }
    }
    assert forall|v: int| 0 <= v < n implies (#[trigger] vis[v] <==> (post.contains(BasicBlock(v as u32)) || on_stack(st, BasicBlock(v as u32)))) by {
        let w = BasicBlock(v as u32);
        if on_stack(st0, w) {
            let j = choose|j: int| 0 <= j < st0.len() && (#[trigger] st0[j]).0 == w;
            if j < top {
                assert(st[j] == st0[j]);
            } else {
                assert(st[top].0 == bb);
            }
        }
        if on_stack(st, w) {
            let j = choose|j: int| 0 <= j < st.len() && (#[trigger] st[j]).0 == w;
            if j < top {
                assert(st[j] == st0[j]);
                assert(on_stack(st0, w));
            } else if j == top {
                assert(st0[top].0 == w);
                assert(on_stack(st0, w));
            } else {
                assert(w == s);
            }
        }
        if v == s.0 {
            assert(st[st.len() - 1].0 == s);
            assert(on_stack(st, w));
        }
    }
    assert forall|j: int| 0 <= j < st.len() implies !post.contains(#[trigger] st[j].0) by {
        if j < top {
            assert(st[j] == st0[j]);
        } else if j == top {
            assert(st[j].0 == st0[top].0);
        }
    }
    assert forall|i: int, k: int| 0 <= i < post.len() && 0 <= k < g[post[i].0 as int].len() implies vis[(#[trigger] g[post[i].0 as int][k]).0 as int] by {
        assert(vis0[g[post[i].0 as int][k].0 as int]);
    }
    assert forall|j: int, k: int| 0 <= j < st.len() && 0 <= k < st[j].1 implies vis[(#[trigger] g[st[j].0.0 as int][k]).0 as int] by {
        if j < top {
            assert(st[j] == st0[j]);
            assert(vis0[g[st0[j].0.0 as int][k].0 as int]);
        } else if j == top {
            if k < next {
                assert(vis0[g[st0[top].0.0 as int][k].0 as int]);
            }
        }
    }
    assert forall|v: int| 0 <= v < n && #[trigger] vis[v] implies reachable(g, BasicBlock(v as u32)) by {
        if v == s.0 {
            assert(vis0[bb.0 as int]) by {
                assert(st0[top].0 == BasicBlock(bb.0 as u32));
                assert(on_stack(st0, BasicBlock(bb.0 as u32)));
            }
            lemma_reach_step(g, bb, next as int);
            assert(BasicBlock(v as u32) == s);
        } else {
            assert(vis0[v]);
        }
    }
    assert(st[0].0.0 == 0) by {
        if top > 0 {
            assert(st[0] == st0[0]);
        } else {
            assert(st[0].0 == bb);
        }
    }
}

proof fn lemma_dfs_advance(
    g: Seq<Seq<BasicBlock>>,
    vis: Seq<bool>,
    post: Seq<BasicBlock>,
    st0: Seq<(BasicBlock, usize)>,
    bb: BasicBlock,
    next: usize,
    s: BasicBlock,
)
    requires
        dfs_inv(g, vis, post, st0),
        g.len() <= u32::MAX,
        st0.len() >= 1,
        st0.last() == (bb, next),
        next < g[bb.0 as int].len(),
        next < usize::MAX,
        g[bb.0 as int][next as int] == s,
        vis[s.0 as int],
    ensures
        dfs_inv(g, vis, post, st0.drop_last().push((bb, (next + 1) as usize))),
        stack_work(g, st0.drop_last().push((bb, (next + 1) as usize))) == stack_work(g, st0) - 1,
{
    let n = g.len();
    let st1 = st0.drop_last();
    let st = st1.push((bb, (next + 1) as usize));
    let top = st0.len() - 1;
    assert(st0[top] == (bb, next));
    assert(st0 == st1.push((bb, next)));
    lemma_stack_work_push(g, st1, (bb, (next + 1) as usize));
    lemma_stack_work_push(g, st1, (bb, next));
    assert forall|j: int| 0 <= j < st.len() implies #[trigger] st[j].0 == st0[j].0 by {}
    assert forall|j: int| 0 <= j < st.len() implies (#[trigger] st[j]).0.0 < n && st[j].1 <= g[st[j].0.0 as int].len() by {
        if j < top {
            assert(st[j] == st0[j]);
        }
    }
    assert forall|j: int, m: int| 0 <= j < m < st.len() implies (#[trigger] st[j]).0 != (#[trigger] st[m]).0 by {
        assert(st[j].0 == st0[j].0 && st[m].0 == st0[m].0);
    }
    assert forall|w: BasicBlock| on_stack(st, w) <==> on_stack(st0, w) by {
        if on_stack(st, w) {
            let j = choose|j: int| 0 <= j < st.len() && (#[trigger] st[j]).0 == w;
            assert(st0[j].0 == w);
        }
        if on_stack(st0, w) {
            let j = choose|j: int| 0 <= j < st0.len() && (#[trigger] st0[j]).0 == w;
            assert(st[j].0 == w);
        }
    }
    assert forall|v: int| 0 <= v < n implies (#[trigger] vis[v] <==> (post.contains(BasicBlock(v as u32)) || on_stack(st, BasicBlock(v as u32)))) by {
        assert(on_stack(st, BasicBlock(v as u32)) <==> on_stack(st0, BasicBlock(v as u32)));
    }
    assert forall|j: int| 0 <= j < st.len() implies !post.contains(#[trigger] st[j].0) by {
        assert(st[j].0 == st0[j].0);
    }
    assert forall|j: int, k: int| 0 <= j < st.len() && 0 <= k < st[j].1 implies vis[(#[trigger] g[st[j].0.0 as int][k]).0 as int] by {
        if j < top {
            assert(st[j] == st0[j]);
        } else if k < next {
            assert(vis[g[st0[top].0.0 as int][k].0 as int]);
        }
    }
    assert(st[0].0 == st0[0].0);
}

proof fn lemma_dfs_finish(
    g: Seq<Seq<BasicBlock>>,
    vis: Seq<bool>,
    post0: Seq<BasicBlock>,
    st0: Seq<(BasicBlock, usize)>,
    bb: BasicBlock,
    next: usize,
)
    requires
        dfs_inv(g, vis, post0, st0),
        g.len() <= u32::MAX,
        st0.len() >= 1,
        st0.last() == (bb, next),
        next >= g[bb.0 as int].len(),
    ensures
        dfs_inv(g, vis, post0.push(bb), st0.drop_last()),
        stack_work(g, st0.drop_last()) == stack_work(g, st0) - 1,
{
    let n = g.len();
    let st = st0.drop_last();
    let post = post0.push(bb);
    let top = st0.len() - 1;
    assert(st0[top] == (bb, next));
    assert(next == g[bb.0 as int].len());
    assert(st0 == st.push((bb, next)));
    lemma_stack_work_push(g, st, (bb, next));
    assert(!post0.contains(bb));
    assert forall|j: int| 0 <= j < st.len() implies #[trigger] st[j] == st0[j] by {}
    assert(post.no_duplicates()) by {
        assert forall|a: int, b: int| 0 <= a < b < post.len() implies post[a] != post[b] by {
            if b == post.len() - 1 {
                assert(post[b] == bb);
                assert(post0.contains(post[a]));
            } else {
                assert(post[a] == post0[a] && post[b] == post0[b]);
            }
        }
    }
    assert forall|i: int| 0 <= i < post.len() implies (#[trigger] post[i]).0 < n by {
        if i < post0.len() {
            assert(post[i] == post0[i]);
        }
    }
    assert forall|j: int, m: int| 0 <= j < m < st.len() implies (#[trigger] st[j]).0 != (#[trigger] st[m]).0 by {
        assert(st[j] == st0[j] && st[m] == st0[m]);
    }
    assert forall|v: int| 0 <= v < n implies (#[trigger] vis[v] <==> (post.contains(BasicBlock(v as u32)) || on_stack(st, BasicBlock(v as u32)))) by {
        let w = BasicBlock(v as u32);
        if on_stack(st0, w) {
            let j = choose|j: int| 0 <= j < st0.len() && (#[trigger] st0[j]).0 == w;
            if j < top {
                assert(st[j] == st0[j]);
                assert(on_stack(st, w));
            } else {
                assert(w == bb);
                assert(post[post.len() - 1] == bb);
            }
        }
        if on_stack(st, w) {
            let j = choose|j: int| 0 <= j < st.len() && (#[trigger] st[j]).0 == w;
            assert(st0[j].0 == w);
            assert(on_stack(st0, w));
        }
        if post.contains(w) {
            let i = choose|i: int| 0 <= i < post.len() && post[i] == w;
            if i < post0.len() {
                assert(post0[i] == w);
                assert(post0.contains(w));
            } else {
                assert(w == bb);
                assert(on_stack(st0, bb)) by {
                    assert(st0[top].0 == bb);
                }
            }
        }
        if post0.contains(w) {
            let i = choose|i: int| 0 <= i < post0.len() && post0[i] == w;
            assert(post[i] == w);
        }
    }
    assert forall|j: int| 0 <= j < st.len() implies !post.contains(#[trigger] st[j].0) by {
        assert(st[j] == st0[j]);
        assert(st0[j].0 != st0[top].0);
        if post.contains(st[j].0) {
            let i = choose|i: int| 0 <= i < post.len() && post[i] == st[j].0;
            if i < post0.len() {
                assert(post0[i] == st[j].0);
            }
        }
    }
    assert forall|i: int, k: int| 0 <= i < post.len() && 0 <= k < g[post[i].0 as int].len() implies vis[(#[trigger] g[post[i].0 as int][k]).0 as int] by {
        if i < post0.len() {
            assert(post[i] == post0[i]);
        } else {
            assert(post[i] == bb);
            assert(vis[g[st0[top].0.0 as int][k].0 as int]);
        }
    }
    assert forall|j: int, k: int| 0 <= j < st.len() && 0 <= k < st[j].1 implies vis[(#[trigger] g[st[j].0.0 as int][k]).0 as int] by {
        assert(st[j] == st0[j]);
    }
    if st.len() >= 1 {
        assert(st[0] == st0[0]);
        assert(bb != BasicBlock(0)) by {
            assert(st0[0].0 != st0[top].0);
        }
        if post.contains(BasicBlock(0)) {
            let i = choose|i: int| 0 <= i < post.len() && post[i] == BasicBlock(0);
            if i < post0.len() {
                assert(post0[i] == BasicBlock(0));
            }
        }
    } else {
        assert(bb.0 == 0);
    }
}

/// The tree of the search: each block reached other than the entry has
/// the block it was first reached from (`par`) and the place of that edge
/// (`pk`); the stack is a path of that tree, and a finished block's parent
/// is still on the stack or finished after it.
pub open spec fn dfs_tree(
    g: Seq<Seq<BasicBlock>>,
    vis: Seq<bool>,
    post: Seq<BasicBlock>,
    st: Seq<(BasicBlock, usize)>,
    par: Seq<BasicBlock>,
    pk: Seq<int>,
) -> bool {
    &&& par.len() == g.len()
    &&& pk.len() == g.len()
    &&& forall|v: int| 0 < v < g.len() && #[trigger] vis[v] ==> par[v].0 < g.len() && 0 <= pk[v] < g[par[v].0 as int].len()
        && g[par[v].0 as int][pk[v]] == BasicBlock(v as u32)
    &&& forall|j: int| 1 <= j < st.len() ==> #[trigger] par[st[j].0.0 as int] == st[j - 1].0
    &&& forall|i: int| 0 <= i < post.len() && (#[trigger] post[i]).0 != 0 ==> on_stack(st, par[post[i].0 as int])
        || exists|i2: int| i < i2 < post.len() && post[i2] == par[post[i].0 as int]
}

proof fn lemma_tree_visit(
    g: Seq<Seq<BasicBlock>>,
    vis0: Seq<bool>,
    post: Seq<BasicBlock>,
    st0: Seq<(BasicBlock, usize)>,
    par: Seq<BasicBlock>,
    pk: Seq<int>,
    bb: BasicBlock,
    next: usize,
    s: BasicBlock,
)
    requires
        dfs_inv(g, vis0, post, st0),
        dfs_tree(g, vis0, post, st0, par, pk),
        st0.len() >= 1,
        st0.last() == (bb, next),
        next < g[bb.0 as int].len(),
        next < usize::MAX,
        g[bb.0 as int][next as int] == s,
        !vis0[s.0 as int],
    ensures
        dfs_tree(
            g,
            vis0.update(s.0 as int, true),
            post,
            st0.drop_last().push((bb, (next + 1) as usize)).push((s, 0usize)),
            par.update(s.0 as int, bb),
            pk.update(s.0 as int, next as int),
        ),
{
    let n = g.len();
    let vis = vis0.update(s.0 as int, true);
    let st1 = st0.drop_last();
    let st = st1.push((bb, (next + 1) as usize)).push((s, 0usize));
    let par2 = par.update(s.0 as int, bb);
    let pk2 = pk.update(s.0 as int, next as int);
    let top = st0.len() - 1;
    assert(st0[top] == (bb, next));
    assert(bb.0 < n && s.0 < n);
    assert(vis0[0]) by {
        assert(st0[0].0 == BasicBlock(0u32));
        assert(on_stack(st0, BasicBlock(0u32)));
    }
    assert(!post.contains(s) && !on_stack(st0, s)) by {
        assert(s == BasicBlock(s.0 as u32));
    }
    assert forall|v: int| 0 < v < n && #[trigger] vis[v] implies par2[v].0 < n && 0 <= pk2[v] < g[par2[v].0 as int].len()
        && g[par2[v].0 as int][pk2[v]] == BasicBlock(v as u32) by {
        if v == s.0 {
            assert(BasicBlock(v as u32) == s);
        } else {
            assert(vis0[v]);
        }
    }
    assert forall|j: int| 1 <= j < st.len() implies #[trigger] par2[st[j].0.0 as int] == st[j - 1].0 by {
        if j == st.len() - 1 {
            assert(st[j].0 == s);
            assert(st[j - 1].0 == bb);
        } else {
            assert(st[j].0 == st0[j].0);
            assert(st[j - 1].0 == st0[j - 1].0);
            assert(st0[j].0 != s) by {
                assert(on_stack(st0, st0[j].0));
            }
        }
    }
    assert forall|i: int| 0 <= i < post.len() && (#[trigger] post[i]).0 != 0 implies on_stack(st, par2[post[i].0 as int])
        || exists|i2: int| i < i2 < post.len() && post[i2] == par2[post[i].0 as int] by {
        assert(post[i] != s) by {
            assert(post.contains(post[i]));
        }
        assert(post[i].0 != s.0);
        let p = par[post[i].0 as int];
        if on_stack(st0, p) {
            let j = choose|j: int| 0 <= j < st0.len() && (#[trigger] st0[j]).0 == p;
            assert(st[j].0 == st0[j].0);
            assert(on_stack(st, p));
        }
    }
}

proof fn lemma_tree_advance(
    g: Seq<Seq<BasicBlock>>,
    vis: Seq<bool>,
    post: Seq<BasicBlock>,
    st0: Seq<(BasicBlock, usize)>,
    par: Seq<BasicBlock>,
    pk: Seq<int>,
    bb: BasicBlock,
    next: usize,
)
    requires
        dfs_tree(g, vis, post, st0, par, pk),
        st0.len() >= 1,
        st0.last() == (bb, next),
        next < usize::MAX,
    ensures
        dfs_tree(g, vis, post, st0.drop_last().push((bb, (next + 1) as usize)), par, pk),
{
    let st = st0.drop_last().push((bb, (next + 1) as usize));
    let top = st0.len() - 1;
    assert(st0[top] == (bb, next));
    assert forall|j: int| 0 <= j < st.len() implies #[trigger] st[j].0 == st0[j].0 by {}
    assert forall|j: int| 1 <= j < st.len() implies #[trigger] par[st[j].0.0 as int] == st[j - 1].0 by {
        assert(st[j].0 == st0[j].0 && st[j - 1].0 == st0[j - 1].0);
    }
    assert forall|i: int| 0 <= i < post.len() && (#[trigger] post[i]).0 != 0 implies on_stack(st, par[post[i].0 as int])
        || exists|i2: int| i < i2 < post.len() && post[i2] == par[post[i].0 as int] by {
        let p = par[post[i].0 as int];
        if on_stack(st0, p) {
            let j = choose|j: int| 0 <= j < st0.len() && (#[trigger] st0[j]).0 == p;
            assert(st[j].0 == p);
        }
    }
}

proof fn lemma_tree_finish(
    g: Seq<Seq<BasicBlock>>,
    vis: Seq<bool>,
    post0: Seq<BasicBlock>,
    st0: Seq<(BasicBlock, usize)>,
    par: Seq<BasicBlock>,
    pk: Seq<int>,
    bb: BasicBlock,
    next: usize,
)
    requires
        dfs_inv(g, vis, post0, st0),
        dfs_tree(g, vis, post0, st0, par, pk),
        st0.len() >= 1,
        st0.last() == (bb, next),
    ensures
        dfs_tree(g, vis, post0.push(bb), st0.drop_last(), par, pk),
{
    let st = st0.drop_last();
    let post = post0.push(bb);
    let top = st0.len() - 1;
    assert(st0[top] == (bb, next));
    assert forall|j: int| 0 <= j < st.len() implies #[trigger] st[j] == st0[j] by {}
    assert forall|j: int| 1 <= j < st.len() implies #[trigger] par[st[j].0.0 as int] == st[j - 1].0 by {
        assert(st[j] == st0[j] && st[j - 1] == st0[j - 1]);
    }
    assert forall|i: int| 0 <= i < post.len() && (#[trigger] post[i]).0 != 0 implies on_stack(st, par[post[i].0 as int])
        || exists|i2: int| i < i2 < post.len() && post[i2] == par[post[i].0 as int] by {
        if i < post0.len() {
            assert(post[i] == post0[i]);
            let p = par[post0[i].0 as int];
            if on_stack(st0, p) {
                let j = choose|j: int| 0 <= j < st0.len() && (#[trigger] st0[j]).0 == p;
                if j < top {
                    assert(st[j].0 == p);
                    assert(on_stack(st, p));
                } else {
                    assert(post[post0.len() as int] == p);
                }
            } else {
                let i2 = choose|i2: int| i < i2 < post0.len() && post0[i2] == p;
                assert(post[i2] == p);
            }
        } else {
            assert(post[i] == bb);
            assert(top >= 1) by {
                if top == 0 {
                    assert(st0[0].0.0 == 0);
                }
            }
            assert(par[st0[top].0.0 as int] == st0[top - 1].0);
            assert(st[top - 1] == st0[top - 1]);
            assert(on_stack(st, st0[top - 1].0));
        }
    }
}

/// Distinct blocks below `n` are at most `n`.
proof fn lemma_distinct_blocks_bounded(s: Seq<BasicBlock>, n: int)
    requires
        s.no_duplicates(),
        n >= 0,
        forall|i: int| 0 <= i < s.len() ==> (#[trigger] s[i]).0 < n,
    ensures
        s.len() <= n,
{
    let ints = s.map_values(|b: BasicBlock| b.0 as int);
    assert(ints.no_duplicates()) by {
        assert forall|a: int, b: int| 0 <= a < b < ints.len() implies ints[a] != ints[b] by {
            assert(s[a] != s[b]);
        }
    }
    ints.unique_seq_to_set();
    vstd::set_lib::lemma_int_range(0, n);
    assert forall|x: int| ints.to_set().contains(x) implies vstd::set_lib::set_int_range(0, n).contains(x) by {
        let i = choose|i: int| 0 <= i < ints.len() && ints[i] == x;
        assert(s[i].0 < n);
    }
    vstd::set_lib::lemma_len_subset(ints.to_set(), vstd::set_lib::set_int_range(0, n));
}

/// Block `r[a]` has a predecessor placed before it in `r`.
pub open spec fn has_earlier_pred(g: Seq<Seq<BasicBlock>>, r: Seq<BasicBlock>, a: int) -> bool {
    exists|b: int, k: int| 0 <= b < a && 0 <= k < g[r[b].0 as int].len() && #[trigger] g[r[b].0 as int][k] == r[a]
}

/// Reverse postorder of a depth-first search from the entry: exactly the
/// reachable blocks, each once, the entry first, each other block after
/// one of its predecessors.
fn reverse_postorder(succs: &Vec<Vec<BasicBlock>>) -> (r: Vec<BasicBlock>)
    requires
        succs@.len() >= 1,
        succs@.len() <= u32::MAX,
        graph_closed(graph_of(succs@)),
    ensures
        r@.no_duplicates(),
        r@.len() >= 1,
        r@.len() <= succs@.len(),
        r@[0].0 == 0,
        forall|i: int| 0 <= i < r@.len() ==> (#[trigger] r@[i]).0 < succs@.len(),
        forall|v: BasicBlock| #[trigger] r@.contains(v) <==> reachable(graph_of(succs@), v),
        forall|a: int| 1 <= a < r@.len() ==> #[trigger] has_earlier_pred(graph_of(succs@), r@, a),
{
    let ghost g = graph_of(succs@);
    let ghost mut par: Seq<BasicBlock> = Seq::new(succs@.len() as nat, |v: int| BasicBlock(0u32));
    let ghost mut pk: Seq<int> = Seq::new(succs@.len() as nat, |v: int| 0int);
    let n = succs.len();
    let mut visited: Vec<bool> = Vec::new();
    while visited.len() < n
        invariant
            visited@.len() <= n,
            forall|k: int| 0 <= k < visited@.len() ==> !visited@[k],
        decreases n - visited@.len(),
    {
        visited.push(false);
    }
    let mut post: Vec<BasicBlock> = Vec::new();
    let mut stack: Vec<(BasicBlock, usize)> = Vec::new();
    stack.push((BasicBlock::start(), 0));
    visited.set(0, true);
    proof {
        lemma_entry_reachable(g);
        assert forall|v: int| 0 <= v < n implies (#[trigger] visited@[v] <==> (post@.contains(BasicBlock(v as u32))
            || on_stack(stack@, BasicBlock(v as u32)))) by {
            if v == 0 {
                assert(stack@[0].0 == BasicBlock(0));
            }
        }
        assert(dfs_inv(g, visited@, post@, stack@));
        assert forall|v: int| 0 < v < n && #[trigger] visited@[v] implies false by {}
        assert(dfs_tree(g, visited@, post@, stack@, par, pk));
    }
    while stack.len() > 0
        invariant
            g == graph_of(succs@),
            n == succs@.len(),
            n <= u32::MAX,
            dfs_inv(g, visited@, post@, stack@),
            dfs_tree(g, visited@, post@, stack@, par, pk),
        decreases unvisited_count(visited@) * (edge_count(g) + 2) + stack_work(g, stack@),
    {
        let ghost st0 = stack@;
        let ghost vis0 = visited@;
        let ghost m0 = unvisited_count(vis0) * (edge_count(g) + 2) + stack_work(g, st0);
        let top = stack.pop();
        let (bb, next) = match top {
            Some(e) => e,
            None => (BasicBlock::start(), 0),
        };
        let ghost st1 = stack@;
        assert(st1 == st0.drop_last());
        assert((bb, next) == st0.last());
        let len = succs[bb.index()].len();
        assert(g[bb.0 as int] == succs@[bb.0 as int]@);
        if next < len {
            stack.push((bb, next + 1));
            let s = succs[bb.index()][next];
            proof {
                assert(g[bb.0 as int][next as int] == s);
                assert(s.0 < n);
            }
            if !visited[s.index()] {
                let ghost vis1 = visited@;
                visited.set(s.index(), true);
                stack.push((s, 0));
                proof {
                    lemma_visit_one(vis1, s.0 as int);
                    lemma_edge_count_bound(g, s.0 as int);
                    assert(stack@.drop_last().drop_last() == st1);
                    assert(stack@.drop_last() == st1.push((bb, (next + 1) as usize)));
                    self::lemma_dfs_visit(g, vis0, post@, st0, bb, next, s);
                    lemma_tree_visit(g, vis0, post@, st0, par, pk, bb, next, s);
                    par = par.update(s.0 as int, bb);
                    pk = pk.update(s.0 as int, next as int);
                    assert(visited@ == vis0.update(s.0 as int, true));
                    assert(stack@ == st1.push((bb, (next + 1) as usize)).push((s, 0usize)));
                }
            } else {
                proof {
                    assert(stack@ == st1.push((bb, (next + 1) as usize)));
                    self::lemma_dfs_advance(g, vis0, post@, st0, bb, next, s);
                    lemma_tree_advance(g, vis0, post@, st0, par, pk, bb, next);
                }
            }
        } else {
            let ghost post0 = post@;
            post.push(bb);
            proof {
                self::lemma_dfs_finish(g, vis0, post0, st0, bb, next);
                lemma_tree_finish(g, vis0, post0, st0, par, pk, bb, next);
            }
        }
        proof {
            lemma_stack_work_nonneg(g, stack@);
            lemma_stack_work_nonneg(g, st0);
        }
        assert(unvisited_count(visited@) * (edge_count(g) + 2) + stack_work(g, stack@) < m0) by (nonlinear_arith)
            requires
                unvisited_count(visited@) * (edge_count(g) + 2) + stack_work(g, stack@) < m0 || (
                unvisited_count(visited@) + 1 == unvisited_count(vis0) && stack_work(g, stack@)
                    < stack_work(g, st0) + edge_count(g) + 2),
                m0 == unvisited_count(vis0) * (edge_count(g) + 2) + stack_work(g, st0),
        ;
    }
    proof {
        assert(post@.len() >= 1 && post@.last().0 == 0);
    }
    let mut out: Vec<BasicBlock> = Vec::new();
    let mut i: usize = post.len();
    while i > 0
        invariant
            i <= post@.len(),
            out@.len() == post@.len() - i,
            forall|k: int| 0 <= k < out@.len() ==> #[trigger] out@[k] == post@[post@.len() - 1 - k],
        decreases i,
    {
        i = i - 1;
        out.push(post[i]);
    }
    proof {
        let pv = post@;
        assert(out@.len() == pv.len());
        assert forall|a: int, b: int| 0 <= a < b < out@.len() implies out@[a] != out@[b] by {
            assert(out@[a] == pv[pv.len() - 1 - a] && out@[b] == pv[pv.len() - 1 - b]);
        }
        assert forall|v: BasicBlock| #[trigger] out@.contains(v) <==> pv.contains(v) by {
            if out@.contains(v) {
                let k = choose|k: int| 0 <= k < out@.len() && out@[k] == v;
                assert(pv[pv.len() - 1 - k] == v);
            }
            if pv.contains(v) {
                let k = choose|k: int| 0 <= k < pv.len() && pv[k] == v;
                assert(out@[pv.len() - 1 - k] == v);
            }
        }
        assert forall|v: BasicBlock| #[trigger] out@.contains(v) <==> reachable(g, v) by {
            if pv.contains(v) {
                let k = choose|k: int| 0 <= k < pv.len() && pv[k] == v;
                assert(visited@[v.0 as int]);
            }
            if reachable(g, v) {
                assert forall|a: int, k: int| 0 <= a < pv.len() && 0 <= k < g[pv[a].0 as int].len() implies pv.contains(
                    #[trigger] g[pv[a].0 as int][k],
                ) by {
                    let w = g[pv[a].0 as int][k];
                    assert(visited@[w.0 as int]);
                    assert(w == BasicBlock(w.0 as u32));
                }
                assert(pv.contains(pv[pv.len() - 1]));
                lemma_closed_holds_reachable(g, pv, v);
            }
        }
        assert(out@[0] == pv[pv.len() - 1]);
        lemma_distinct_blocks_bounded(out@, n as int);
        assert forall|a: int| 1 <= a < out@.len() implies #[trigger] has_earlier_pred(g, out@, a) by {
            let i = pv.len() - 1 - a;
            let v = pv[i];
            assert(out@[a] == v);
            assert(v.0 != 0) by {
                assert(out@[0].0 == 0);
                if v.0 == 0 {
                    assert(out@[0] == v);
                }
            }
            assert(!on_stack(stack@, par[v.0 as int]));
            let i2 = choose|i2: int| i < i2 < pv.len() && pv[i2] == par[v.0 as int];
            let b = pv.len() - 1 - i2;
            assert(out@[b] == pv[i2]);
            assert(visited@[v.0 as int]) by {
                assert(pv.contains(v));
                assert(v == BasicBlock(v.0 as u32));
            }
            assert(g[out@[b].0 as int][pk[v.0 as int]] == out@[a]);
        }
    }
    out
}


/// The successors of each block.
fn successor_lists(terms: &[TerminatorKind]) -> (r: Vec<Vec<BasicBlock>>)
    ensures
        r@.len() == terms@.len(),
        forall|i: int| 0 <= i < terms@.len() ==> (#[trigger] r@[i])@ == successors(terms@[i]),
{
    let mut out: Vec<Vec<BasicBlock>> = Vec::new();
    let mut i: usize = 0;
    while i < terms.len()
        invariant
            i <= terms@.len(),
            out@.len() == i,
            forall|k: int| 0 <= k < i ==> (#[trigger] out@[k])@ == successors(terms@[k]),
        decreases terms@.len() - i,
    {
        let row: Vec<BasicBlock> = match &terms[i] {
            TerminatorKind::Return => Vec::new(),
            TerminatorKind::Unreachable => Vec::new(),
            TerminatorKind::Goto { target } => vec![*target],
            TerminatorKind::Call { target } => vec![*target],
            TerminatorKind::SwitchInt { arms, otherwise } => {
                let mut v: Vec<BasicBlock> = Vec::new();
                let mut k: usize = 0;
                while k < arms.len()
                    invariant
                        k <= arms@.len(),
                        v@ == arms@.take(k as int).map_values(|a: (u128, BasicBlock)| a.1),
                    decreases arms@.len() - k,
                {
                    v.push(arms[k].1);
                    assert(arms@.take(k + 1).map_values(|a: (u128, BasicBlock)| a.1) =~= arms@.take(k as int).map_values(
                        |a: (u128, BasicBlock)| a.1,
                    ).push(arms@[k as int].1));
                    k = k + 1;
                }
                assert(arms@.take(arms@.len() as int) =~= arms@);
                v.push(*otherwise);
                v
            },
        };
        proof {
            match terms@[i as int] {
                TerminatorKind::Goto { target } => {
                    assert(row@ =~= seq![target]);
                },
                TerminatorKind::Call { target } => {
                    assert(row@ =~= seq![target]);
                },
                TerminatorKind::Return => {
                    assert(row@ =~= Seq::<BasicBlock>::empty());
                },
                TerminatorKind::Unreachable => {
                    assert(row@ =~= Seq::<BasicBlock>::empty());
                },
                _ => {},
            }
        }
        out.push(row);
        i = i + 1;
    }
    out
}

/// For each `k` where `row[k]` is `v`, one `u`.
pub open spec fn copies(row: Seq<BasicBlock>, v: BasicBlock, u: BasicBlock) -> Seq<BasicBlock>
    decreases row.len(),
{
    if row.len() == 0 {
        Seq::empty()
    } else {
        copies(row.drop_last(), v, u) + if row.last() == v {
            seq![u]
        } else {
            Seq::empty()
        }
    }
}

/// The predecessors of `v` among the first `m` blocks, by block, once per
/// edge.
pub open spec fn preds_upto(g: Seq<Seq<BasicBlock>>, v: BasicBlock, m: int) -> Seq<BasicBlock>
    decreases m,
{
    if m <= 0 {
        Seq::empty()
    } else {
        preds_upto(g, v, m - 1) + copies(g[m - 1], v, BasicBlock((m - 1) as u32))
    }
}

/// The predecessors of `v`, by block, once per edge.
pub open spec fn preds_of(g: Seq<Seq<BasicBlock>>, v: BasicBlock) -> Seq<BasicBlock> {
    preds_upto(g, v, g.len() as int)
}

proof fn lemma_copies_blocks(row: Seq<BasicBlock>, v: BasicBlock, u: BasicBlock)
    ensures
        forall|i: int| 0 <= i < copies(row, v, u).len() ==> #[trigger] copies(row, v, u)[i] == u,
    decreases row.len(),
{
    if row.len() > 0 {
        lemma_copies_blocks(row.drop_last(), v, u);
        let a = copies(row.drop_last(), v, u);
        assert forall|i: int| 0 <= i < copies(row, v, u).len() implies #[trigger] copies(row, v, u)[i] == u by {
            if i < a.len() {
                assert(copies(row, v, u)[i] == a[i]);
            }
        }
    }
}

proof fn lemma_preds_bounded(g: Seq<Seq<BasicBlock>>, v: BasicBlock, m: int)
    requires
        m <= g.len(),
        g.len() <= u32::MAX,
    ensures
        forall|i: int| 0 <= i < preds_upto(g, v, m).len() ==> (#[trigger] preds_upto(g, v, m)[i]).0 < g.len(),
    decreases m,
{
    if m > 0 {
        lemma_preds_bounded(g, v, m - 1);
        lemma_copies_blocks(g[m - 1], v, BasicBlock((m - 1) as u32));
        let a = preds_upto(g, v, m - 1);
        assert forall|i: int| 0 <= i < preds_upto(g, v, m).len() implies (#[trigger] preds_upto(g, v, m)[i]).0 < g.len() by {
            if i < a.len() {
                assert(preds_upto(g, v, m)[i] == a[i]);
            } else {
                assert(preds_upto(g, v, m)[i] == copies(g[m - 1], v, BasicBlock((m - 1) as u32))[i - a.len()]);
            }
        }
    }
}

proof fn lemma_copies_hold(row: Seq<BasicBlock>, v: BasicBlock, u: BasicBlock, k: int)
    requires
        0 <= k < row.len(),
        row[k] == v,
    ensures
        copies(row, v, u).contains(u),
    decreases row.len(),
{
    if k < row.len() - 1 {
        lemma_copies_hold(row.drop_last(), v, u, k);
        let a = copies(row.drop_last(), v, u);
        let i = choose|i: int| 0 <= i < a.len() && a[i] == u;
        assert(copies(row, v, u)[i] == u);
    } else {
        let a = copies(row.drop_last(), v, u);
        assert(copies(row, v, u)[a.len() as int] == u);
    }
}

/// An edge `p -> v` puts `p` among the predecessors of `v`.
proof fn lemma_pred_listed(g: Seq<Seq<BasicBlock>>, v: BasicBlock, p: int, k: int)
    requires
        0 <= p < g.len(),
        0 <= k < g[p].len(),
        g[p][k] == v,
    ensures
        preds_of(g, v).contains(BasicBlock(p as u32)),
{
    lemma_preds_upto_hold(g, v, p, k, g.len() as int);
}

proof fn lemma_preds_upto_hold(g: Seq<Seq<BasicBlock>>, v: BasicBlock, p: int, k: int, m: int)
    requires
        0 <= p < m <= g.len(),
        0 <= k < g[p].len(),
        g[p][k] == v,
    ensures
        preds_upto(g, v, m).contains(BasicBlock(p as u32)),
    decreases m,
{
    let a = preds_upto(g, v, m - 1);
    let c = copies(g[m - 1], v, BasicBlock((m - 1) as u32));
    if p == m - 1 {
        lemma_copies_hold(g[p], v, BasicBlock(p as u32), k);
        let i = choose|i: int| 0 <= i < c.len() && c[i] == BasicBlock(p as u32);
        assert((a + c)[a.len() + i] == c[i]);
    } else {
        lemma_preds_upto_hold(g, v, p, k, m - 1);
        let i = choose|i: int| 0 <= i < a.len() && a[i] == BasicBlock(p as u32);
        assert((a + c)[i] == a[i]);
    }
}

/// The predecessors of each block.
fn predecessor_lists(succs: &Vec<Vec<BasicBlock>>) -> (r: Vec<Vec<BasicBlock>>)
    requires
        succs@.len() <= u32::MAX,
    ensures
        r@.len() == succs@.len(),
        forall|v: int| 0 <= v < succs@.len() ==> (#[trigger] r@[v])@ == preds_of(graph_of(succs@), BasicBlock(v as u32)),
{
    let ghost g = graph_of(succs@);
    let n = succs.len();
    let mut out: Vec<Vec<BasicBlock>> = Vec::new();
    let mut v: usize = 0;
    while v < n
        invariant
            v <= n,
            n == succs@.len(),
            n <= u32::MAX,
            g == graph_of(succs@),
            out@.len() == v,
            forall|w: int| 0 <= w < v ==> (#[trigger] out@[w])@ == preds_of(g, BasicBlock(w as u32)),
        decreases n - v,
    {
        let target = BasicBlock::new(v as u32);
        let mut row: Vec<BasicBlock> = Vec::new();
        let mut u: usize = 0;
        while u < n
            invariant
                u <= n,
                n == succs@.len(),
                n <= u32::MAX,
                g == graph_of(succs@),
                target.0 == v,
                row@ == preds_upto(g, target, u as int),
            decreases n - u,
        {
            let succ_row = &succs[u];
            assert(g[u as int] == succ_row@);
            let mut k: usize = 0;
            let ghost base = row@;
            assert(succ_row@.take(0) =~= Seq::<BasicBlock>::empty());
            while k < succ_row.len()
                invariant
                    k <= succ_row@.len(),
                    u < n,
                    n <= u32::MAX,
                    row@ == base + copies(succ_row@.take(k as int), target, BasicBlock(u as u32)),
                decreases succ_row@.len() - k,
            {
                proof {
                    let t = succ_row@.take(k + 1);
                    assert(t.drop_last() =~= succ_row@.take(k as int));
                    assert(t.last() == succ_row@[k as int]);
                }
                if succ_row[k] == target {
                    row.push(BasicBlock::new(u as u32));
                    assert(row@ =~= base + copies(succ_row@.take(k + 1), target, BasicBlock(u as u32)));
                } else {
                    assert(row@ =~= base + copies(succ_row@.take(k + 1), target, BasicBlock(u as u32)));
                }
                k = k + 1;
            }
            assert(succ_row@.take(succ_row@.len() as int) =~= succ_row@);
            u = u + 1;
        }
        out.push(row);
        v = v + 1;
    }
    out
}


/// `idx[v]` is the position of `v` in `rpo`, or `usize::MAX` when `v` is
/// not in it.
pub open spec fn rpo_index_of(rpo: Seq<BasicBlock>, idx: Seq<usize>, n: int) -> bool {
    &&& idx.len() == n
    &&& forall|v: int| 0 <= v < n ==> #[trigger] idx[v] == usize::MAX && !rpo.contains(BasicBlock(v as u32)) || (
    idx[v] < rpo.len() && rpo[idx[v] as int] == BasicBlock(v as u32))
}

/// Positions in the reverse postorder.
fn rpo_positions(rpo: &Vec<BasicBlock>, n: usize) -> (r: Vec<usize>)
    requires
        rpo@.no_duplicates(),
        rpo@.len() <= n,
        n <= u32::MAX,
        forall|i: int| 0 <= i < rpo@.len() ==> (#[trigger] rpo@[i]).0 < n,
    ensures
        rpo_index_of(rpo@, r@, n as int),
{
    let mut idx: Vec<usize> = Vec::new();
    while idx.len() < n
        invariant
            idx@.len() <= n,
            forall|k: int| 0 <= k < idx@.len() ==> idx@[k] == usize::MAX,
        decreases n - idx@.len(),
    {
        idx.push(usize::MAX);
    }
    let mut i: usize = 0;
    while i < rpo.len()
        invariant
            i <= rpo@.len(),
            rpo@.len() <= n,
            n <= u32::MAX,
            rpo@.no_duplicates(),
            forall|k: int| 0 <= k < rpo@.len() ==> (#[trigger] rpo@[k]).0 < n,
            idx@.len() == n,
            forall|v: int| 0 <= v < n ==> #[trigger] idx@[v] == usize::MAX && !rpo@.take(i as int).contains(BasicBlock(v as u32)) || (
            idx@[v] < i && rpo@[idx@[v] as int] == BasicBlock(v as u32)),
        decreases rpo@.len() - i,
    {
        let ghost before = idx@;
        let b = rpo[i];
        idx.set(b.index(), i);
        assert forall|v: int| 0 <= v < n implies #[trigger] idx@[v] == usize::MAX && !rpo@.take(i + 1).contains(BasicBlock(v as u32)) || (
        idx@[v] < i + 1 && rpo@[idx@[v] as int] == BasicBlock(v as u32)) by {
            if v == b.0 {
                assert(rpo@[i as int] == BasicBlock(v as u32));
            } else {
                assert(idx@[v] == before[v]);
                if before[v] == usize::MAX {
                    if rpo@.take(i + 1).contains(BasicBlock(v as u32)) {
                        let tk = rpo@.take(i + 1);
                        let k = choose|k: int| 0 <= k < i + 1 && #[trigger] tk[k] == BasicBlock(v as u32);
                        if k < i {
                            assert(rpo@.take(i as int)[k] == BasicBlock(v as u32));
                        } else {
                            assert(rpo@[i as int] == b);
                        }
                    }
                }
            }
        }
        i = i + 1;
    }
    proof {
        assert(rpo@.take(rpo@.len() as int) =~= rpo@);
    }
    idx
}

/// The dominator approximation during the iteration: the entry is its
/// own, and every other block's lies strictly earlier in the reverse
/// postorder.
pub open spec fn dom_inv(idom: Seq<Option<BasicBlock>>, idx: Seq<usize>, n: int) -> bool {
    &&& idom.len() == n
    &&& idx.len() == n
    &&& n >= 1
    &&& idom[0] == Some(BasicBlock(0))
    &&& idx[0] == 0
    &&& forall|v: int| 1 <= v < n && (#[trigger] idom[v]) is Some ==> {
        let p = idom[v]->0;
        &&& p.0 < n
        &&& idx[v] < n
        &&& idx[p.0 as int] < idx[v]
    }
}

/// Distinct blocks of the order have distinct positions.
pub open spec fn idx_injective(idx: Seq<usize>, n: int) -> bool {
    forall|u: int, v: int| 0 <= u < n && 0 <= v < n && idx[u] < n && #[trigger] idx[u] == #[trigger] idx[v] ==> u == v
}

/// Whether `c` is `v` or above it on the dominator chain of `v`, walking
/// only links that go up the reverse postorder.
pub open spec fn dom_anc(c: BasicBlock, v: BasicBlock, idom: Seq<Option<BasicBlock>>, idx: Seq<usize>) -> bool
    decreases idx[v.0 as int],
{
    if c == v {
        true
    } else if v.0 == 0 {
        false
    } else {
        match idom[v.0 as int] {
            Some(p) => if idx[p.0 as int] < idx[v.0 as int] {
                dom_anc(c, p, idom, idx)
            } else {
                false
            },
            None => false,
        }
    }
}

/// Whether the dominator chain of `v` is complete: it goes up the reverse
/// postorder to the entry.
pub open spec fn dom_rooted(v: BasicBlock, idom: Seq<Option<BasicBlock>>, idx: Seq<usize>) -> bool
    decreases idx[v.0 as int],
{
    if v.0 == 0 {
        true
    } else {
        match idom[v.0 as int] {
            Some(p) => idx[p.0 as int] < idx[v.0 as int] && dom_rooted(p, idom, idx),
            None => false,
        }
    }
}

proof fn lemma_dom_anc_le(c: BasicBlock, v: BasicBlock, idom: Seq<Option<BasicBlock>>, idx: Seq<usize>)
    requires
        dom_anc(c, v, idom, idx),
    ensures
        idx[c.0 as int] <= idx[v.0 as int],
    decreases idx[v.0 as int],
{
    if c != v {
        let p = idom[v.0 as int]->0;
        lemma_dom_anc_le(c, p, idom, idx);
    }
}

proof fn lemma_dom_anc_trans(a: BasicBlock, b: BasicBlock, v: BasicBlock, idom: Seq<Option<BasicBlock>>, idx: Seq<usize>)
    requires
        dom_anc(a, b, idom, idx),
        dom_anc(b, v, idom, idx),
    ensures
        dom_anc(a, v, idom, idx),
    decreases idx[v.0 as int],
{
    if b != v {
        let p = idom[v.0 as int]->0;
        lemma_dom_anc_trans(a, b, p, idom, idx);
    }
}

/// Whether `c` is on the dominator chains of both `a` and `b`.
pub open spec fn dom_common(c: BasicBlock, a: BasicBlock, b: BasicBlock, idom: Seq<Option<BasicBlock>>, idx: Seq<usize>) -> bool {
    dom_anc(c, a, idom, idx) && dom_anc(c, b, idom, idx)
}

/// Walks up from `a` and `b` to the first block on both dominator chains
/// (Cooper, Harvey and Kennedy).
fn intersect(a0: BasicBlock, b0: BasicBlock, idom: &Vec<Option<BasicBlock>>, idx: &Vec<usize>, Ghost(n): Ghost<int>) -> (r: BasicBlock)
    requires
        dom_inv(idom@, idx@, n),
        idx_injective(idx@, n),
        a0.0 < n,
        b0.0 < n,
        idx@[a0.0 as int] < n,
        idx@[b0.0 as int] < n,
    ensures
        r.0 < n,
        idx@[r.0 as int] < n,
        idx@[r.0 as int] <= idx@[a0.0 as int],
        idx@[r.0 as int] <= idx@[b0.0 as int],
        dom_rooted(a0, idom@, idx@) && dom_rooted(b0, idom@, idx@) ==> {
            &&& dom_anc(r, a0, idom@, idx@)
            &&& dom_anc(r, b0, idom@, idx@)
            &&& forall|c: BasicBlock| #[trigger] dom_common(c, a0, b0, idom@, idx@) ==> dom_anc(c, r, idom@, idx@)
        },
{
    let ghost rt = dom_rooted(a0, idom@, idx@) && dom_rooted(b0, idom@, idx@);
    let ghost dm = idom@;
    let ghost ix = idx@;
    let mut a = a0;
    let mut b = b0;
    while a != b
        invariant
            dom_inv(idom@, idx@, n),
            idx_injective(idx@, n),
            dm == idom@,
            ix == idx@,
            a.0 < n,
            b.0 < n,
            idx@[a.0 as int] < n,
            idx@[b.0 as int] < n,
            idx@[a.0 as int] <= idx@[a0.0 as int],
            idx@[b.0 as int] <= idx@[b0.0 as int],
            rt == (dom_rooted(a0, dm, ix) && dom_rooted(b0, dm, ix)),
            rt ==> dom_rooted(a, dm, ix) && dom_rooted(b, dm, ix),
            rt ==> dom_anc(a, a0, dm, ix) && dom_anc(b, b0, dm, ix),
            rt ==> forall|c: BasicBlock| dom_common(c, a0, b0, dm, ix) == #[trigger] dom_common(c, a, b, dm, ix),
        decreases idx@[a.0 as int] + idx@[b.0 as int],
    {
        let ghost ia0 = idx@[a.0 as int] as int;
        let ghost ib0 = idx@[b.0 as int] as int;
        assert(ia0 != ib0) by {
            if ia0 == ib0 {
                assert(a.0 == b.0);
            }
        }
        while idx[a.index()] > idx[b.index()]
            invariant
                dom_inv(idom@, idx@, n),
                dm == idom@,
                ix == idx@,
                idx@[a.0 as int] <= ia0,
                idx@[b.0 as int] == ib0,
                idx@[a.0 as int] <= idx@[a0.0 as int],
                idx@[b.0 as int] <= idx@[b0.0 as int],
                a.0 < n,
                b.0 < n,
                idx@[a.0 as int] < n,
                idx@[b.0 as int] < n,
                rt == (dom_rooted(a0, dm, ix) && dom_rooted(b0, dm, ix)),
                rt ==> dom_rooted(a, dm, ix) && dom_rooted(b, dm, ix),
                rt ==> dom_anc(a, a0, dm, ix) && dom_anc(b, b0, dm, ix),
                rt ==> forall|c: BasicBlock| dom_common(c, a0, b0, dm, ix) == #[trigger] dom_common(c, a, b, dm, ix),
            decreases idx@[a.0 as int],
        {
            proof {
                if a.0 == 0 {
                    assert(idx@[0] == 0);
                }
            }
            match idom[a.index()] {
                Some(next) => {
                    if next != a {
                        assert(a.0 != 0);
                        proof {
                            if rt {
                                assert(ix[next.0 as int] < ix[a.0 as int]);
                                assert(dom_anc(next, next, dm, ix));
                                assert(dom_anc(next, a, dm, ix));
                                lemma_dom_anc_trans(next, a, a0, dm, ix);
                                assert forall|c: BasicBlock| dom_common(c, a0, b0, dm, ix) == #[trigger] dom_common(c, next, b, dm, ix) by {
                                    assert(dom_common(c, a0, b0, dm, ix) == dom_common(c, a, b, dm, ix));
                                    if dom_anc(c, a, dm, ix) && dom_anc(c, b, dm, ix) {
                                        if c == a {
                                            lemma_dom_anc_le(c, b, dm, ix);
                                            assert(false);
                                        }
                                        assert(dom_anc(c, next, dm, ix));
                                    }
                                    if dom_anc(c, next, dm, ix) {
                                        lemma_dom_anc_trans(c, next, a, dm, ix);
                                    }
                                }
                            }
                        }
                        a = next;
                    } else {
                        return b;
                    }
                },
                None => {
                    return b;
                },
            }
        }
        while idx[b.index()] > idx[a.index()]
            invariant
                dom_inv(idom@, idx@, n),
                dm == idom@,
                ix == idx@,
                idx@[a.0 as int] <= ia0,
                idx@[a.0 as int] <= ib0,
                idx@[b.0 as int] <= ib0,
                idx@[a.0 as int] <= idx@[a0.0 as int],
                idx@[b.0 as int] <= idx@[b0.0 as int],
                a.0 < n,
                b.0 < n,
                idx@[a.0 as int] < n,
                idx@[b.0 as int] < n,
                rt == (dom_rooted(a0, dm, ix) && dom_rooted(b0, dm, ix)),
                rt ==> dom_rooted(a, dm, ix) && dom_rooted(b, dm, ix),
                rt ==> dom_anc(a, a0, dm, ix) && dom_anc(b, b0, dm, ix),
                rt ==> forall|c: BasicBlock| dom_common(c, a0, b0, dm, ix) == #[trigger] dom_common(c, a, b, dm, ix),
            decreases idx@[b.0 as int],
        {
            proof {
                if b.0 == 0 {
                    assert(idx@[0] == 0);
                }
            }
            match idom[b.index()] {
                Some(next) => {
                    if next != b {
                        assert(b.0 != 0);
                        proof {
                            if rt {
                                assert(ix[next.0 as int] < ix[b.0 as int]);
                                assert(dom_anc(next, next, dm, ix));
                                assert(dom_anc(next, b, dm, ix));
                                lemma_dom_anc_trans(next, b, b0, dm, ix);
                                assert forall|c: BasicBlock| dom_common(c, a0, b0, dm, ix) == #[trigger] dom_common(c, a, next, dm, ix) by {
                                    assert(dom_common(c, a0, b0, dm, ix) == dom_common(c, a, b, dm, ix));
                                    if dom_anc(c, b, dm, ix) && dom_anc(c, a, dm, ix) {
                                        if c == b {
                                            lemma_dom_anc_le(c, a, dm, ix);
                                            assert(false);
                                        }
                                        assert(dom_anc(c, next, dm, ix));
                                    }
                                    if dom_anc(c, next, dm, ix) {
                                        lemma_dom_anc_trans(c, next, b, dm, ix);
                                    }
                                }
                            }
                        }
                        b = next;
                    } else {
                        return a;
                    }
                },
                None => {
                    return a;
                },
            }
        }
    }
    proof {
        if rt {
            assert forall|c: BasicBlock| #[trigger] dom_common(c, a0, b0, dm, ix) implies dom_anc(c, a, dm, ix) by {
                assert(dom_common(c, a0, b0, dm, ix) == dom_common(c, a, b, dm, ix));
            }
        }
    }
    a
}


/// What the iteration has left to improve of one block's dominator: the
/// position of the current one, or `n` when there is none yet.
pub open spec fn dom_rank(idom: Seq<Option<BasicBlock>>, idx: Seq<usize>, n: int, v: int) -> int {
    match idom[v] {
        None => n,
        Some(p) => idx[p.0 as int] as int,
    }
}

pub open spec fn dom_potential(idom: Seq<Option<BasicBlock>>, idx: Seq<usize>, n: int, m: int) -> int
    decreases m,
{
    if m <= 0 {
        0
    } else {
        dom_potential(idom, idx, n, m - 1) + dom_rank(idom, idx, n, m - 1)
    }
}

proof fn lemma_potential_update(idom: Seq<Option<BasicBlock>>, idx: Seq<usize>, n: int, m: int, b: int, q: BasicBlock)
    requires
        0 <= b < idom.len(),
        m <= idom.len(),
        idx[q.0 as int] < dom_rank(idom, idx, n, b),
    ensures
        b < m ==> dom_potential(idom.update(b, Some(q)), idx, n, m) < dom_potential(idom, idx, n, m),
        b >= m ==> dom_potential(idom.update(b, Some(q)), idx, n, m) == dom_potential(idom, idx, n, m),
    decreases m,
{
    if m > 0 {
        lemma_potential_update(idom, idx, n, m - 1, b, q);
        let w = idom.update(b, Some(q));
        if m - 1 == b {
            assert(dom_rank(w, idx, n, b) == idx[q.0 as int] as int);
        } else {
            assert(w[m - 1] == idom[m - 1]);
            assert(dom_rank(w, idx, n, m - 1) == dom_rank(idom, idx, n, m - 1));
        }
    }
}

proof fn lemma_potential_nonneg(idom: Seq<Option<BasicBlock>>, idx: Seq<usize>, n: int, m: int)
    requires
        n >= 0,
    ensures
        dom_potential(idom, idx, n, m) >= 0,
    decreases m,
{
    if m > 0 {
        lemma_potential_nonneg(idom, idx, n, m - 1);
    }
}

/// The facts about the order that the dominator computation reads.
pub open spec fn order_facts(rpo: Seq<BasicBlock>, idx: Seq<usize>, preds: Seq<Vec<BasicBlock>>, n: int) -> bool {
    &&& n >= 1
    &&& n <= u32::MAX
    &&& preds.len() == n
    &&& rpo.no_duplicates()
    &&& rpo.len() >= 1
    &&& rpo.len() <= n
    &&& rpo[0] == BasicBlock(0)
    &&& forall|i: int| 0 <= i < rpo.len() ==> (#[trigger] rpo[i]).0 < n
    &&& rpo_index_of(rpo, idx, n)
    &&& forall|v: int, k: int| 0 <= v < n && 0 <= k < preds[v]@.len() ==> (#[trigger] preds[v]@[k]).0 < n
}

proof fn lemma_order_injective(rpo: Seq<BasicBlock>, idx: Seq<usize>, preds: Seq<Vec<BasicBlock>>, n: int)
    requires
        order_facts(rpo, idx, preds, n),
    ensures
        idx_injective(idx, n),
        idx[0] == 0,
        forall|v: int| 0 <= v < n && (#[trigger] idx[v]) != usize::MAX ==> idx[v] < rpo.len(),
        forall|i: int| 0 <= i < rpo.len() ==> #[trigger] idx[rpo[i].0 as int] == i,
{
    assert forall|u: int, v: int| 0 <= u < n && 0 <= v < n && idx[u] < n && #[trigger] idx[u] == #[trigger] idx[v] implies u == v by {
        assert(idx[u] != usize::MAX);
        assert(rpo[idx[u] as int] == BasicBlock(u as u32) && rpo[idx[v] as int] == BasicBlock(v as u32));
    }
    assert(rpo.contains(BasicBlock(0))) by {
        assert(rpo[0] == BasicBlock(0));
    }
    assert(idx[0] < rpo.len() && rpo[idx[0] as int] == BasicBlock(0));
    assert forall|i: int| 0 <= i < rpo.len() implies #[trigger] idx[rpo[i].0 as int] == i by {
        let v = rpo[i].0 as int;
        assert(rpo.contains(BasicBlock(v as u32))) by {
            assert(rpo[i] == BasicBlock(v as u32));
        }
        assert(rpo[idx[v] as int] == rpo[i]);
    }
}

/// The dominator tree, by iteration to a fixed point (Cooper, Harvey and
/// Kennedy). `r[v]` is the immediate dominator of `v`; the entry and the
/// unreachable blocks have none.
///
/// Block `rpo[a]` has a predecessor placed before it.
pub open spec fn pred_earlier(rpo: Seq<BasicBlock>, preds: Seq<Vec<BasicBlock>>, a: int) -> bool {
    exists|b: int, k: int| #![trigger preds[rpo[a].0 as int]@[k], rpo[b]] 0 <= b < a && 0 <= k < preds[rpo[a].0 as int]@.len()
        && preds[rpo[a].0 as int]@[k] == rpo[b]
}

/// A predecessor that the iteration takes into account: reached, with a
/// dominator already.
pub open spec fn qualifies(p: BasicBlock, idom: Seq<Option<BasicBlock>>, idx: Seq<usize>) -> bool {
    idx[p.0 as int] != usize::MAX && idom[p.0 as int] is Some
}

/// Every reached block other than the entry has a dominator.
pub open spec fn all_reached_have_idom(idom: Seq<Option<BasicBlock>>, idx: Seq<usize>, n: int) -> bool {
    forall|v: int| 1 <= v < n && idx[v] != usize::MAX ==> (#[trigger] idom[v]) is Some
}

/// A reached block with one reached predecessor is dominated by it.
pub open spec fn single_pred_idom(idom: Seq<Option<BasicBlock>>, idx: Seq<usize>, preds: Seq<Vec<BasicBlock>>, n: int) -> bool {
    forall|v: int, k: int| #![trigger idom[v], preds[v]@[k]] 1 <= v < n && idx[v] != usize::MAX
        && reached_count(preds[v]@, idx) == 1 && 0 <= k < preds[v]@.len() && idx[preds[v]@[k].0 as int] != usize::MAX
        && idom[v] is Some ==> idom[v] == Some(preds[v]@[k])
}

/// The iteration only ever moves a block's dominator to one earlier in the
/// reverse postorder, and never to one after the block itself; an update
/// that would not is not made. Each reached block other than the entry
/// gets one, and a block with one reached predecessor gets that one.
fn dominators(preds: &Vec<Vec<BasicBlock>>, rpo: &Vec<BasicBlock>, idx: &Vec<usize>) -> (r: Vec<Option<BasicBlock>>)
    requires
        order_facts(rpo@, idx@, preds@, preds@.len() as int),
        forall|a: int| 1 <= a < rpo@.len() ==> #[trigger] pred_earlier(rpo@, preds@, a),
    ensures
        all_reached_have_idom(r@, idx@, preds@.len() as int),
        single_pred_idom(r@, idx@, preds@, preds@.len() as int),
        r@.len() == preds@.len(),
        r@[0] is None,
        forall|v: int| 1 <= v < r@.len() && (#[trigger] r@[v]) is Some ==> {
            let p = r@[v]->0;
            &&& p.0 < r@.len()
            &&& idx@[v] < r@.len()
            &&& idx@[p.0 as int] < idx@[v]
        },
{
    let n = preds.len();
    let ghost ni = n as int;
    proof {
        lemma_order_injective(rpo@, idx@, preds@, ni);
    }
    let mut idom: Vec<Option<BasicBlock>> = Vec::new();
    while idom.len() < n
        invariant
            idom@.len() <= n,
            forall|k: int| 0 <= k < idom@.len() ==> idom@[k] is None,
        decreases n - idom@.len(),
    {
        idom.push(None);
    }
    idom.set(0, Some(BasicBlock::start()));
    let mut changed = true;
    let ghost mut swept = false;
    while changed
        invariant
            n == preds@.len(),
            ni == n,
            order_facts(rpo@, idx@, preds@, ni),
            idx_injective(idx@, ni),
            dom_inv(idom@, idx@, ni),
            forall|a: int| 1 <= a < rpo@.len() ==> #[trigger] pred_earlier(rpo@, preds@, a),
            changed || swept,
            swept ==> all_reached_have_idom(idom@, idx@, ni),
            single_pred_idom(idom@, idx@, preds@, ni),
        decreases dom_potential(idom@, idx@, ni, ni) + if changed { 1int } else { 0int },
    {
        changed = false;
        let ghost p0 = dom_potential(idom@, idx@, ni, ni);
        let mut j: usize = 1;
        while j < rpo.len()
            invariant
                n == preds@.len(),
                ni == n,
                1 <= j <= rpo@.len(),
                order_facts(rpo@, idx@, preds@, ni),
                idx_injective(idx@, ni),
                dom_inv(idom@, idx@, ni),
                dom_potential(idom@, idx@, ni, ni) <= p0,
                changed ==> dom_potential(idom@, idx@, ni, ni) < p0,
                forall|a: int| 1 <= a < rpo@.len() ==> #[trigger] pred_earlier(rpo@, preds@, a),
                forall|v: int| 1 <= v < ni && idx@[v] != usize::MAX && idx@[v] < j ==> (#[trigger] idom@[v]) is Some,
                single_pred_idom(idom@, idx@, preds@, ni),
            decreases rpo@.len() - j,
        {
            let bb = rpo[j];
            proof {
                assert(rpo@[j as int] != rpo@[0]);
                assert(idx@[bb.0 as int] == j) by {
                    lemma_order_injective(rpo@, idx@, preds@, ni);
                }
            }
            let plist = &preds[bb.index()];
            let mut new_idom: Option<BasicBlock> = None;
            let ghost mut first_k: int = 0;
            let mut k: usize = 0;
            while k < plist.len()
                invariant
                    k <= plist@.len(),
                    plist@ == preds@[bb.0 as int]@,
                    bb.0 < n,
                    n == preds@.len(),
                    ni == n,
                    order_facts(rpo@, idx@, preds@, ni),
                    idx_injective(idx@, ni),
                    dom_inv(idom@, idx@, ni),
                    new_idom matches Some(x) ==> x.0 < n && idx@[x.0 as int] < n,
                    forall|k0: int| 0 <= k0 < k && #[trigger] qualifies(plist@[k0], idom@, idx@) ==> new_idom is Some
                        && idx@[(new_idom->0).0 as int] <= idx@[plist@[k0].0 as int],
                    new_idom is Some ==> 0 <= first_k < k && qualifies(plist@[first_k], idom@, idx@)
                        && (reached_count(plist@, idx@) == 1 ==> new_idom == Some(plist@[first_k])),
                decreases plist@.len() - k,
            {
                let p = plist[k];
                assert(p.0 < n);
                if idx[p.index()] != usize::MAX && idom[p.index()].is_some() {
                    proof {
                        lemma_order_injective(rpo@, idx@, preds@, ni);
                        assert(qualifies(plist@[k as int], idom@, idx@));
                    }
                    let ghost prev = new_idom;
                    new_idom = match new_idom {
                        None => Some(p),
                        Some(cur) => Some(intersect(p, cur, &idom, idx, Ghost(ni))),
                    };
                    proof {
                        if prev is None {
                            first_k = k as int;
                        } else {
                            if reached_count(plist@, idx@) == 1 {
                                lemma_reached_count_two(plist@, idx@, first_k, k as int);
                            }
                        }
                    }
                }
                k = k + 1;
            }
            proof {
                if idom@[bb.0 as int] is None {
                    assert(pred_earlier(rpo@, preds@, j as int));
                    let (b, kk) = choose|b: int, kk: int| #![trigger preds@[rpo@[j as int].0 as int]@[kk], rpo@[b]] 0 <= b < j
                        && 0 <= kk < preds@[rpo@[j as int].0 as int]@.len() && preds@[rpo@[j as int].0 as int]@[kk] == rpo@[b];
                    let q = rpo@[b];
                    lemma_order_injective(rpo@, idx@, preds@, ni);
                    assert(idx@[q.0 as int] == b);
                    if q.0 != 0 {
                        assert(idom@[q.0 as int] is Some);
                    }
                    assert(qualifies(plist@[kk], idom@, idx@));
                    assert(new_idom is Some && idx@[(new_idom->0).0 as int] < j);
                }
            }
            let ghost before = idom@;
            if let Some(cand) = new_idom {
                let better = match idom[bb.index()] {
                    None => true,
                    Some(old) => idx[cand.index()] < idx[old.index()],
                };
                let same = match idom[bb.index()] {
                    None => false,
                    Some(old) => old == cand,
                };
                if !same && idx[cand.index()] < idx[bb.index()] && better {
                    proof {
                        lemma_potential_update(idom@, idx@, ni, ni, bb.0 as int, cand);
                    }
                    idom.set(bb.index(), Some(cand));
                    changed = true;
                    proof {
                        assert forall|v: int| 1 <= v < ni && (#[trigger] idom@[v]) is Some implies {
                            let p = idom@[v]->0;
                            &&& p.0 < ni
                            &&& idx@[v] < ni
                            &&& idx@[p.0 as int] < idx@[v]
                        } by {
                            if v == bb.0 {
                                assert(idx@[v] == j);
                            }
                        }
                        assert forall|v: int, kk: int| #![trigger idom@[v], preds@[v]@[kk]] 1 <= v < ni && idx@[v] != usize::MAX
                            && reached_count(preds@[v]@, idx@) == 1 && 0 <= kk < preds@[v]@.len()
                            && idx@[preds@[v]@[kk].0 as int] != usize::MAX && idom@[v] is Some
                            implies idom@[v] == Some(preds@[v]@[kk]) by {
                            if v == bb.0 {
                                if kk != first_k {
                                    if kk < first_k {
                                        lemma_reached_count_two(plist@, idx@, kk, first_k);
                                    } else {
                                        lemma_reached_count_two(plist@, idx@, first_k, kk);
                                    }
                                }
                            } else {
                                assert(before[v] == idom@[v]);
                            }
                        }
                    }
                }
            }
            proof {
                assert forall|v: int| 1 <= v < ni && idx@[v] != usize::MAX && idx@[v] < j + 1 implies (#[trigger] idom@[v]) is Some by {
                    if v != bb.0 {
                        assert(before[v] == idom@[v]);
                        if idx@[v] == j {
                            lemma_order_injective(rpo@, idx@, preds@, ni);
                            assert(rpo@[idx@[v] as int] == BasicBlock(v as u32));
                        }
                    }
                }
            }
            j = j + 1;
        }
        proof {
            lemma_potential_nonneg(idom@, idx@, ni, ni);
            assert forall|v: int| 1 <= v < ni && idx@[v] != usize::MAX implies (#[trigger] idom@[v]) is Some by {
                assert(idx@[v] < rpo@.len());
            }
            swept = true;
        }
    }
    idom.set(0, None);
    idom
}

/// Whether `a` is `b` or on the dominator chain above it, walking at most
/// `steps` links.
pub open spec fn on_chain(a: BasicBlock, cur: BasicBlock, idom: Seq<Option<BasicBlock>>, steps: nat) -> bool
    decreases steps,
{
    if steps == 0 {
        false
    } else {
        match idom[cur.0 as int] {
            None => false,
            Some(next) => if next == a {
                true
            } else if next == cur {
                false
            } else {
                on_chain(a, next, idom, (steps - 1) as nat)
            },
        }
    }
}

/// Whether `a` dominates `b`: `a` is `b` or one of its dominators (the
/// walk up gives up after more links than there are blocks).
pub open spec fn spec_dominates(a: BasicBlock, b: BasicBlock, idom: Seq<Option<BasicBlock>>) -> bool {
    a == b || on_chain(a, b, idom, (idom.len() + 1) as nat)
}

/// Whether every dominator named is a block.
pub open spec fn idom_closed(idom: Seq<Option<BasicBlock>>) -> bool {
    forall|v: int| 0 <= v < idom.len() && (#[trigger] idom[v]) is Some ==> (idom[v]->0).0 < idom.len()
}

fn dominates(a: BasicBlock, b: BasicBlock, idom: &Vec<Option<BasicBlock>>) -> (r: bool)
    requires
        idom_closed(idom@),
        b.0 < idom@.len(),
        idom@.len() < usize::MAX,
    ensures
        r == spec_dominates(a, b, idom@),
{
    if a == b {
        return true;
    }
    let mut cur = b;
    let mut guard: usize = 0;
    while guard <= idom.len()
        invariant
            idom_closed(idom@),
            cur.0 < idom@.len(),
            guard <= idom@.len() + 1,
            idom@.len() < usize::MAX,
            a != b,
            on_chain(a, b, idom@, (idom@.len() + 1) as nat) == on_chain(a, cur, idom@, (idom@.len() + 1 - guard) as nat),
        decreases idom@.len() + 1 - guard,
    {
        match idom[cur.index()] {
            None => {
                return false;
            },
            Some(next) => {
                if next == a {
                    return true;
                }
                if next == cur {
                    return false;
                }
                cur = next;
            },
        }
        guard = guard + 1;
    }
    false
}


#[derive(Debug)]
pub enum StructureError {
    /// The graph is not reducible: a loop is entered other than by its
    /// header. The syntax of biwa cannot make one, so this is a bug of the
    /// lowering or of a pass.
    Irreducible(BasicBlock),
    /// A branch has no enclosing construct to target. This cannot happen
    /// on a reducible graph, so it too is a bug of the compiler.
    NoEnclosingBlock(BasicBlock),
}

impl StructureError {
    pub fn message(&self) -> (r: String)
        ensures
            r@ == match self {
                StructureError::Irreducible(bb) => "control flow graph is irreducible at bb"@ + crate::decimal::decimal(
                    bb.0 as nat,
                ) + "; it cannot be structured"@,
                StructureError::NoEnclosingBlock(bb) => "compiler bug: no enclosing block for a branch to bb"@
                    + crate::decimal::decimal(bb.0 as nat),
            },
    {
        let mut s = String::new();
        match self {
            StructureError::Irreducible(bb) => {
                crate::text::push_str(&mut s, "control flow graph is irreducible at bb");
                crate::decimal::push_decimal(&mut s, bb.0 as usize);
                crate::text::push_str(&mut s, "; it cannot be structured");
            },
            StructureError::NoEnclosingBlock(bb) => {
                crate::text::push_str(&mut s, "compiler bug: no enclosing block for a branch to bb");
                crate::decimal::push_decimal(&mut s, bb.0 as usize);
            },
        }
        s
    }
}


/// The successors of each block of a body, as plain values.
pub open spec fn flow_graph(terms: Seq<TerminatorKind>) -> Seq<Seq<BasicBlock>> {
    terms.map_values(|t: TerminatorKind| successors(t))
}

/// What the structuring asks of a body: an entry, at most `u32::MAX`
/// blocks, successors that are blocks, and switches of two ways (a value
/// and `otherwise`): the lowering turns `if`, `while` and `match` alike
/// into chains of such comparisons.
pub open spec fn body_ok(terms: Seq<TerminatorKind>) -> bool {
    &&& terms.len() >= 1
    &&& terms.len() < u32::MAX
    &&& graph_closed(flow_graph(terms))
    &&& forall|i: int| 0 <= i < terms.len() ==> match #[trigger] terms[i] {
        TerminatorKind::SwitchInt { arms, .. } => arms@.len() == 1,
        _ => true,
    }
}

/// A block that was reached: it has a place in the reverse postorder.
pub open spec fn reached(bb: BasicBlock, idx: Seq<usize>) -> bool {
    bb.0 < idx.len() && idx[bb.0 as int] != usize::MAX
}

/// What the builder guarantees of a tree placed inside `d` constructs:
/// every `br` stays inside them, and every block in it was reached.
pub open spec fn well_built(t: Structured, d: int, idx: Seq<usize>) -> bool
    decreases t, 1nat,
{
    match t {
        Structured::Br(x) => x < d,
        Structured::Block(items) => well_built_in(items@, d + 1, idx),
        Structured::Loop(inner) => well_built(*inner, d + 1, idx),
        Structured::If { bb, then, els } => reached(bb, idx) && well_built_in(then@, d + 1, idx) && well_built_in(
            els@,
            d + 1,
            idx,
        ),
        Structured::Simple(bb) => reached(bb, idx),
        _ => true,
    }
}

pub open spec fn well_built_in(ts: Seq<Structured>, d: int, idx: Seq<usize>) -> bool
    decreases ts, 0nat,
{
    if ts.len() == 0 {
        true
    } else {
        well_built_in(ts.subrange(0, ts.len() - 1), d, idx) && well_built(ts[ts.len() - 1], d, idx)
    }
}

proof fn lemma_well_built_push(ts: Seq<Structured>, x: Structured, d: int, idx: Seq<usize>)
    requires
        well_built_in(ts, d, idx),
        well_built(x, d, idx),
    ensures
        well_built_in(ts.push(x), d, idx),
{
    let p = ts.push(x);
    assert(p.subrange(0, p.len() - 1) =~= ts);
}

proof fn lemma_well_built_concat(a: Seq<Structured>, b: Seq<Structured>, d: int, idx: Seq<usize>)
    requires
        well_built_in(a, d, idx),
        well_built_in(b, d, idx),
    ensures
        well_built_in(a + b, d, idx),
    decreases b.len(),
{
    if b.len() > 0 {
        let b0 = b.subrange(0, b.len() - 1);
        lemma_well_built_concat(a, b0, d, idx);
        assert((a + b).subrange(0, (a + b).len() - 1) =~= a + b0);
        assert((a + b)[(a + b).len() - 1] == b[b.len() - 1]);
    } else {
        assert(a + b =~= a);
    }
}

/// Every block the tree names is a block of the body, and every `if`
/// stands at a block that ends in a switch of two ways, with `then`
/// entering the block of the switch's value and `else` entering
/// `otherwise`.
pub open spec fn fits_body(t: Structured, terms: Seq<TerminatorKind>) -> bool
    decreases t, 1nat,
{
    match t {
        Structured::Block(items) => fits_body_in(items@, terms),
        Structured::Loop(inner) => fits_body(*inner, terms),
        Structured::Simple(bb) => bb.0 < terms.len(),
        Structured::If { bb, then, els } => bb.0 < terms.len() && (match terms[bb.0 as int] {
            TerminatorKind::SwitchInt { arms, otherwise } => arms@.len() == 1 && enters(then@, arms@[0].1)
                && enters(els@, otherwise),
            _ => false,
        }) && fits_body_in(then@, terms) && fits_body_in(els@, terms),
        _ => true,
    }
}

/// The block whose code a tree runs first, if it starts with one.
pub open spec fn first_block(t: Structured) -> Option<BasicBlock>
    decreases t,
{
    match t {
        Structured::Simple(bb) => Some(bb),
        Structured::If { bb, .. } => Some(bb),
        Structured::Loop(inner) => first_block(*inner),
        Structured::Block(items) => if items@.len() > 0 {
            first_block(items@[0])
        } else {
            None
        },
        _ => None,
    }
}

/// An arm of an `if` that goes to `target`: it either runs the code of
/// `target` first, or is a single `br` that leaves for it.
pub open spec fn enters(items: Seq<Structured>, target: BasicBlock) -> bool {
    items.len() > 0 && match items[0] {
        Structured::Br(_) => items.len() == 1,
        x => first_block(x) == Some(target),
    }
}

pub open spec fn fits_body_in(ts: Seq<Structured>, terms: Seq<TerminatorKind>) -> bool
    decreases ts, 0nat,
{
    if ts.len() == 0 {
        true
    } else {
        fits_body_in(ts.subrange(0, ts.len() - 1), terms) && fits_body(ts[ts.len() - 1], terms)
    }
}

proof fn lemma_fits_push(ts: Seq<Structured>, x: Structured, terms: Seq<TerminatorKind>)
    requires
        fits_body_in(ts, terms),
        fits_body(x, terms),
    ensures
        fits_body_in(ts.push(x), terms),
{
    let p = ts.push(x);
    assert(p.subrange(0, p.len() - 1) =~= ts);
}

proof fn lemma_fits_concat(a: Seq<Structured>, b: Seq<Structured>, terms: Seq<TerminatorKind>)
    requires
        fits_body_in(a, terms),
        fits_body_in(b, terms),
    ensures
        fits_body_in(a + b, terms),
    decreases b.len(),
{
    if b.len() > 0 {
        let b0 = b.subrange(0, b.len() - 1);
        lemma_fits_concat(a, b0, terms);
        assert((a + b).subrange(0, (a + b).len() - 1) =~= a + b0);
        assert((a + b)[(a + b).len() - 1] == b[b.len() - 1]);
    } else {
        assert(a + b =~= a);
    }
}

/// Each tree of a list that fits the body fits it.
pub proof fn lemma_fits_body_each(ts: Seq<Structured>, terms: Seq<TerminatorKind>, i: int)
    requires
        fits_body_in(ts, terms),
        0 <= i < ts.len(),
    ensures
        fits_body(ts[i], terms),
    decreases ts.len(),
{
    if i < ts.len() - 1 {
        let init = ts.subrange(0, ts.len() - 1);
        assert(init[i] == ts[i]);
        lemma_fits_body_each(init, terms, i);
    }
}

proof fn lemma_well_built_mono(t: Structured, d: int, e: int, idx: Seq<usize>)
    requires
        well_built(t, d, idx),
        d <= e,
    ensures
        well_built(t, e, idx),
    decreases t, 1nat,
{
    match t {
        Structured::Block(items) => {
            lemma_well_built_mono_in(items@, d + 1, e + 1, idx);
        },
        Structured::Loop(inner) => {
            lemma_well_built_mono(*inner, d + 1, e + 1, idx);
        },
        Structured::If { bb, then, els } => {
            lemma_well_built_mono_in(then@, d + 1, e + 1, idx);
            lemma_well_built_mono_in(els@, d + 1, e + 1, idx);
        },
        _ => {},
    }
}

proof fn lemma_well_built_mono_in(ts: Seq<Structured>, d: int, e: int, idx: Seq<usize>)
    requires
        well_built_in(ts, d, idx),
        d <= e,
    ensures
        well_built_in(ts, e, idx),
    decreases ts, 0nat,
{
    if ts.len() > 0 {
        lemma_well_built_mono_in(ts.subrange(0, ts.len() - 1), d, e, idx);
        lemma_well_built_mono(ts[ts.len() - 1], d, e, idx);
    }
}

/// A well-built tree has no `br` out of its constructs, and only blocks
/// that were reached.
proof fn lemma_well_built_sound(t: Structured, d: int, idx: Seq<usize>)
    requires
        well_built(t, d, idx),
    ensures
        first_bad_br(t, d) is None,
        forall|i: int| 0 <= i < blocks_of(t).len() ==> reached(#[trigger] blocks_of(t)[i], idx),
    decreases t, 1nat,
{
    match t {
        Structured::Block(items) => {
            lemma_well_built_sound_in(items@, d + 1, idx);
            assert(blocks_of(t) == blocks_of_all(items@));
            assert forall|i: int| 0 <= i < blocks_of(t).len() implies reached(#[trigger] blocks_of(t)[i], idx) by {
                assert(blocks_of(t)[i] == blocks_of_all(items@)[i]);
            }
        },
        Structured::If { bb, then, els } => {
            lemma_well_built_sound_in(then@, d + 1, idx);
            lemma_well_built_sound_in(els@, d + 1, idx);
            assert(blocks_of(t) == seq![bb] + blocks_of_all(then@) + blocks_of_all(els@));
            let a = blocks_of_all(then@);
            let b = blocks_of_all(els@);
            assert forall|i: int| 0 <= i < blocks_of(t).len() implies reached(#[trigger] blocks_of(t)[i], idx) by {
                if i == 0 {
                } else if i < 1 + a.len() {
                    assert(blocks_of(t)[i] == a[i - 1]);
                } else {
                    assert(blocks_of(t)[i] == b[i - 1 - a.len()]);
                }
            }
        },
        Structured::Simple(bb) => {
            assert(blocks_of(t) =~= seq![bb]);
            assert(blocks_of(t)[0] == bb);
        },
        Structured::Loop(inner) => {
            lemma_well_built_sound(*inner, d + 1, idx);
            assert(blocks_of(t) == blocks_of(*inner));
        },
        _ => {
            assert(blocks_of(t).len() == 0);
        },
    }
}

proof fn lemma_well_built_sound_in(ts: Seq<Structured>, d: int, idx: Seq<usize>)
    requires
        well_built_in(ts, d, idx),
    ensures
        first_bad_br_in(ts, d) is None,
        forall|i: int| 0 <= i < blocks_of_all(ts).len() ==> reached(#[trigger] blocks_of_all(ts)[i], idx),
    decreases ts, 0nat,
{
    if ts.len() > 0 {
        let h = ts.subrange(0, ts.len() - 1);
        lemma_well_built_sound_in(h, d, idx);
        lemma_well_built_sound(ts[ts.len() - 1], d, idx);
        let a = blocks_of_all(h);
        let b = blocks_of(ts[ts.len() - 1]);
        assert forall|i: int| 0 <= i < blocks_of_all(ts).len() implies reached(#[trigger] blocks_of_all(ts)[i], idx) by {
            if i < a.len() {
                assert(blocks_of_all(ts)[i] == a[i]);
            } else {
                assert(blocks_of_all(ts)[i] == b[i - a.len()]);
            }
        }
    }
}

/// What the structuring reads of the graph.
struct Cfg<'a> {
    terms: &'a [TerminatorKind],
    succs: Vec<Vec<BasicBlock>>,
    preds: Vec<Vec<BasicBlock>>,
    rpo: Vec<BasicBlock>,
    /// The position in the reverse postorder; `usize::MAX` for blocks
    /// that cannot be reached.
    rpo_index: Vec<usize>,
    /// The immediate dominator; none for the entry.
    idom: Vec<Option<BasicBlock>>,
    /// The children in the dominator tree, in reverse postorder.
    dom_children: Vec<Vec<BasicBlock>>,
    /// The blocks a back edge returns to: the loop headers.
    loop_headers: Vec<bool>,
}

impl<'a> Cfg<'a> {
    spec fn n(&self) -> int {
        self.terms@.len() as int
    }

    spec fn wf(&self) -> bool {
        let n = self.n();
        &&& body_ok(self.terms@)
        &&& graph_of(self.succs@) == flow_graph(self.terms@)
        &&& self.succs@.len() == n
        &&& order_facts(self.rpo@, self.rpo_index@, self.preds@, n)
        &&& self.idom@.len() == n
        &&& self.idom@[0] is None
        &&& forall|v: int| 1 <= v < n && (#[trigger] self.idom@[v]) is Some ==> {
            let p = self.idom@[v]->0;
            &&& p.0 < n
            &&& self.rpo_index@[v] < n
            &&& self.rpo_index@[p.0 as int] < self.rpo_index@[v]
        }
        &&& self.dom_children@.len() == n
        &&& forall|p: int, k: int| 0 <= p < n && 0 <= k < self.dom_children@[p]@.len() ==> {
            let c = #[trigger] self.dom_children@[p]@[k];
            &&& c.0 < n
            &&& 1 <= c.0
            &&& self.idom@[c.0 as int] == Some(BasicBlock(p as u32))
        }
        &&& forall|p: int, j: int, k: int| 0 <= p < n && 0 <= j < k < self.dom_children@[p]@.len() ==> self.rpo_index@[(
        #[trigger] self.dom_children@[p]@[j]).0 as int] < self.rpo_index@[(#[trigger] self.dom_children@[p]@[k]).0 as int]
        &&& self.loop_headers@.len() == n
        &&& all_reached_have_idom(self.idom@, self.rpo_index@, n)
        &&& single_pred_idom(self.idom@, self.rpo_index@, self.preds@, n)
        &&& forall|a: int| 1 <= a < self.rpo@.len() ==> #[trigger] pred_earlier(self.rpo@, self.preds@, a)
        &&& forall|c: int| 1 <= c < n && self.rpo_index@[c] != usize::MAX
            ==> #[trigger] self.dom_children@[(self.idom@[c]->0).0 as int]@.contains(BasicBlock(c as u32))
        &&& forall|v: int| 0 <= v < n ==> #[trigger] self.preds@[v]@ == preds_of(graph_of(self.succs@), BasicBlock(v as u32))
    }

    /// The rank that decreases along the dominator tree.
    spec fn rank(&self, bb: BasicBlock) -> int {
        self.rpo@.len() - self.rpo_index@[bb.0 as int]
    }

    fn of(terms: &'a [TerminatorKind]) -> (r: Cfg<'a>)
        requires
            body_ok(terms@),
        ensures
            r.wf(),
            r.terms == terms,
            forall|v: BasicBlock| #[trigger] r.rpo@.contains(v) <==> reachable(flow_graph(terms@), v),
    {
        let n = terms.len();
        let succs = successor_lists(terms);
        assert(graph_of(succs@) =~= flow_graph(terms@));
        let preds = predecessor_lists(&succs);
        let rpo = reverse_postorder(&succs);
        let rpo_index = rpo_positions(&rpo, n);
        proof {
            assert forall|v: int, k: int| 0 <= v < n && 0 <= k < preds@[v]@.len() implies (#[trigger] preds@[v]@[k]).0 < n by {
                lemma_preds_bounded(graph_of(succs@), BasicBlock(v as u32), n as int);
            }
            assert(rpo@[0] == BasicBlock(0));
            let g = graph_of(succs@);
            assert forall|a: int| 1 <= a < rpo@.len() implies #[trigger] pred_earlier(rpo@, preds@, a) by {
                assert(has_earlier_pred(g, rpo@, a));
                let (b, k) = choose|b: int, k: int| 0 <= b < a && 0 <= k < g[rpo@[b].0 as int].len()
                    && #[trigger] g[rpo@[b].0 as int][k] == rpo@[a];
                let pb = rpo@[b];
                lemma_pred_listed(g, rpo@[a], pb.0 as int, k);
                assert(BasicBlock(pb.0 as u32) == pb);
                let v = rpo@[a];
                assert(preds@[v.0 as int]@ == preds_of(g, BasicBlock(v.0 as u32)));
                assert(BasicBlock(v.0 as u32) == v);
                let kk = choose|kk: int| 0 <= kk < preds_of(g, v).len() && preds_of(g, v)[kk] == pb;
                assert(preds@[rpo@[a].0 as int]@[kk] == rpo@[b]);
            }
        }
        let idom = dominators(&preds, &rpo, &rpo_index);
        proof {
            lemma_order_injective(rpo@, rpo_index@, preds@, n as int);
        }
        let dom_children = Self::children_of(&rpo, &idom, &rpo_index, n);
        let mut loop_headers: Vec<bool> = Vec::new();
        while loop_headers.len() < n
            invariant
                loop_headers@.len() <= n,
            decreases n - loop_headers@.len(),
        {
            loop_headers.push(false);
        }
        proof {
            assert(idom_closed(idom@));
        }
        let mut i: usize = 0;
        while i < n
            invariant
                i <= n,
                n == terms@.len(),
                n == succs@.len(),
                n == idom@.len(),
                n == rpo_index@.len(),
                n < u32::MAX,
                loop_headers@.len() == n,
                idom_closed(idom@),
                graph_closed(graph_of(succs@)),
            decreases n - i,
        {
            if rpo_index[i] != usize::MAX {
                let row = &succs[i];
                let mut k: usize = 0;
                while k < row.len()
                    invariant
                        k <= row@.len(),
                        i < n,
                        n == succs@.len(),
                        n == idom@.len(),
                        n < u32::MAX,
                        row@ == succs@[i as int]@,
                        loop_headers@.len() == n,
                        idom_closed(idom@),
                        graph_closed(graph_of(succs@)),
                    decreases row@.len() - k,
                {
                    let s = row[k];
                    assert(graph_of(succs@)[i as int][k as int] == s);
                    if dominates(s, BasicBlock::new(i as u32), &idom) {
                        loop_headers.set(s.index(), true);
                    }
                    k = k + 1;
                }
            }
            i = i + 1;
        }
        proof {
            assert forall|c: int| 1 <= c < n && rpo_index@[c] != usize::MAX
                implies #[trigger] dom_children@[(idom@[c]->0).0 as int]@.contains(BasicBlock(c as u32)) by {
                let i = rpo_index@[c] as int;
                assert(rpo@[i] == BasicBlock(c as u32));
                assert(idom@[c] is Some);
                let p = idom@[c]->0;
                assert(BasicBlock(p.0 as u32) == p);
                assert(idom@[rpo@[i].0 as int] == Some(BasicBlock(p.0 as u32)));
            }
        }
        Cfg { terms, succs, preds, rpo, rpo_index, idom, dom_children, loop_headers }
    }

    /// The children of each block in the dominator tree, in reverse
    /// postorder.
    fn children_of(rpo: &Vec<BasicBlock>, idom: &Vec<Option<BasicBlock>>, idx: &Vec<usize>, n: usize) -> (r: Vec<Vec<BasicBlock>>)
        requires
            idom@.len() == n,
            idx@.len() == n,
            n <= u32::MAX,
            idom@[0] is None,
            forall|i: int| 0 <= i < rpo@.len() ==> (#[trigger] rpo@[i]).0 < n,
            forall|i: int| 0 <= i < rpo@.len() ==> #[trigger] idx@[rpo@[i].0 as int] == i,
        ensures
            r@.len() == n,
            forall|p: int, k: int| 0 <= p < n && 0 <= k < r@[p]@.len() ==> {
                let c = #[trigger] r@[p]@[k];
                &&& c.0 < n
                &&& 1 <= c.0
                &&& idom@[c.0 as int] == Some(BasicBlock(p as u32))
            },
            forall|p: int, j: int, k: int| 0 <= p < n && 0 <= j < k < r@[p]@.len() ==> idx@[(#[trigger] r@[p]@[j]).0 as int]
                < idx@[(#[trigger] r@[p]@[k]).0 as int],
            forall|i: int, p: int| 0 <= i < rpo@.len() && 0 <= p < n && idom@[(#[trigger] rpo@[i]).0 as int] == Some(BasicBlock(p as u32))
                ==> #[trigger] r@[p]@.contains(rpo@[i]),
    {
        let mut out: Vec<Vec<BasicBlock>> = Vec::new();
        let mut p: usize = 0;
        while p < n
            invariant
                p <= n,
                idom@.len() == n,
                idx@.len() == n,
                n <= u32::MAX,
                idom@[0] is None,
                forall|i: int| 0 <= i < rpo@.len() ==> (#[trigger] rpo@[i]).0 < n,
                forall|i: int| 0 <= i < rpo@.len() ==> #[trigger] idx@[rpo@[i].0 as int] == i,
                out@.len() == p,
                forall|q: int, k: int| 0 <= q < p && 0 <= k < out@[q]@.len() ==> {
                    let c = #[trigger] out@[q]@[k];
                    &&& c.0 < n
                    &&& 1 <= c.0
                    &&& idom@[c.0 as int] == Some(BasicBlock(q as u32))
                },
                forall|q: int, j: int, k: int| 0 <= q < p && 0 <= j < k < out@[q]@.len() ==> idx@[(#[trigger] out@[q]@[j]).0 as int]
                    < idx@[(#[trigger] out@[q]@[k]).0 as int],
                forall|i: int, q: int| 0 <= i < rpo@.len() && 0 <= q < p && idom@[(#[trigger] rpo@[i]).0 as int] == Some(BasicBlock(q as u32))
                    ==> #[trigger] out@[q]@.contains(rpo@[i]),
            decreases n - p,
        {
            let mut row: Vec<BasicBlock> = Vec::new();
            let mut i: usize = 0;
            while i < rpo.len()
                invariant
                    i <= rpo@.len(),
                    p < n,
                    idom@.len() == n,
                    idx@.len() == n,
                    idom@[0] is None,
                    forall|j: int| 0 <= j < rpo@.len() ==> (#[trigger] rpo@[j]).0 < n,
                    forall|j: int| 0 <= j < rpo@.len() ==> #[trigger] idx@[rpo@[j].0 as int] == j,
                    forall|k: int| 0 <= k < row@.len() ==> {
                        let c = #[trigger] row@[k];
                        &&& c.0 < n
                        &&& 1 <= c.0
                        &&& idom@[c.0 as int] == Some(BasicBlock(p as u32))
                        &&& idx@[c.0 as int] < i
                    },
                    forall|j: int, k: int| 0 <= j < k < row@.len() ==> idx@[(#[trigger] row@[j]).0 as int] < idx@[(#[trigger] row@[k]).0 as int],
                    forall|j: int| 0 <= j < i && idom@[(#[trigger] rpo@[j]).0 as int] == Some(BasicBlock(p as u32)) ==> row@.contains(rpo@[j]),
                    n <= u32::MAX,
                decreases rpo@.len() - i,
            {
                let c = rpo[i];
                assert(idx@[c.0 as int] == i);
                let ghost before = row@;
                match idom[c.index()] {
                    Some(q) => {
                        if q.0 as usize == p {
                            row.push(c);
                            assert(row@[row@.len() - 1] == c);
                        }
                    },
                    None => {},
                }
                proof {
                    assert forall|j: int| 0 <= j < i + 1 && idom@[(#[trigger] rpo@[j]).0 as int] == Some(BasicBlock(p as u32)) implies row@.contains(rpo@[j]) by {
                        if j < i {
                            let x = choose|x: int| 0 <= x < before.len() && before[x] == rpo@[j];
                            assert(row@[x] == before[x]);
                        } else {
                            assert(rpo@[j] == c);
                            assert(BasicBlock(p as u32).0 == p);
                        }
                    }
                }
                i = i + 1;
            }
            let ghost before = out@;
            out.push(row);
            proof {
                assert forall|q: int, j: int, k: int| 0 <= q < p + 1 && 0 <= j < k < out@[q]@.len() implies idx@[(#[trigger] out@[q]@[j]).0 as int]
                    < idx@[(#[trigger] out@[q]@[k]).0 as int] by {
                    if q < p {
                        assert(out@[q] == before[q]);
                    } else {
                        assert(out@[q]@ == row@);
                    }
                }
                assert forall|q: int, k: int| 0 <= q < p + 1 && 0 <= k < out@[q]@.len() implies {
                    let c = #[trigger] out@[q]@[k];
                    &&& c.0 < n
                    &&& 1 <= c.0
                    &&& idom@[c.0 as int] == Some(BasicBlock(q as u32))
                } by {
                    if q < p {
                        assert(out@[q] == before[q]);
                    } else {
                        assert(out@[q]@ == row@);
                    }
                }
                assert forall|i: int, q: int| 0 <= i < rpo@.len() && 0 <= q < p + 1 && idom@[(#[trigger] rpo@[i]).0 as int] == Some(BasicBlock(q as u32))
                    implies #[trigger] out@[q]@.contains(rpo@[i]) by {
                    if q < p {
                        assert(out@[q] == before[q]);
                    } else {
                        assert(out@[q]@ == row@);
                    }
                }
            }
            p = p + 1;
        }
        out
    }

    /// A merge point: two reached predecessor edges or more. A merge point
    /// has to be wrapped and left by `br`, since several paths reach it.
    fn is_merge(&self, bb: BasicBlock) -> (r: bool)
        requires
            self.wf(),
            bb.0 < self.n(),
        ensures
            r == (reached_count(self.preds@[bb.0 as int]@, self.rpo_index@) > 1),
    {
        let plist = &self.preds[bb.index()];
        let mut count: usize = 0;
        let mut k: usize = 0;
        while k < plist.len()
            invariant
                self.wf(),
                bb.0 < self.n(),
                plist@ == self.preds@[bb.0 as int]@,
                k <= plist@.len(),
                count <= k,
                count == reached_count(plist@.take(k as int), self.rpo_index@),
            decreases plist@.len() - k,
        {
            let p = plist[k];
            proof {
                let t = plist@.take(k + 1);
                assert(t.drop_last() =~= plist@.take(k as int));
                assert(t.last() == p);
            }
            if self.rpo_index[p.index()] != usize::MAX {
                count = count + 1;
            }
            k = k + 1;
        }
        assert(plist@.take(plist@.len() as int) =~= plist@);
        count > 1
    }

    /// An edge from reached block `i`, its `k`-th, that goes back to the
    /// same or an earlier place of the reverse postorder, to a block that
    /// does not dominate `i`: a loop entered elsewhere than at its header.
    spec fn bad_edge(&self, i: int, k: int) -> bool {
        let s = self.succs@[i]@[k];
        &&& self.rpo_index@[i] != usize::MAX
        &&& self.rpo_index@[s.0 as int] <= self.rpo_index@[i]
        &&& !spec_dominates(s, BasicBlock(i as u32), self.idom@)
    }

    /// Whether `(i, k)` names an edge.
    spec fn is_edge(&self, i: int, k: int) -> bool {
        0 <= i < self.n() && 0 <= k < self.succs@[i]@.len()
    }

    /// Checks reducibility: every edge back to the same or an earlier
    /// place of the reverse postorder returns to a block that dominates
    /// its source. Otherwise a loop is entered elsewhere than at its
    /// header, and the error names where the first such edge, by source
    /// and then by place among its successors, goes.
    fn check_reducible(&self) -> (r: Result<(), StructureError>)
        requires
            self.wf(),
        ensures
            r is Ok <==> forall|i: int, k: int| self.is_edge(i, k) ==> !#[trigger] self.bad_edge(i, k),
            r matches Err(e) ==> exists|i: int, k: int| {
                &&& self.is_edge(i, k)
                &&& #[trigger] self.bad_edge(i, k)
                &&& e == StructureError::Irreducible(self.succs@[i]@[k])
                &&& forall|i2: int, k2: int| self.is_edge(i2, k2) && (i2 < i || (i2 == i && k2 < k)) ==> !#[trigger] self.bad_edge(i2, k2)
            },
    {
        let n = self.terms.len();
        let mut i: usize = 0;
        proof {
            assert(idom_closed(self.idom@));
        }
        while i < n
            invariant
                self.wf(),
                n == self.n(),
                i <= n,
                idom_closed(self.idom@),
                forall|i2: int, k2: int| self.is_edge(i2, k2) && i2 < i ==> !#[trigger] self.bad_edge(i2, k2),
            decreases n - i,
        {
            if self.rpo_index[i] != usize::MAX {
                let row = &self.succs[i];
                let mut k: usize = 0;
                while k < row.len()
                    invariant
                        self.wf(),
                        n == self.n(),
                        i < n,
                        idom_closed(self.idom@),
                        row@ == self.succs@[i as int]@,
                        k <= row@.len(),
                        self.rpo_index@[i as int] != usize::MAX,
                        forall|i2: int, k2: int| self.is_edge(i2, k2) && (i2 < i || (i2 == i && k2 < k)) ==> !#[trigger] self.bad_edge(i2, k2),
                    decreases row@.len() - k,
                {
                    let s = row[k];
                    assert(graph_of(self.succs@)[i as int][k as int] == s);
                    if self.rpo_index[s.index()] <= self.rpo_index[i] && !dominates(s, BasicBlock::new(i as u32), &self.idom) {
                        proof {
                            assert(self.is_edge(i as int, k as int));
                            assert(self.bad_edge(i as int, k as int));
                        }
                        return Err(StructureError::Irreducible(s));
                    }
                    k = k + 1;
                }
            } else {
                assert forall|k2: int| self.is_edge(i as int, k2) implies !#[trigger] self.bad_edge(i as int, k2) by {}
            }
            i = i + 1;
        }
        Ok(())
    }
}

/// How many of `ps` were reached (have a place in the reverse postorder).
pub open spec fn reached_count(ps: Seq<BasicBlock>, idx: Seq<usize>) -> nat
    decreases ps.len(),
{
    if ps.len() == 0 {
        0
    } else {
        reached_count(ps.drop_last(), idx) + if idx[ps.last().0 as int] != usize::MAX {
            1nat
        } else {
            0nat
        }
    }
}

proof fn lemma_reached_count_pos(ps: Seq<BasicBlock>, idx: Seq<usize>, i: int)
    requires
        0 <= i < ps.len(),
        idx[ps[i].0 as int] != usize::MAX,
    ensures
        reached_count(ps, idx) >= 1,
    decreases ps.len(),
{
    if i < ps.len() - 1 {
        lemma_reached_count_pos(ps.drop_last(), idx, i);
    }
}

/// Two reached places make a count of at least two.
proof fn lemma_reached_count_two(ps: Seq<BasicBlock>, idx: Seq<usize>, i: int, j: int)
    requires
        0 <= i < j < ps.len(),
        idx[ps[i].0 as int] != usize::MAX,
        idx[ps[j].0 as int] != usize::MAX,
    ensures
        reached_count(ps, idx) >= 2,
    decreases ps.len(),
{
    if j < ps.len() - 1 {
        lemma_reached_count_two(ps.drop_last(), idx, i, j);
    } else {
        lemma_reached_count_pos(ps.drop_last(), idx, i);
    }
}

/// An enclosing construct, to count the depth of a `br`.
#[derive(Debug, Clone, Copy, PartialEq, Eq, Structural)]
enum Enclosing {
    /// `loop`: a `br` to it goes back to its start.
    Loop(BasicBlock),
    /// `block`: a `br` to it leaves to just before this block.
    Block(BasicBlock),
    /// An arm of `if`: no `br` targets it, but it counts.
    If,
}


/// Whether a branch to `to` targets the construct `e`.
spec fn targets(e: Enclosing, to: BasicBlock) -> bool {
    match e {
        Enclosing::Loop(b) => b == to,
        Enclosing::Block(b) => b == to,
        Enclosing::If => false,
    }
}

/// The relative depth of the innermost construct of `ctx` (the last is
/// the innermost) that a branch to `to` targets.
spec fn spec_depth(ctx: Seq<Enclosing>, to: BasicBlock) -> Option<nat>
    decreases ctx.len(),
{
    if ctx.len() == 0 {
        None
    } else if targets(ctx.last(), to) {
        Some(0)
    } else {
        match spec_depth(ctx.drop_last(), to) {
            Some(d) => Some(d + 1),
            None => None,
        }
    }
}

spec fn shift_depth(d: Option<nat>, k: nat) -> Option<nat> {
    match d {
        Some(x) => Some(x + k),
        None => None,
    }
}

proof fn lemma_spec_depth_bound(ctx: Seq<Enclosing>, to: BasicBlock)
    ensures
        spec_depth(ctx, to) matches Some(d) ==> d < ctx.len(),
    decreases ctx.len(),
{
    if ctx.len() > 0 {
        lemma_spec_depth_bound(ctx.drop_last(), to);
    }
}

/// The relative depth of the construct that a branch to `to` targets: the
/// innermost `loop` or `block` of `to`, counted from the inside. A depth
/// has 32 bits: one beyond them counts as none.
fn depth_of(ctx: &Vec<Enclosing>, to: BasicBlock) -> (r: Option<u32>)
    ensures
        r matches Some(d) ==> d < ctx@.len(),
        match spec_depth(ctx@, to) {
            Some(d) => if d <= u32::MAX { r == Some(d as u32) } else { r is None },
            None => r is None,
        },
{
    let n = ctx.len();
    let mut i: usize = 0;
    proof {
        lemma_spec_depth_bound(ctx@, to);
        assert(ctx@.take(n as int) =~= ctx@);
    }
    while i < n
        invariant
            n == ctx@.len(),
            i <= n,
            spec_depth(ctx@, to) == shift_depth(spec_depth(ctx@.take(n - i), to), i as nat),
        decreases n - i,
    {
        if i > 0xffff_ffffusize {
            proof {
                match spec_depth(ctx@.take(n - i), to) {
                    Some(x) => {},
                    None => {},
                }
            }
            return None;
        }
        let ghost t = ctx@.take(n - i);
        assert(t.last() == ctx@[n - 1 - i]);
        assert(t.drop_last() =~= ctx@.take(n - i - 1));
        let matched = match ctx[n - 1 - i] {
            Enclosing::Loop(bb) => bb == to,
            Enclosing::Block(bb) => bb == to,
            Enclosing::If => false,
        };
        if matched {
            return Some(i as u32);
        }
        i = i + 1;
    }
    assert(ctx@.take(0) =~= Seq::<Enclosing>::empty());
    None
}

fn branch_to_enclosing(ctx: &Vec<Enclosing>, to: BasicBlock, Ghost(idx): Ghost<Seq<usize>>) -> (r: Result<Vec<Structured>, StructureError>)
    ensures
        r matches Ok(items) ==> well_built_in(items@, ctx@.len() as int, idx),
        r matches Ok(items) ==> forall|terms: Seq<TerminatorKind>| fits_body_in(items@, terms),
        match spec_depth(ctx@, to) {
            Some(d) => if d <= u32::MAX {
                r matches Ok(items) && items@ == seq![Structured::Br(d as u32)]
            } else {
                r == Err::<Vec<Structured>, StructureError>(StructureError::NoEnclosingBlock(to))
            },
            None => r == Err::<Vec<Structured>, StructureError>(StructureError::NoEnclosingBlock(to)),
        },
{
    match depth_of(ctx, to) {
        Some(d) => {
            let out = vec![Structured::Br(d)];
            proof {
                lemma_well_built_push(Seq::empty(), Structured::Br(d), ctx@.len() as int, idx);
                assert(out@ =~= Seq::<Structured>::empty().push(Structured::Br(d)));
                assert forall|terms: Seq<TerminatorKind>| fits_body_in(out@, terms) by {
                    lemma_fits_push(Seq::empty(), Structured::Br(d), terms);
                }
            }
            Ok(out)
        },
        None => Err(StructureError::NoEnclosingBlock(to)),
    }
}

/// Where a branch to `to` from inside `ctx` finds no construct to target.
spec fn branch_failure(ctx: Seq<Enclosing>, to: BasicBlock) -> Option<BasicBlock> {
    match spec_depth(ctx, to) {
        Some(d) => if d <= u32::MAX {
            None
        } else {
            Some(to)
        },
        None => Some(to),
    }
}

/// The merge points among the first `k` children of `bb` in the dominator
/// tree, in order.
spec fn merges_upto(cfg: &Cfg, bb: BasicBlock, k: int) -> Seq<BasicBlock>
    decreases k,
{
    if k <= 0 {
        Seq::empty()
    } else {
        let rest = merges_upto(cfg, bb, k - 1);
        let c = cfg.dom_children@[bb.0 as int]@[k - 1];
        if reached_count(cfg.preds@[c.0 as int]@, cfg.rpo_index@) > 1 {
            rest.push(c)
        } else {
            rest
        }
    }
}

/// The merge points that `bb` immediately dominates.
spec fn merges_of(cfg: &Cfg, bb: BasicBlock) -> Seq<BasicBlock> {
    merges_upto(cfg, bb, cfg.dom_children@[bb.0 as int]@.len() as int)
}

/// Merge points that `bb` immediately dominates, all of them blocks.
spec fn merges_ok(cfg: &Cfg, bb: BasicBlock, merges: Seq<BasicBlock>) -> bool {
    forall|m: int| 0 <= m < merges.len() ==> (#[trigger] merges[m]).0 < cfg.n() && 1 <= merges[m].0
        && cfg.idom@[merges[m].0 as int] == Some(bb)
}

/// The first branch, in the order the tree of `bb` is built from inside
/// `ctx`, that finds no construct to target: the block it goes to.
spec fn tree_failure(cfg: &Cfg, ctx: Seq<Enclosing>, bb: BasicBlock) -> Option<BasicBlock>
    decreases cfg.rank(bb), 4int, 0int,
{
    if !(cfg.wf() && reached(bb, cfg.rpo_index@)) {
        None
    } else if cfg.loop_headers@[bb.0 as int] {
        within_failure(cfg, ctx.push(Enclosing::Loop(bb)), bb)
    } else {
        within_failure(cfg, ctx, bb)
    }
}

spec fn within_failure(cfg: &Cfg, ctx: Seq<Enclosing>, bb: BasicBlock) -> Option<BasicBlock>
    decreases cfg.rank(bb), 3int, 0int,
{
    within_inner_failure(cfg, ctx, bb, merges_of(cfg, bb))
}

spec fn within_inner_failure(cfg: &Cfg, ctx: Seq<Enclosing>, bb: BasicBlock, merges: Seq<BasicBlock>) -> Option<BasicBlock>
    decreases cfg.rank(bb), 2int, merges.len(),
{
    if !(cfg.wf() && reached(bb, cfg.rpo_index@) && merges_ok(cfg, bb, merges)) {
        None
    } else if merges.len() == 0 {
        node_failure(cfg, ctx, bb)
    } else {
        let last = merges.last();
        let rest = merges.drop_last();
        proof {
            lemma_order_injective(cfg.rpo@, cfg.rpo_index@, cfg.preds@, cfg.n());
            assert(merges[merges.len() - 1] == last);
            assert(cfg.rpo_index@[bb.0 as int] < cfg.rpo_index@[last.0 as int]);
        }
        match within_inner_failure(cfg, ctx.push(Enclosing::Block(last)), bb, rest) {
            Some(b) => Some(b),
            None => tree_failure(cfg, ctx, last),
        }
    }
}

spec fn node_failure(cfg: &Cfg, ctx: Seq<Enclosing>, bb: BasicBlock) -> Option<BasicBlock>
    decreases cfg.rank(bb), 1int, 0int,
{
    if !(cfg.wf() && reached(bb, cfg.rpo_index@)) {
        None
    } else {
        match cfg.terms@[bb.0 as int] {
            TerminatorKind::Return => None,
            TerminatorKind::Unreachable => None,
            TerminatorKind::Goto { target } => branch_failure_from(cfg, ctx, bb, target),
            TerminatorKind::Call { target } => branch_failure_from(cfg, ctx, bb, target),
            TerminatorKind::SwitchInt { arms, otherwise } => match branch_failure_from(
                cfg,
                ctx.push(Enclosing::If),
                bb,
                arms@[0].1,
            ) {
                Some(b) => Some(b),
                None => branch_failure_from(cfg, ctx.push(Enclosing::If), bb, otherwise),
            },
        }
    }
}

spec fn branch_failure_from(cfg: &Cfg, ctx: Seq<Enclosing>, from: BasicBlock, to: BasicBlock) -> Option<BasicBlock>
    decreases cfg.rank(from), 0int, 0int,
{
    if !(cfg.wf() && reached(from, cfg.rpo_index@) && to.0 < cfg.n()) {
        None
    } else if spec_dominates(to, from, cfg.idom@) || reached_count(cfg.preds@[to.0 as int]@, cfg.rpo_index@) > 1 {
        branch_failure(ctx, to)
    } else if cfg.idom@[to.0 as int] == Some(from) {
        proof {
            lemma_order_injective(cfg.rpo@, cfg.rpo_index@, cfg.preds@, cfg.n());
            if to.0 == 0 {
                assert(cfg.idom@[0] is None);
            }
        }
        tree_failure(cfg, ctx, to)
    } else {
        branch_failure(ctx, to)
    }
}

/// `b` is the successor of a reached block.
spec fn entered(cfg: &Cfg, b: BasicBlock) -> bool {
    exists|u: BasicBlock| reached(u, cfg.rpo_index@) && u.0 < cfg.n() && #[trigger] flow_graph(cfg.terms@)[u.0 as int].contains(b)
}

proof fn lemma_tree_failure_entered(cfg: &Cfg, ctx: Seq<Enclosing>, bb: BasicBlock)
    ensures
        tree_failure(cfg, ctx, bb) matches Some(b) ==> entered(cfg, b),
    decreases cfg.rank(bb), 4int, 0int,
{
    if cfg.wf() && reached(bb, cfg.rpo_index@) {
        if cfg.loop_headers@[bb.0 as int] {
            lemma_within_failure_entered(cfg, ctx.push(Enclosing::Loop(bb)), bb);
        } else {
            lemma_within_failure_entered(cfg, ctx, bb);
        }
    }
}

proof fn lemma_within_failure_entered(cfg: &Cfg, ctx: Seq<Enclosing>, bb: BasicBlock)
    ensures
        within_failure(cfg, ctx, bb) matches Some(b) ==> entered(cfg, b),
    decreases cfg.rank(bb), 3int, 0int,
{
    lemma_within_inner_failure_entered(cfg, ctx, bb, merges_of(cfg, bb));
}

proof fn lemma_within_inner_failure_entered(cfg: &Cfg, ctx: Seq<Enclosing>, bb: BasicBlock, merges: Seq<BasicBlock>)
    ensures
        within_inner_failure(cfg, ctx, bb, merges) matches Some(b) ==> entered(cfg, b),
    decreases cfg.rank(bb), 2int, merges.len(),
{
    if cfg.wf() && reached(bb, cfg.rpo_index@) && merges_ok(cfg, bb, merges) {
        if merges.len() == 0 {
            lemma_node_failure_entered(cfg, ctx, bb);
        } else {
            let last = merges.last();
            let rest = merges.drop_last();
            lemma_order_injective(cfg.rpo@, cfg.rpo_index@, cfg.preds@, cfg.n());
            assert(merges[merges.len() - 1] == last);
            assert(cfg.rpo_index@[bb.0 as int] < cfg.rpo_index@[last.0 as int]);
            assert(merges_ok(cfg, bb, rest)) by {
                assert forall|m: int| 0 <= m < rest.len() implies (#[trigger] rest[m]).0 < cfg.n() && 1 <= rest[m].0
                    && cfg.idom@[rest[m].0 as int] == Some(bb) by {
                    assert(rest[m] == merges[m]);
                }
            }
            lemma_within_inner_failure_entered(cfg, ctx.push(Enclosing::Block(last)), bb, rest);
            lemma_tree_failure_entered(cfg, ctx, last);
        }
    }
}

proof fn lemma_node_failure_entered(cfg: &Cfg, ctx: Seq<Enclosing>, bb: BasicBlock)
    ensures
        node_failure(cfg, ctx, bb) matches Some(b) ==> entered(cfg, b),
    decreases cfg.rank(bb), 1int, 0int,
{
    if cfg.wf() && reached(bb, cfg.rpo_index@) {
        let succ = flow_graph(cfg.terms@)[bb.0 as int];
        match cfg.terms@[bb.0 as int] {
            TerminatorKind::Return => {},
            TerminatorKind::Unreachable => {},
            TerminatorKind::Goto { target } => {
                assert(succ[0] == target);
                lemma_branch_failure_from_entered(cfg, ctx, bb, target);
            },
            TerminatorKind::Call { target } => {
                assert(succ[0] == target);
                lemma_branch_failure_from_entered(cfg, ctx, bb, target);
            },
            TerminatorKind::SwitchInt { arms, otherwise } => {
                assert(arms@.len() == 1);
                assert(succ == arms@.map_values(|a: (u128, BasicBlock)| a.1).push(otherwise));
                assert(succ[0] == arms@[0].1);
                assert(succ[1] == otherwise);
                lemma_branch_failure_from_entered(cfg, ctx.push(Enclosing::If), bb, arms@[0].1);
                lemma_branch_failure_from_entered(cfg, ctx.push(Enclosing::If), bb, otherwise);
            },
        }
    }
}

proof fn lemma_branch_failure_from_entered(cfg: &Cfg, ctx: Seq<Enclosing>, from: BasicBlock, to: BasicBlock)
    requires
        cfg.wf() && reached(from, cfg.rpo_index@) ==> flow_graph(cfg.terms@)[from.0 as int].contains(to),
    ensures
        branch_failure_from(cfg, ctx, from, to) matches Some(b) ==> entered(cfg, b),
    decreases cfg.rank(from), 0int, 0int,
{
    if cfg.wf() && reached(from, cfg.rpo_index@) && to.0 < cfg.n() {
        if !(spec_dominates(to, from, cfg.idom@) || reached_count(cfg.preds@[to.0 as int]@, cfg.rpo_index@) > 1)
            && cfg.idom@[to.0 as int] == Some(from) {
            lemma_order_injective(cfg.rpo@, cfg.rpo_index@, cfg.preds@, cfg.n());
            if to.0 == 0 {
                assert(cfg.idom@[0] is None);
            }
            lemma_tree_failure_entered(cfg, ctx, to);
        }
    }
}

/// `v` is reached and `bb` dominates it, in the tree the analysis built.
spec fn in_sub(cfg: &Cfg, v: BasicBlock, bb: BasicBlock) -> bool {
    reached(v, cfg.rpo_index@) && dom_anc(bb, v, cfg.idom@, cfg.rpo_index@)
}

/// `c` is a child of `bb` in that tree with one reached predecessor: it is
/// built in place, below `bb`.
spec fn child_below(cfg: &Cfg, bb: BasicBlock, c: BasicBlock) -> bool {
    &&& 1 <= c.0 < cfg.n()
    &&& reached(c, cfg.rpo_index@)
    &&& cfg.idom@[c.0 as int] == Some(bb)
    &&& reached_count(cfg.preds@[c.0 as int]@, cfg.rpo_index@) <= 1
}

/// What the code of `bb` holds: `bb`, and what its children built in place
/// dominate.
spec fn node_covers(cfg: &Cfg, bb: BasicBlock, v: BasicBlock) -> bool {
    v == bb || exists|c: BasicBlock| #[trigger] child_below(cfg, bb, c) && in_sub(cfg, v, c)
}

proof fn lemma_blocks_concat(a: Seq<Structured>, b: Seq<Structured>)
    ensures
        blocks_of_all(a + b) == blocks_of_all(a) + blocks_of_all(b),
    decreases b.len(),
{
    if b.len() == 0 {
        assert(a + b =~= a);
        assert(blocks_of_all(a) + blocks_of_all(b) =~= blocks_of_all(a));
    } else {
        let b0 = b.subrange(0, b.len() - 1);
        lemma_blocks_concat(a, b0);
        assert((a + b).subrange(0, (a + b).len() - 1) =~= a + b0);
        assert((a + b)[(a + b).len() - 1] == b[b.len() - 1]);
        assert(blocks_of_all(a) + blocks_of_all(b) =~= (blocks_of_all(a) + blocks_of_all(b0)) + blocks_of(b[b.len() - 1]));
    }
}

proof fn lemma_blocks_one(x: Structured)
    ensures
        blocks_of_all(seq![x]) == blocks_of(x),
{
    assert(seq![x].subrange(0, 0) =~= Seq::<Structured>::empty());
    assert(blocks_of_all(Seq::<Structured>::empty()) + blocks_of(x) =~= blocks_of(x));
}

/// Below `bb` and not `bb` itself: below one of its children.
proof fn lemma_sub_step(cfg: &Cfg, v: BasicBlock, bb: BasicBlock) -> (c: BasicBlock)
    requires
        cfg.wf(),
        in_sub(cfg, v, bb),
        v != bb,
    ensures
        1 <= c.0 < cfg.n(),
        reached(c, cfg.rpo_index@),
        cfg.idom@[c.0 as int] == Some(bb),
        in_sub(cfg, v, c),
    decreases cfg.rpo_index@[v.0 as int],
{
    let idx = cfg.rpo_index@;
    let idom = cfg.idom@;
    let p = idom[v.0 as int]->0;
    assert(v.0 != 0);
    assert(idx[p.0 as int] < idx[v.0 as int]);
    assert(1 <= v.0 < cfg.n());
    if p == bb {
        v
    } else {
        assert(dom_anc(bb, p, idom, idx));
        assert(p.0 < cfg.n());
        let c = lemma_sub_step(cfg, p, bb);
        assert(dom_anc(c, v, idom, idx));
        c
    }
}

/// Every reached block is below the entry.
proof fn lemma_below_entry(cfg: &Cfg, v: BasicBlock)
    requires
        cfg.wf(),
        reached(v, cfg.rpo_index@),
    ensures
        in_sub(cfg, v, BasicBlock(0)),
    decreases cfg.rpo_index@[v.0 as int],
{
    let idx = cfg.rpo_index@;
    let idom = cfg.idom@;
    if v.0 != 0 {
        assert(idom[v.0 as int] is Some);
        let p = idom[v.0 as int]->0;
        assert(idx[p.0 as int] < idx[v.0 as int]);
        assert(p.0 < cfg.n());
        lemma_below_entry(cfg, p);
        if v != BasicBlock(0) {
            assert(dom_anc(BasicBlock(0), v, idom, idx));
        }
    } else {
        assert(v == BasicBlock(0));
    }
}

/// A block on the dominator chain of `cur` stands before it.
proof fn lemma_chain_before(cfg: &Cfg, a: BasicBlock, cur: BasicBlock, steps: nat)
    requires
        cfg.wf(),
        cur.0 < cfg.n(),
        reached(cur, cfg.rpo_index@),
        on_chain(a, cur, cfg.idom@, steps),
    ensures
        cfg.rpo_index@[a.0 as int] < cfg.rpo_index@[cur.0 as int],
    decreases steps,
{
    let idom = cfg.idom@;
    let idx = cfg.rpo_index@;
    let next = idom[cur.0 as int]->0;
    assert(cur.0 != 0);
    assert(idx[next.0 as int] < idx[cur.0 as int]);
    if next != a {
        assert(next.0 < cfg.n());
        lemma_chain_before(cfg, a, next, (steps - 1) as nat);
    }
}

proof fn lemma_copies_edge(row: Seq<BasicBlock>, v: BasicBlock, u: BasicBlock)
    ensures
        copies(row, v, u).len() > 0 ==> exists|k: int| 0 <= k < row.len() && row[k] == v,
    decreases row.len(),
{
    if row.len() > 0 {
        lemma_copies_edge(row.drop_last(), v, u);
        if copies(row.drop_last(), v, u).len() > 0 {
            let k = choose|k: int| 0 <= k < row.drop_last().len() && row.drop_last()[k] == v;
            assert(row[k] == v);
        } else if row.last() == v {
            assert(row[row.len() - 1] == v);
        }
    }
}

/// A predecessor listed for `v` has an edge to it.
proof fn lemma_preds_edge(g: Seq<Seq<BasicBlock>>, v: BasicBlock, m: int, i: int)
    requires
        0 <= m <= g.len(),
        g.len() <= u32::MAX,
        0 <= i < preds_upto(g, v, m).len(),
    ensures
        preds_upto(g, v, m)[i].0 < m,
        exists|k: int| 0 <= k < g[preds_upto(g, v, m)[i].0 as int].len() && g[preds_upto(g, v, m)[i].0 as int][k] == v,
    decreases m,
{
    let a = preds_upto(g, v, m - 1);
    let c = copies(g[m - 1], v, BasicBlock((m - 1) as u32));
    if i < a.len() {
        assert(preds_upto(g, v, m)[i] == a[i]);
        lemma_preds_edge(g, v, m - 1, i);
    } else {
        assert(preds_upto(g, v, m)[i] == c[i - a.len()]);
        lemma_copies_blocks(g[m - 1], v, BasicBlock((m - 1) as u32));
        lemma_copies_edge(g[m - 1], v, BasicBlock((m - 1) as u32));
        assert(BasicBlock((m - 1) as u32).0 == m - 1);
    }
}

/// A child built in place has one reached predecessor, its parent, so
/// its parent has an edge to it.
proof fn lemma_child_edge(cfg: &Cfg, bb: BasicBlock, c: BasicBlock)
    requires
        cfg.wf(),
        child_below(cfg, bb, c),
    ensures
        bb.0 < cfg.n(),
        exists|k: int| 0 <= k < flow_graph(cfg.terms@)[bb.0 as int].len() && flow_graph(cfg.terms@)[bb.0 as int][k] == c,
{
    let idx = cfg.rpo_index@;
    let n = cfg.n();
    lemma_order_injective(cfg.rpo@, idx, cfg.preds@, n);
    let a = idx[c.0 as int] as int;
    assert(cfg.rpo@[a] == BasicBlock(c.0 as u32));
    assert(BasicBlock(c.0 as u32) == c);
    assert(a != 0) by {
        if a == 0 {
            assert(cfg.rpo@[0] == BasicBlock(0));
        }
    }
    assert(pred_earlier(cfg.rpo@, cfg.preds@, a));
    let (b, kk) = choose|b: int, kk: int| #![trigger cfg.preds@[cfg.rpo@[a].0 as int]@[kk], cfg.rpo@[b]] 0 <= b < a
        && 0 <= kk < cfg.preds@[cfg.rpo@[a].0 as int]@.len() && cfg.preds@[cfg.rpo@[a].0 as int]@[kk] == cfg.rpo@[b];
    let q = cfg.rpo@[b];
    assert(idx[q.0 as int] == b);
    let ps = cfg.preds@[c.0 as int]@;
    assert(ps[kk] == q);
    lemma_reached_count_pos(ps, idx, kk);
    assert(cfg.idom@[c.0 as int] == Some(ps[kk]));
    assert(q == bb);
    let g = graph_of(cfg.succs@);
    assert(ps == preds_of(g, BasicBlock(c.0 as u32)));
    lemma_preds_edge(g, c, g.len() as int, kk);
}

/// A child of `bb` with several reached predecessors is among its merge
/// points.
proof fn lemma_merge_listed(cfg: &Cfg, bb: BasicBlock, c: BasicBlock)
    requires
        cfg.wf(),
        1 <= c.0 < cfg.n(),
        reached(c, cfg.rpo_index@),
        cfg.idom@[c.0 as int] == Some(bb),
        reached_count(cfg.preds@[c.0 as int]@, cfg.rpo_index@) > 1,
    ensures
        merges_of(cfg, bb).contains(c),
{
    assert(cfg.dom_children@[(cfg.idom@[c.0 as int]->0).0 as int]@.contains(BasicBlock(c.0 as u32)));
    assert(BasicBlock(c.0 as u32) == c);
    let ch = cfg.dom_children@[bb.0 as int]@;
    let i = choose|i: int| 0 <= i < ch.len() && ch[i] == c;
    lemma_merges_upto_hold(cfg, bb, i, ch.len() as int);
}

proof fn lemma_merges_upto_hold(cfg: &Cfg, bb: BasicBlock, i: int, k: int)
    requires
        0 <= i < k,
        reached_count(cfg.preds@[cfg.dom_children@[bb.0 as int]@[i].0 as int]@, cfg.rpo_index@) > 1,
    ensures
        merges_upto(cfg, bb, k).contains(cfg.dom_children@[bb.0 as int]@[i]),
    decreases k,
{
    let c = cfg.dom_children@[bb.0 as int]@[i];
    let rest = merges_upto(cfg, bb, k - 1);
    if i == k - 1 {
        assert(merges_upto(cfg, bb, k) == rest.push(c));
        assert(merges_upto(cfg, bb, k)[rest.len() as int] == c);
    } else {
        lemma_merges_upto_hold(cfg, bb, i, k - 1);
        let j = choose|j: int| 0 <= j < rest.len() && rest[j] == c;
        let last = cfg.dom_children@[bb.0 as int]@[k - 1];
        if reached_count(cfg.preds@[last.0 as int]@, cfg.rpo_index@) > 1 {
            assert(merges_upto(cfg, bb, k)[j] == c);
        }
    }
}

proof fn lemma_contains_concat(a: Seq<BasicBlock>, b: Seq<BasicBlock>, x: BasicBlock)
    ensures
        a.contains(x) ==> (a + b).contains(x),
        b.contains(x) ==> (a + b).contains(x),
{
    if a.contains(x) {
        let i = choose|i: int| 0 <= i < a.len() && a[i] == x;
        assert((a + b)[i] == x);
    }
    if b.contains(x) {
        let i = choose|i: int| 0 <= i < b.len() && b[i] == x;
        assert((a + b)[a.len() + i] == x);
    }
}

/// A child built in place does not dominate its parent, so the edge to
/// it is no back edge.
proof fn lemma_child_not_back(cfg: &Cfg, from: BasicBlock, to: BasicBlock)
    requires
        cfg.wf(),
        reached(from, cfg.rpo_index@),
        child_below(cfg, from, to),
    ensures
        !spec_dominates(to, from, cfg.idom@),
{
    let idx = cfg.rpo_index@;
    assert(idx[from.0 as int] < idx[to.0 as int]);
    if on_chain(to, from, cfg.idom@, (cfg.idom@.len() + 1) as nat) {
        lemma_chain_before(cfg, to, from, (cfg.idom@.len() + 1) as nat);
    }
}

/// What the code of `bb` holds besides `bb` lies below a child that is
/// one of its successors.
proof fn lemma_covered_child(cfg: &Cfg, bb: BasicBlock, v: BasicBlock) -> (c: BasicBlock)
    requires
        cfg.wf(),
        node_covers(cfg, bb, v),
        v != bb,
    ensures
        child_below(cfg, bb, c),
        in_sub(cfg, v, c),
        bb.0 < cfg.n(),
        flow_graph(cfg.terms@)[bb.0 as int].contains(c),
{
    let c = choose|c: BasicBlock| #[trigger] child_below(cfg, bb, c) && in_sub(cfg, v, c);
    lemma_child_edge(cfg, bb, c);
    c
}

/// Builds `bb` and what it dominates, wrapping it in `loop` when a back
/// edge returns to it.
fn do_tree(cfg: &Cfg, ctx: &mut Vec<Enclosing>, bb: BasicBlock) -> (r: Result<Vec<Structured>, StructureError>)
    requires
        cfg.wf(),
        reached(bb, cfg.rpo_index@),
    ensures
        final(ctx)@ == old(ctx)@,
        r matches Ok(items) ==> well_built_in(items@, old(ctx)@.len() as int, cfg.rpo_index@),
        r matches Ok(items) ==> fits_body_in(items@, cfg.terms@),
        r matches Ok(items) ==> forall|v: BasicBlock| in_sub(cfg, v, bb) ==> #[trigger] blocks_of_all(items@).contains(v),
        r matches Ok(items) ==> items@.len() > 0 && first_block(items@[0]) == Some(bb),
        match tree_failure(cfg, old(ctx)@, bb) {
            Some(b) => r is Err && r->Err_0 == StructureError::NoEnclosingBlock(b),
            None => r is Ok,
        },
    decreases cfg.rank(bb), 4int, 0int,
{
    proof {
        lemma_order_injective(cfg.rpo@, cfg.rpo_index@, cfg.preds@, cfg.n());
    }
    if cfg.loop_headers[bb.index()] {
        let ghost c0 = ctx@;
        ctx.push(Enclosing::Loop(bb));
        let inner = node_within(cfg, ctx, bb);
        ctx.pop();
        assert(ctx@ =~= c0);
        match inner {
            Err(e) => Err(e),
            Ok(inner) => {
                let ghost d = c0.len() as int;
                let ghost iv = inner@;
                let t = Structured::Loop(Box::new(Structured::Block(inner)));
                proof {
                    assert(well_built(Structured::Block(inner), d, cfg.rpo_index@));
                    lemma_well_built_mono(t, d - 1, d, cfg.rpo_index@);
                }
                let out = vec![t];
                proof {
                    lemma_well_built_push(Seq::empty(), t, d, cfg.rpo_index@);
                    assert(fits_body(Structured::Block(inner), cfg.terms@));
                    lemma_fits_push(Seq::empty(), t, cfg.terms@);
                    assert(out@ =~= Seq::<Structured>::empty().push(t));
                    lemma_blocks_one(t);
                    assert(out@ =~= seq![t]);
                    assert(blocks_of(Structured::Block(inner)) == blocks_of_all(iv));
                    assert(blocks_of(t) == blocks_of(Structured::Block(inner)));
                    assert(blocks_of_all(out@) == blocks_of_all(iv));
                    assert(first_block(Structured::Block(inner)) == first_block(iv[0]));
                    assert(first_block(t) == first_block(Structured::Block(inner)));
                    assert(out@[0] == t);
                }
                Ok(out)
            },
        }
    } else {
        node_within(cfg, ctx, bb)
    }
}

/// Wraps the merge points that `bb` dominates in `block`s, then builds
/// `bb` itself. Merge points stand after `bb`, reached by `br`; they are
/// wrapped in reverse postorder reversed, so the inner ones are the
/// earlier ones and the depths come out right.
fn node_within(cfg: &Cfg, ctx: &mut Vec<Enclosing>, bb: BasicBlock) -> (r: Result<Vec<Structured>, StructureError>)
    requires
        cfg.wf(),
        reached(bb, cfg.rpo_index@),
    ensures
        final(ctx)@ == old(ctx)@,
        r matches Ok(items) ==> well_built_in(items@, old(ctx)@.len() as int, cfg.rpo_index@),
        r matches Ok(items) ==> fits_body_in(items@, cfg.terms@),
        r matches Ok(items) ==> forall|v: BasicBlock| in_sub(cfg, v, bb) ==> #[trigger] blocks_of_all(items@).contains(v),
        r matches Ok(items) ==> items@.len() > 0 && first_block(items@[0]) == Some(bb),
        match within_failure(cfg, old(ctx)@, bb) {
            Some(b) => r is Err && r->Err_0 == StructureError::NoEnclosingBlock(b),
            None => r is Ok,
        },
    decreases cfg.rank(bb), 3int, 0int,
{
    let children = &cfg.dom_children[bb.index()];
    let mut merges: Vec<BasicBlock> = Vec::new();
    let mut k: usize = 0;
    while k < children.len()
        invariant
            cfg.wf(),
            bb.0 < cfg.n(),
            children@ == cfg.dom_children@[bb.0 as int]@,
            k <= children@.len(),
            forall|m: int| 0 <= m < merges@.len() ==> (#[trigger] merges@[m]).0 < cfg.n() && 1 <= merges@[m].0
                && cfg.idom@[merges@[m].0 as int] == Some(bb),
            merges@ == merges_upto(cfg, bb, k as int),
        decreases children@.len() - k,
    {
        let c = children[k];
        proof {
            assert(c == cfg.dom_children@[bb.0 as int]@[k as int]);
            assert(BasicBlock(bb.0 as u32) == bb);
        }
        if cfg.is_merge(c) {
            merges.push(c);
        }
        k = k + 1;
    }
    let r = node_within_inner(cfg, ctx, bb, merges.as_slice());
    proof {
        assert(merges@ == merges_of(cfg, bb));
        if r is Ok {
            let items = r->Ok_0;
            assert forall|v: BasicBlock| in_sub(cfg, v, bb) implies #[trigger] blocks_of_all(items@).contains(v) by {
                if v != bb {
                    let c = lemma_sub_step(cfg, v, bb);
                    if reached_count(cfg.preds@[c.0 as int]@, cfg.rpo_index@) > 1 {
                        lemma_merge_listed(cfg, bb, c);
                        let m = choose|m: int| 0 <= m < merges@.len() && merges@[m] == c;
                        assert(in_sub(cfg, v, merges@[m]));
                    } else {
                        assert(child_below(cfg, bb, c));
                    }
                }
            }
        }
    }
    r
}

fn node_within_inner(cfg: &Cfg, ctx: &mut Vec<Enclosing>, bb: BasicBlock, merges: &[BasicBlock]) -> (r: Result<
    Vec<Structured>,
    StructureError,
>)
    requires
        cfg.wf(),
        reached(bb, cfg.rpo_index@),
        forall|m: int| 0 <= m < merges@.len() ==> (#[trigger] merges@[m]).0 < cfg.n() && 1 <= merges@[m].0
            && cfg.idom@[merges@[m].0 as int] == Some(bb),
    ensures
        final(ctx)@ == old(ctx)@,
        r matches Ok(items) ==> well_built_in(items@, old(ctx)@.len() as int, cfg.rpo_index@),
        r matches Ok(items) ==> fits_body_in(items@, cfg.terms@),
        r matches Ok(items) ==> forall|v: BasicBlock| (node_covers(cfg, bb, v) || exists|m: int| 0 <= m < merges@.len() && in_sub(cfg, v, merges@[m]))
            ==> #[trigger] blocks_of_all(items@).contains(v),
        r matches Ok(items) ==> items@.len() > 0 && first_block(items@[0]) == Some(bb),
        match within_inner_failure(cfg, old(ctx)@, bb, merges@) {
            Some(b) => r is Err && r->Err_0 == StructureError::NoEnclosingBlock(b),
            None => r is Ok,
        },
    decreases cfg.rank(bb), 2int, merges@.len(),
{
    if merges.len() == 0 {
        return do_node(cfg, ctx, bb);
    }
    let n = merges.len();
    let last = merges[n - 1];
    let rest = &merges[0..n - 1];
    proof {
        assert(rest@ =~= merges@.subrange(0, n - 1));
        assert forall|m: int| 0 <= m < rest@.len() implies (#[trigger] rest@[m]).0 < cfg.n() && 1 <= rest@[m].0
            && cfg.idom@[rest@[m].0 as int] == Some(bb) by {
            assert(rest@[m] == merges@[m]);
        }
        assert(merges@[n - 1] == last);
        assert(cfg.rpo_index@[bb.0 as int] < cfg.rpo_index@[last.0 as int]);
        lemma_order_injective(cfg.rpo@, cfg.rpo_index@, cfg.preds@, cfg.n());
    }
    let ghost c0 = ctx@;
    ctx.push(Enclosing::Block(last));
    let inner = node_within_inner(cfg, ctx, bb, rest);
    ctx.pop();
    assert(ctx@ =~= c0);
    let inner = match inner {
        Err(e) => return Err(e),
        Ok(v) => v,
    };
    let ghost iv = inner@;
    let t = Structured::Block(inner);
    let mut out = vec![t];
    proof {
        lemma_well_built_push(Seq::empty(), t, c0.len() as int, cfg.rpo_index@);
        lemma_fits_push(Seq::empty(), t, cfg.terms@);
        assert(out@ =~= Seq::<Structured>::empty().push(t));
    }
    match do_tree(cfg, ctx, last) {
        Err(e) => Err(e),
        Ok(more) => {
            let mut more = more;
            let ghost a = out@;
            let ghost b = more@;
            out.append(&mut more);
            proof {
                lemma_well_built_concat(a, b, c0.len() as int, cfg.rpo_index@);
                lemma_fits_concat(a, b, cfg.terms@);
                lemma_blocks_concat(a, b);
                lemma_blocks_one(t);
                assert(a =~= seq![t]);
                assert forall|v: BasicBlock| (node_covers(cfg, bb, v) || exists|m: int| 0 <= m < merges@.len() && in_sub(cfg, v, merges@[m]))
                    implies #[trigger] blocks_of_all(out@).contains(v) by {
                    if node_covers(cfg, bb, v) || exists|m: int| 0 <= m < rest@.len() && in_sub(cfg, v, rest@[m]) {
                        assert(blocks_of_all(iv).contains(v));
                    } else {
                        let m = choose|m: int| 0 <= m < merges@.len() && in_sub(cfg, v, merges@[m]);
                        if m < n - 1 {
                            assert(rest@[m] == merges@[m]);
                        }
                        assert(m == n - 1);
                        assert(blocks_of_all(b).contains(v));
                    }
                    lemma_contains_concat(blocks_of_all(a), blocks_of_all(b), v);
                }
            }
            Ok(out)
        },
    }
}

/// Builds the contents of `bb` and what its terminator leads to.
fn do_node(cfg: &Cfg, ctx: &mut Vec<Enclosing>, bb: BasicBlock) -> (r: Result<Vec<Structured>, StructureError>)
    requires
        cfg.wf(),
        reached(bb, cfg.rpo_index@),
    ensures
        final(ctx)@ == old(ctx)@,
        r matches Ok(items) ==> well_built_in(items@, old(ctx)@.len() as int, cfg.rpo_index@),
        r matches Ok(items) ==> fits_body_in(items@, cfg.terms@),
        r matches Ok(items) ==> forall|v: BasicBlock| node_covers(cfg, bb, v) ==> #[trigger] blocks_of_all(items@).contains(v),
        r matches Ok(items) ==> items@.len() > 0 && first_block(items@[0]) == Some(bb),
        match node_failure(cfg, old(ctx)@, bb) {
            Some(b) => r is Err && r->Err_0 == StructureError::NoEnclosingBlock(b),
            None => r is Ok,
        },
    decreases cfg.rank(bb), 1int, 0int,
{
    let ghost d = ctx@.len() as int;
    let ghost idx = cfg.rpo_index@;
    let first = Structured::Simple(bb);
    let mut out = vec![first];
    proof {
        lemma_well_built_push(Seq::empty(), first, d, idx);
        lemma_fits_push(Seq::empty(), first, cfg.terms@);
        assert(out@ =~= Seq::<Structured>::empty().push(first));
    }
    match &cfg.terms[bb.index()] {
        TerminatorKind::Return => {
            let ghost a = out@;
            out.push(Structured::Return);
            proof {
                lemma_well_built_push(a, Structured::Return, d, idx);
                lemma_fits_push(a, Structured::Return, cfg.terms@);
                lemma_blocks_concat(a, seq![Structured::Return]);
                lemma_blocks_one(Structured::Return);
                lemma_blocks_one(Structured::Simple(bb));
                assert(a =~= seq![Structured::Simple(bb)]);
                assert(out@ =~= a + seq![Structured::Return]);
                assert forall|v: BasicBlock| node_covers(cfg, bb, v) implies #[trigger] blocks_of_all(out@).contains(v) by {
                    if v == bb {
                        assert(blocks_of_all(out@)[0] == bb);
                    } else {
                        let c = lemma_covered_child(cfg, bb, v);
                    }
                }
            }
            Ok(out)
        },
        TerminatorKind::Unreachable => {
            let ghost a = out@;
            out.push(Structured::Unreachable);
            proof {
                lemma_well_built_push(a, Structured::Unreachable, d, idx);
                lemma_fits_push(a, Structured::Unreachable, cfg.terms@);
                lemma_blocks_concat(a, seq![Structured::Unreachable]);
                lemma_blocks_one(Structured::Unreachable);
                lemma_blocks_one(Structured::Simple(bb));
                assert(a =~= seq![Structured::Simple(bb)]);
                assert(out@ =~= a + seq![Structured::Unreachable]);
                assert forall|v: BasicBlock| node_covers(cfg, bb, v) implies #[trigger] blocks_of_all(out@).contains(v) by {
                    if v == bb {
                        assert(blocks_of_all(out@)[0] == bb);
                    } else {
                        let c = lemma_covered_child(cfg, bb, v);
                    }
                }
            }
            Ok(out)
        },
        TerminatorKind::Goto { target } => {
            proof {
                assert(flow_graph(cfg.terms@)[bb.0 as int][0] == *target);
            }
            match do_branch(cfg, ctx, bb, *target) {
                Err(e) => Err(e),
                Ok(more) => {
                    let mut more = more;
                    let ghost a = out@;
                    let ghost b = more@;
                    out.append(&mut more);
                    proof {
                        lemma_well_built_concat(a, b, d, idx);
                        lemma_fits_concat(a, b, cfg.terms@);
                        lemma_blocks_concat(a, b);
                        lemma_blocks_one(Structured::Simple(bb));
                        assert(a =~= seq![Structured::Simple(bb)]);
                        assert forall|v: BasicBlock| node_covers(cfg, bb, v) implies #[trigger] blocks_of_all(out@).contains(v) by {
                            if v == bb {
                                assert(blocks_of_all(a)[0] == bb);
                            } else {
                                let c = lemma_covered_child(cfg, bb, v);
                                assert(c == *target);
                            }
                            lemma_contains_concat(blocks_of_all(a), blocks_of_all(b), v);
                        }
                    }
                    Ok(out)
                },
            }
        },
        TerminatorKind::Call { target } => {
            proof {
                assert(flow_graph(cfg.terms@)[bb.0 as int][0] == *target);
            }
            match do_branch(cfg, ctx, bb, *target) {
                Err(e) => Err(e),
                Ok(more) => {
                    let mut more = more;
                    let ghost a = out@;
                    let ghost b = more@;
                    out.append(&mut more);
                    proof {
                        lemma_well_built_concat(a, b, d, idx);
                        lemma_fits_concat(a, b, cfg.terms@);
                        lemma_blocks_concat(a, b);
                        lemma_blocks_one(Structured::Simple(bb));
                        assert(a =~= seq![Structured::Simple(bb)]);
                        assert forall|v: BasicBlock| node_covers(cfg, bb, v) implies #[trigger] blocks_of_all(out@).contains(v) by {
                            if v == bb {
                                assert(blocks_of_all(a)[0] == bb);
                            } else {
                                let c = lemma_covered_child(cfg, bb, v);
                                assert(c == *target);
                            }
                            lemma_contains_concat(blocks_of_all(a), blocks_of_all(b), v);
                        }
                    }
                    Ok(out)
                },
            }
        },
        TerminatorKind::SwitchInt { arms, otherwise } => {
            // A switch of the body always has two ways: the lowering turns
            // `if`, `while` and `match` alike into chains of comparisons of
            // one value. If it ever has more, this becomes a `br_table`.
            proof {
                assert(arms@.len() == 1);
                let succ = flow_graph(cfg.terms@)[bb.0 as int];
                assert(succ == arms@.map_values(|a: (u128, BasicBlock)| a.1).push(*otherwise));
                assert(succ[0] == arms@[0].1);
                assert(succ[1] == *otherwise);
            }
            let ghost c0 = ctx@;
            ctx.push(Enclosing::If);
            let then = do_branch(cfg, ctx, bb, arms[0].1);
            let then = match then {
                Err(e) => {
                    ctx.pop();
                    assert(ctx@ =~= c0);
                    return Err(e);
                },
                Ok(v) => v,
            };
            let els = do_branch(cfg, ctx, bb, *otherwise);
            ctx.pop();
            assert(ctx@ =~= c0);
            match els {
                Err(e) => Err(e),
                Ok(els) => {
                    let ghost tv = then@;
                    let ghost ev = els@;
                    let t = Structured::If { bb, then, els };
                    let ghost a = out@;
                    out.push(t);
                    proof {
                        lemma_well_built_push(a, t, d, idx);
                        lemma_fits_push(a, t, cfg.terms@);
                        lemma_blocks_concat(a, seq![t]);
                        lemma_blocks_one(t);
                        lemma_blocks_one(Structured::Simple(bb));
                        assert(a =~= seq![Structured::Simple(bb)]);
                        assert(out@ =~= a + seq![t]);
                        let bt = blocks_of(t);
                        assert(bt == seq![bb] + blocks_of_all(tv) + blocks_of_all(ev));
                        assert forall|v: BasicBlock| node_covers(cfg, bb, v) implies #[trigger] blocks_of_all(out@).contains(v) by {
                            if v == bb {
                                assert(blocks_of_all(a)[0] == bb);
                            } else {
                                let c = lemma_covered_child(cfg, bb, v);
                                let succ = flow_graph(cfg.terms@)[bb.0 as int];
                                let k = choose|k: int| 0 <= k < succ.len() && succ[k] == c;
                                if k == 0 {
                                    assert(blocks_of_all(tv).contains(v));
                                    lemma_contains_concat(seq![bb], blocks_of_all(tv), v);
                                } else {
                                    assert(k == 1);
                                    assert(blocks_of_all(ev).contains(v));
                                }
                                lemma_contains_concat(seq![bb] + blocks_of_all(tv), blocks_of_all(ev), v);
                            }
                            lemma_contains_concat(blocks_of_all(a), bt, v);
                        }
                    }
                    Ok(out)
                },
            }
        },
    }
}

/// Builds the edge from `from` to `to`: a branch back to a loop header,
/// or to a merge point, is a `br` to the enclosing construct; any other
/// successor is built in place.
fn do_branch(cfg: &Cfg, ctx: &mut Vec<Enclosing>, from: BasicBlock, to: BasicBlock) -> (r: Result<Vec<Structured>, StructureError>)
    requires
        cfg.wf(),
        reached(from, cfg.rpo_index@),
        to.0 < cfg.n(),
    ensures
        final(ctx)@ == old(ctx)@,
        r matches Ok(items) ==> well_built_in(items@, old(ctx)@.len() as int, cfg.rpo_index@),
        r matches Ok(items) ==> fits_body_in(items@, cfg.terms@),
        r matches Ok(items) ==> (child_below(cfg, from, to) ==> forall|v: BasicBlock| in_sub(cfg, v, to) ==> #[trigger] blocks_of_all(items@).contains(v)),
        r matches Ok(items) ==> enters(items@, to),
        match branch_failure_from(cfg, old(ctx)@, from, to) {
            Some(b) => r is Err && r->Err_0 == StructureError::NoEnclosingBlock(b),
            None => r is Ok,
        },
    decreases cfg.rank(from), 0int, 0int,
{
    proof {
        assert(idom_closed(cfg.idom@));
        lemma_order_injective(cfg.rpo@, cfg.rpo_index@, cfg.preds@, cfg.n());
    }
    let backward = dominates(to, from, &cfg.idom);
    if backward || cfg.is_merge(to) {
        proof {
            if child_below(cfg, from, to) {
                lemma_child_not_back(cfg, from, to);
            }
        }
        return branch_to_enclosing(ctx, to, Ghost(cfg.rpo_index@));
    }
    // `to` has one reached predecessor, `from`, which is then its
    // immediate dominator: it is built in place, below `from` in the
    // dominator tree.
    let below = match cfg.idom[to.index()] {
        Some(p) => p == from,
        None => false,
    };
    if below {
        proof {
            assert(1 <= to.0) by {
                if to.0 == 0 {
                    assert(cfg.idom@[0] is None);
                }
            }
        }
        do_tree(cfg, ctx, to)
    } else {
        branch_to_enclosing(ctx, to, Ghost(cfg.rpo_index@))
    }
}

/// `b` is a successor of a block that can be reached from the entry.
pub open spec fn entered_from_reachable(terms: Seq<TerminatorKind>, b: BasicBlock) -> bool {
    exists|u: BasicBlock| reachable(flow_graph(terms), u) && u.0 < terms.len() && #[trigger] flow_graph(terms)[u.0 as int].contains(b)
}

/// Structures the control-flow graph of one function, given the
/// terminator of each block (the entry first).
///
/// Every `br` of the tree stays inside its enclosing constructs, so the
/// tree passes [`check_branch_depths`]; the blocks in it are exactly those
/// that can be reached from the entry. Each `if` comes from a switch of
/// two ways, and its `then` goes to the block taken when the value
/// matches the switch's one value, its `else` to `otherwise` (see
/// [`fits_body`]). An error names a block that an edge from a reachable
/// block enters.
pub fn structure(terms: &[TerminatorKind]) -> (r: Result<Structured, StructureError>)
    requires
        body_ok(terms@),
    ensures
        r matches Ok(t) ==> first_bad_br(t, 0) is None,
        r matches Ok(t) ==> forall|i: int| 0 <= i < blocks_of(t).len() ==> reachable(flow_graph(terms@), #[trigger] blocks_of(t)[i]),
        r matches Ok(t) ==> fits_body(t, terms@),
        r matches Ok(t) ==> forall|b: BasicBlock| reachable(flow_graph(terms@), b) ==> #[trigger] blocks_of(t).contains(b),
        r matches Err(StructureError::Irreducible(b)) ==> entered_from_reachable(terms@, b),
        r matches Err(StructureError::NoEnclosingBlock(b)) ==> entered_from_reachable(terms@, b),
{
    let cfg = Cfg::of(terms);
    match cfg.check_reducible() {
        Err(e) => {
            proof {
                let (i, k) = choose|i: int, k: int| {
                    &&& cfg.is_edge(i, k)
                    &&& #[trigger] cfg.bad_edge(i, k)
                    &&& e == StructureError::Irreducible(cfg.succs@[i]@[k])
                };
                lemma_order_injective(cfg.rpo@, cfg.rpo_index@, cfg.preds@, cfg.n());
                let u = BasicBlock(i as u32);
                assert(cfg.rpo@[cfg.rpo_index@[i] as int] == u);
                assert(cfg.rpo@.contains(u));
                assert(flow_graph(terms@)[u.0 as int][k] == cfg.succs@[i]@[k]);
                assert(flow_graph(terms@)[u.0 as int].contains(cfg.succs@[i]@[k]));
            }
            return Err(e);
        },
        Ok(()) => {},
    }
    proof {
        lemma_order_injective(cfg.rpo@, cfg.rpo_index@, cfg.preds@, cfg.n());
    }
    let mut ctx: Vec<Enclosing> = Vec::new();
    let entry = BasicBlock::start();
    match do_tree(&cfg, &mut ctx, entry) {
        Err(e) => {
            proof {
                lemma_tree_failure_entered(&cfg, Seq::empty(), entry);
                let b = tree_failure(&cfg, Seq::empty(), entry)->0;
                let u = choose|u: BasicBlock| reached(u, cfg.rpo_index@) && u.0 < cfg.n() && #[trigger] flow_graph(cfg.terms@)[u.0 as int].contains(b);
                lemma_order_injective(cfg.rpo@, cfg.rpo_index@, cfg.preds@, cfg.n());
                assert(cfg.rpo@[cfg.rpo_index@[u.0 as int] as int] == BasicBlock(u.0 as u32));
                assert(BasicBlock(u.0 as u32) == u);
                assert(cfg.rpo@.contains(u));
            }
            Err(e)
        },
        Ok(items) => {
            let t = Structured::Block(items);
            proof {
                let idx = cfg.rpo_index@;
                assert(well_built(t, -1, idx));
                lemma_well_built_mono(t, -1, 0, idx);
                lemma_well_built_sound(t, 0, idx);
                assert forall|i: int| 0 <= i < blocks_of(t).len() implies reachable(flow_graph(terms@), #[trigger] blocks_of(t)[i]) by {
                    let b = blocks_of(t)[i];
                    assert(reached(b, idx));
                    assert(cfg.rpo@.contains(b)) by {
                        assert(cfg.rpo@[idx[b.0 as int] as int] == BasicBlock(b.0 as u32));
                    }
                }
                assert(entry == BasicBlock(0));
                assert forall|b: BasicBlock| reachable(flow_graph(terms@), b) implies #[trigger] blocks_of(t).contains(b) by {
                    assert(cfg.rpo@.contains(b));
                    let i = choose|i: int| 0 <= i < cfg.rpo@.len() && cfg.rpo@[i] == b;
                    assert(idx[cfg.rpo@[i].0 as int] == i);
                    assert(reached(b, idx));
                    lemma_below_entry(&cfg, b);
                    assert(in_sub(&cfg, b, entry));
                    assert(blocks_of_all(items@).contains(b));
                    assert(blocks_of(t) == blocks_of_all(items@));
                }
            }
            Ok(t)
        },
    }
}

} // verus!
