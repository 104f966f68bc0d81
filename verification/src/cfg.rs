//! The control flow graph of a scheduling function, reduced to its shape: which
//! block ids exist and where each block's terminator edge leads; and the
//! removal of nested blocks from statements before blocks are built.
use vstd::prelude::*;

use crate::ast::SchedStmt;

verus! {

/// The id of the final block of a canonical CFG (one entry and one exit).
pub const FINAL_BLOCK_ID: usize = 0;

/// The id of the entry block of a canonical CFG.
pub const START_BLOCK_ID: usize = 1;

/// An edge in the CFG.
#[derive(Clone, Copy, Debug, PartialEq, Eq, Structural)]
pub enum Edge {
    Next(usize),
    Select { true_branch: usize, false_branch: usize },
    End,
}

/// The blocks an edge leads to, in order.
pub open spec fn edge_targets(e: Edge) -> Seq<usize> {
    match e {
        Edge::Next(id) => seq![id],
        Edge::Select { true_branch, false_branch } => seq![true_branch, false_branch],
        Edge::End => seq![],
    }
}

impl Edge {
    /// The block ids this edge leads to.
    pub fn targets(&self) -> (res: Vec<usize>)
        ensures
            res@ == edge_targets(*self),
    {
        match self {
            Edge::Next(id) => {
                let mut v = Vec::new();
                v.push(*id);
                v
            },
            Edge::Select { true_branch, false_branch } => {
                let mut v = Vec::new();
                v.push(*true_branch);
                v.push(*false_branch);
                v
            },
            Edge::End => Vec::new(),
        }
    }

    /// The single target of an unconditional edge.
    pub fn next(&self) -> (res: Option<usize>)
        ensures
            res == (match *self {
                Edge::Next(id) => Some(id),
                _ => None,
            }),
    {
        match self {
            Edge::Next(id) => Some(*id),
            _ => None,
        }
    }
}

/// The shape of a CFG: `edges[id]` is the terminator edge of block `id`, or
/// `None` when there is no block with that id.
pub struct FlowGraph {
    pub edges: Vec<Option<Edge>>,
}

/// A directed graph over block ids `0..adj.len()`: `present[b]` tells whether
/// block `b` exists and `adj[b]` lists the blocks it points to.
pub struct BlockGraph {
    pub present: Vec<bool>,
    pub adj: Vec<Vec<usize>>,
}

/// Every edge of the graph joins existing blocks, and missing blocks have no edges.
pub open spec fn graph_wf(present: Seq<bool>, adj: Seq<Seq<usize>>) -> bool {
    &&& present.len() == adj.len()
    &&& forall|b: int, i: int|
        0 <= b < adj.len() && 0 <= i < adj[b].len() ==> #[trigger] adj[b][i] < adj.len()
            && present[adj[b][i] as int]
    &&& forall|b: int| 0 <= b < adj.len() && !present[b] ==> #[trigger] adj[b].len() == 0
}

impl BlockGraph {
    pub open spec fn wf(&self) -> bool {
        graph_wf(self.present@, self.adj@.map_values(|v: Vec<usize>| v@))
    }

    /// The adjacency lists as sequences.
    pub open spec fn adjs(&self) -> Seq<Seq<usize>> {
        self.adj@.map_values(|v: Vec<usize>| v@)
    }
}

impl FlowGraph {
    /// Every edge leads to an existing block.
    pub open spec fn wf(&self) -> bool {
        forall|b: int, i: int|
            0 <= b < self.edges@.len() && self.edges@[b] is Some && 0 <= i < edge_targets(
                self.edges@[b]->0,
            ).len() ==> #[trigger] edge_targets(self.edges@[b]->0)[i] < self.edges@.len()
                && self.edges@[edge_targets(self.edges@[b]->0)[i] as int] is Some
    }

    /// Whether block `b` exists.
    pub open spec fn has_block(&self, b: int) -> bool {
        0 <= b < self.edges@.len() && self.edges@[b] is Some
    }

    /// The successors of each block.
    pub fn successors(&self) -> (res: BlockGraph)
        requires
            self.wf(),
        ensures
            res.wf(),
            res.present@.len() == self.edges@.len(),
            forall|b: int| 0 <= b < self.edges@.len() ==> #[trigger] res.present@[b] == self.has_block(b),
            forall|b: int|
                0 <= b < self.edges@.len() ==> #[trigger] res.adj@[b]@ == (match self.edges@[b] {
                    Some(e) => edge_targets(e),
                    None => seq![],
                }),
    {
        let mut present: Vec<bool> = Vec::new();
        let mut adj: Vec<Vec<usize>> = Vec::new();
        let mut b: usize = 0;
        while b < self.edges.len()
            invariant
                self.wf(),
                b <= self.edges@.len(),
                present@.len() == b,
                adj@.len() == b,
                forall|c: int| 0 <= c < b ==> #[trigger] present@[c] == self.has_block(c),
                forall|c: int|
                    0 <= c < b ==> #[trigger] adj@[c]@ == (match self.edges@[c] {
                        Some(e) => edge_targets(e),
                        None => seq![],
                    }),
            decreases self.edges@.len() - b,
        {
            match &self.edges[b] {
                Some(e) => {
                    present.push(true);
                    adj.push(e.targets());
                },
                None => {
                    present.push(false);
                    adj.push(Vec::new());
                },
            }
            b += 1;
        }
        let res = BlockGraph { present, adj };
        proof {
            assert forall|c: int, i: int|
                0 <= c < res.adjs().len() && 0 <= i < res.adjs()[c].len() implies #[trigger] res.adjs()[c][i]
                < res.adjs().len() && res.present@[res.adjs()[c][i] as int] by {
                assert(res.adjs()[c] == res.adj@[c]@);
                assert(edge_targets(self.edges@[c]->0)[i] == res.adjs()[c][i]);
            }
            assert forall|c: int| 0 <= c < res.adjs().len() && !res.present@[c] implies #[trigger] res.adjs()[c].len() == 0 by {
                assert(res.adjs()[c] == res.adj@[c]@);
            }
        }
        res
    }

    /// The predecessors of each block, each list in ascending order without repeats.
    pub fn transpose(&self) -> (res: BlockGraph)
        requires
            self.wf(),
        ensures
            res.wf(),
            res.present@.len() == self.edges@.len(),
            forall|b: int| 0 <= b < self.edges@.len() ==> #[trigger] res.present@[b] == self.has_block(b),
            forall|t: int, p: usize|
                0 <= t < self.edges@.len() ==> (#[trigger] res.adj@[t]@.contains(p) <==> (
                self.has_block(p as int) && edge_targets(self.edges@[p as int]->0).contains(t as usize))),
            forall|t: int, i: int, j: int|
                0 <= t < self.edges@.len() && 0 <= i < j < res.adj@[t]@.len()
                    ==> #[trigger] res.adj@[t]@[i] < #[trigger] res.adj@[t]@[j],
    {
        let n = self.edges.len();
        let mut present: Vec<bool> = Vec::new();
        let mut adj: Vec<Vec<usize>> = Vec::new();
        let mut b: usize = 0;
        while b < n
            invariant
                n == self.edges@.len(),
                b <= n,
                present@.len() == b,
                adj@.len() == b,
                forall|c: int| 0 <= c < b ==> #[trigger] present@[c] == self.has_block(c),
                forall|c: int| 0 <= c < b ==> #[trigger] adj@[c]@.len() == 0,
            decreases n - b,
        {
            present.push(self.edges[b].is_some());
            adj.push(Vec::new());
            b += 1;
        }
        let mut id: usize = 0;
        while id < n
            invariant
                self.wf(),
                n == self.edges@.len(),
                id <= n,
                present@.len() == n,
                adj@.len() == n,
                forall|c: int| 0 <= c < n ==> #[trigger] present@[c] == self.has_block(c),
                forall|t: int, p: usize|
                    0 <= t < n ==> (#[trigger] adj@[t]@.contains(p) <==> (0 <= p < id
                        && self.has_block(p as int) && edge_targets(self.edges@[p as int]->0).contains(
                        t as usize,
                    ))),
                forall|t: int, i: int, j: int|
                    0 <= t < n && 0 <= i < j < adj@[t]@.len() ==> #[trigger] adj@[t]@[i]
                        < #[trigger] adj@[t]@[j],
                forall|t: int, i: int| 0 <= t < n && 0 <= i < adj@[t]@.len() ==> #[trigger] adj@[t]@[i] < id,
            decreases n - id,
        {
            match &self.edges[id] {
                Some(e) => {
                    let targets = e.targets();
                    let mut k: usize = 0;
                    while k < targets.len()
                        invariant
                            self.wf(),
                            n == self.edges@.len(),
                            id < n,
                            self.edges@[id as int] == Some(*e),
                            targets@ == edge_targets(*e),
                            k <= targets@.len(),
                            present@.len() == n,
                            adj@.len() == n,
                            forall|c: int| 0 <= c < n ==> #[trigger] present@[c] == self.has_block(c),
                            forall|t: int, p: usize|
                                0 <= t < n ==> (#[trigger] adj@[t]@.contains(p) <==> ((0 <= p
                                    < id && self.has_block(p as int) && edge_targets(
                                    self.edges@[p as int]->0,
                                ).contains(t as usize)) || (p == id && targets@.take(
                                    k as int,
                                ).contains(t as usize)))),
                            forall|t: int, i: int, j: int|
                                0 <= t < n && 0 <= i < j < adj@[t]@.len() ==> #[trigger] adj@[t]@[i]
                                    < #[trigger] adj@[t]@[j],
                            forall|t: int, i: int|
                                0 <= t < n && 0 <= i < adj@[t]@.len() ==> #[trigger] adj@[t]@[i] <= id,
                        decreases targets@.len() - k,
                    {
                        let t = targets[k];
                        proof {
                            assert(edge_targets(self.edges@[id as int]->0)[k as int] == t);
                        }
                        let ghost old_adj = adj@;
                        assert(targets@.take(k + 1)[k as int] == t);
                        let len = adj[t].len();
                        if len > 0 && adj[t][len - 1] == id {
                            proof {
                                assert(adj@[t as int]@.contains(id));
                                assert forall|tt: int, p: usize|
                                    0 <= tt < n implies (#[trigger] adj@[tt]@.contains(p) <==> ((0
                                        <= p < id && self.has_block(p as int) && edge_targets(
                                        self.edges@[p as int]->0,
                                    ).contains(tt as usize)) || (p == id && targets@.take(
                                        k + 1,
                                    ).contains(tt as usize)))) by {
                                    if p == id {
                                        if targets@.take(k + 1).contains(tt as usize) {
                                            let w = choose|w: int| 0 <= w < k + 1 && #[trigger] targets@.take(k + 1)[w] == tt as usize;
                                            if w < k {
                                                assert(targets@.take(k as int)[w] == tt as usize);
                                            }
                                        }
                                        if targets@.take(k as int).contains(tt as usize) {
                                            let w = choose|w: int| 0 <= w < k && #[trigger] targets@.take(k as int)[w] == tt as usize;
                                            assert(targets@.take(k + 1)[w] == tt as usize);
                                        }
                                    }
                                }
                            }
                        } else {
                            let mut row = Vec::new();
                            std::mem::swap(&mut row, &mut adj[t]);
                            row.push(id);
                            adj.set(t, row);
                            proof {
                                assert forall|tt: int, p: usize|
                                    0 <= tt < n implies (#[trigger] adj@[tt]@.contains(p) <==> ((0
                                        <= p < id && self.has_block(p as int) && edge_targets(
                                        self.edges@[p as int]->0,
                                    ).contains(tt as usize)) || (p == id && targets@.take(
                                        k + 1,
                                    ).contains(tt as usize)))) by {
                                    if tt == t {
                                        assert(adj@[tt]@ == old_adj[tt]@.push(id));
                                        if adj@[tt]@.contains(p) {
                                            let w = choose|w: int| 0 <= w < adj@[tt]@.len() && #[trigger] adj@[tt]@[w] == p as usize;
                                            if w < old_adj[tt]@.len() {
                                                assert(old_adj[tt]@[w] == p as usize);
                                            }
                                        }
                                        if old_adj[tt]@.contains(p) {
                                            let w = choose|w: int| 0 <= w < old_adj[tt]@.len() && #[trigger] old_adj[tt]@[w] == p as usize;
                                            assert(adj@[tt]@[w] == p as usize);
                                        }
                                        assert(adj@[tt]@[adj@[tt]@.len() - 1] == id);
                                        if p == id {
                                            assert(targets@.take(k + 1)[k as int] == tt as usize);
                                        }
                                    } else {
                                        assert(adj@[tt] == old_adj[tt]);
                                    }
                                    if p == id {
                                        if targets@.take(k + 1).contains(tt as usize) {
                                            let w = choose|w: int| 0 <= w < k + 1 && #[trigger] targets@.take(k + 1)[w] == tt as usize;
                                            if w < k {
                                                assert(targets@.take(k as int)[w] == tt as usize);
                                            }
                                        }
                                        if targets@.take(k as int).contains(tt as usize) {
                                            let w = choose|w: int| 0 <= w < k && #[trigger] targets@.take(k as int)[w] == tt as usize;
                                            assert(targets@.take(k + 1)[w] == tt as usize);
                                        }
                                    }
                                }
                                assert forall|tt: int, i: int, j: int|
                                    0 <= tt < n && 0 <= i < j < adj@[tt]@.len() implies #[trigger] adj@[tt]@[i]
                                    < #[trigger] adj@[tt]@[j] by {
                                    if tt == t && j == adj@[tt]@.len() - 1 {
                                        assert(old_adj[tt]@[i] <= id);
                                        assert(old_adj[tt]@[i] != id) by {
                                            if old_adj[tt]@[i] == id {
                                                assert(old_adj[tt]@.len() > 0);
                                                let l = old_adj[tt]@.len() - 1;
                                                if i < l {
                                                    assert(old_adj[tt]@[i] < old_adj[tt]@[l]);
                                                }
                                            }
                                        }
                                    }
                                }
                            }
                        }
                        k += 1;
                    }
                    proof {
                        assert(targets@.take(targets@.len() as int) =~= targets@);
                    }
                },
                None => {},
            }
            id += 1;
        }
        let res = BlockGraph { present, adj };
        proof {
            assert forall|c: int, i: int|
                0 <= c < res.adjs().len() && 0 <= i < res.adjs()[c].len() implies #[trigger] res.adjs()[c][i]
                < res.adjs().len() && res.present@[res.adjs()[c][i] as int] by {
                assert(res.adjs()[c] == res.adj@[c]@);
                let p = res.adj@[c]@[i];
                assert(res.adj@[c]@.contains(p));
            }
            assert forall|c: int| 0 <= c < res.adjs().len() && !res.present@[c] implies #[trigger] res.adjs()[c].len() == 0 by {
                assert(res.adjs()[c] == res.adj@[c]@);
                if res.adj@[c]@.len() > 0 {
                    let p = res.adj@[c]@[0];
                    assert(res.adj@[c]@.contains(p));
                    assert(edge_targets(self.edges@[p as int]->0).contains(c as usize));
                    let w = choose|w: int| 0 <= w < edge_targets(self.edges@[p as int]->0).len() && #[trigger] edge_targets(self.edges@[p as int]->0)[w] == c as usize;
                }
            }
        }
        res
    }
}

/// The statements can have their nested blocks removed: the body of each
/// sequence is an `if`, or a block that ends in a return.
pub open spec fn unblock_ok(st: SchedStmt) -> bool
    decreases st, 0int,
{
    match st {
        SchedStmt::Block(_, ss) => unblock_list_ok(ss@),
        SchedStmt::If { true_block, false_block, .. } => unblock_list_ok(true_block@) && unblock_list_ok(
            false_block@,
        ),
        SchedStmt::Sequence { block, .. } => match *block {
            SchedStmt::Block(_, ss) => ss@.len() > 0 && ss@.last() is Return && unblock_list_ok(ss@.drop_last()),
            SchedStmt::If { true_block, false_block, .. } => unblock_list_ok(true_block@) && unblock_list_ok(
                false_block@,
            ),
            _ => false,
        },
        _ => true,
    }
}

/// Each statement of `s` can have its nested blocks removed.
pub open spec fn unblock_list_ok(s: Seq<SchedStmt>) -> bool
    decreases s, 1int,
{
    if s.len() == 0 {
        true
    } else {
        unblock_list_ok(s.drop_last()) && unblock_ok(s.last())
    }
}

/// The number of statements the statement `st` becomes once nested blocks are removed.
pub open spec fn unblock_len(st: SchedStmt) -> nat
    decreases st, 0int,
{
    match st {
        SchedStmt::Block(_, ss) => unblock_lens(ss@),
        SchedStmt::Sequence { block, .. } => match *block {
            SchedStmt::Block(_, ss) => if ss@.len() > 0 {
                unblock_lens(ss@.drop_last()) + 1
            } else {
                0
            },
            _ => 1,
        },
        _ => 1,
    }
}

/// The number of statements the statements `s` become once nested blocks are removed.
pub open spec fn unblock_lens(s: Seq<SchedStmt>) -> nat
    decreases s, 1int,
{
    if s.len() == 0 {
        0
    } else {
        unblock_lens(s.drop_last()) + unblock_len(s.last())
    }
}

/// Removing the nested blocks of `st` gives `out`: a block is replaced by its
/// statements, `if`s keep their shape, and a sequence whose body is a block
/// becomes the statements of the block, its return turned into a declaration
/// of the sequence's destinations.
pub open spec fn unblocked(st: SchedStmt, out: Seq<SchedStmt>) -> bool
    decreases st, 0int,
{
    match st {
        SchedStmt::Block(_, ss) => unblocked_list(ss@, out),
        SchedStmt::If { info, guard, tag, true_block, false_block } => {
            &&& out.len() == 1
            &&& out[0] matches SchedStmt::If { info: i, guard: g, tag: t, true_block: tb, false_block: fb }
            &&& i == info
            &&& g == guard
            &&& t == tag
            &&& unblocked_list(true_block@, tb@)
            &&& unblocked_list(false_block@, fb@)
        },
        SchedStmt::Sequence { info, dests, block, is_const } => match *block {
            SchedStmt::Block(_, ss) => {
                let k = ss@.len() - 1;
                &&& ss@.len() > 0
                &&& ss@[k] matches SchedStmt::Return(ri, e)
                &&& out.len() == unblock_lens(ss@.drop_last()) + 1
                &&& unblocked_list(ss@.drop_last(), out.drop_last())
                &&& out.last() == SchedStmt::Decl { info: ri, lhs: dests, is_const, expr: Some(e) }
            },
            SchedStmt::If { info: if_info, guard, tag, true_block, false_block } => {
                &&& out.len() == 1
                &&& out[0] matches SchedStmt::Sequence { info: i, dests: d, block: b, is_const: k }
                &&& i == info
                &&& d == dests
                &&& k == is_const
                &&& *b matches SchedStmt::If { info: i2, guard: g, tag: t, true_block: tb, false_block: fb }
                &&& i2 == if_info
                &&& g == guard
                &&& t == tag
                &&& unblocked_list(true_block@, tb@)
                &&& unblocked_list(false_block@, fb@)
            },
            _ => false,
        },
        _ => out == seq![st],
    }
}

/// Removing the nested blocks of the statements `s` in order gives `out`.
pub open spec fn unblocked_list(s: Seq<SchedStmt>, out: Seq<SchedStmt>) -> bool
    decreases s, 1int,
{
    if s.len() == 0 {
        out.len() == 0
    } else {
        let p = unblock_lens(s.drop_last()) as int;
        &&& out.len() == p + unblock_len(s.last())
        &&& unblocked_list(s.drop_last(), out.take(p))
        &&& unblocked(s.last(), out.skip(p))
    }
}

/// Each statement of a list whose nested blocks can be removed can have them removed.
proof fn lemma_unblock_list_ok(s: Seq<SchedStmt>)
    requires
        unblock_list_ok(s),
    ensures
        forall|j: int| 0 <= j < s.len() ==> unblock_ok(#[trigger] s[j]),
    decreases s.len(),
{
    if s.len() > 0 {
        lemma_unblock_list_ok(s.drop_last());
        assert forall|j: int| 0 <= j < s.len() implies unblock_ok(#[trigger] s[j]) by {
            if j < s.len() - 1 {
                assert(s.drop_last()[j] == s[j]);
            }
        }
    }
}

/// Removes the nested blocks of one statement.
fn unblock_stmt(st: SchedStmt) -> (res: Vec<SchedStmt>)
    requires
        unblock_ok(st),
    ensures
        res@.len() == unblock_len(st),
        unblocked(st, res@),
    decreases st, 0int,
{
    match st {
        SchedStmt::Block(_, ss) => flatten_stmts(ss),
        SchedStmt::If { info, guard, tag, true_block, false_block } => {
            let tb = flatten_stmts(true_block);
            let fb = flatten_stmts(false_block);
            let mut out: Vec<SchedStmt> = Vec::new();
            out.push(SchedStmt::If { info, guard, tag, true_block: tb, false_block: fb });
            out
        },
        SchedStmt::Sequence { info, dests, block, is_const } => match *block {
            SchedStmt::Block(_, ss) => {
                let (mut out, last) = unblock_list(ss, true);
                match last {
                    Some(SchedStmt::Return(ri, e)) => {
                        let ghost o0 = out@;
                        out.push(SchedStmt::Decl { info: ri, lhs: dests, is_const, expr: Some(e) });
                        assert(out@.drop_last() =~= o0);
                        out
                    },
                    _ => {
                        proof {
                            assert(false);
                        }
                        Vec::new()
                    },
                }
            },
            SchedStmt::If { info: if_info, guard, tag, true_block, false_block } => {
                let tb = flatten_stmts(true_block);
                let fb = flatten_stmts(false_block);
                let the_if = SchedStmt::If { info: if_info, guard, tag, true_block: tb, false_block: fb };
                let mut out: Vec<SchedStmt> = Vec::new();
                out.push(SchedStmt::Sequence { info, dests, block: Box::new(the_if), is_const });
                out
            },
            _ => {
                proof {
                    assert(false);
                }
                Vec::new()
            },
        },
        other => {
            let mut out: Vec<SchedStmt> = Vec::new();
            out.push(other);
            assert(out@ =~= seq![out@[0]]);
            out
        },
    }
}

/// Removes the nested blocks of the statements of `stmts`, all of them or all
/// but the last, which then comes back as it is.
fn unblock_list(stmts: Vec<SchedStmt>, keep_last: bool) -> (res: (Vec<SchedStmt>, Option<SchedStmt>))
    requires
        keep_last ==> stmts@.len() > 0 && unblock_list_ok(stmts@.drop_last()),
        !keep_last ==> unblock_list_ok(stmts@),
    ensures
        keep_last ==> res.0@.len() == unblock_lens(stmts@.drop_last()) && unblocked_list(stmts@.drop_last(), res.0@)
            && res.1 == Some(stmts@.last()),
        !keep_last ==> res.0@.len() == unblock_lens(stmts@) && unblocked_list(stmts@, res.0@) && res.1 is None,
    decreases stmts, 1int,
{
    let ghost v0 = stmts;
    let ghost orig = stmts@;
    let ghost todo = if keep_last {
        orig.drop_last()
    } else {
        orig
    };
    proof {
        lemma_unblock_list_ok(todo);
        assert(todo.take(0) =~= Seq::<SchedStmt>::empty());
    }
    let stop: usize = if keep_last {
        1
    } else {
        0
    };
    let len = stmts.len();
    let mut rest = stmts;
    let mut res: Vec<SchedStmt> = Vec::new();
    let mut i: usize = 0;
    while rest.len() > stop
        invariant
            v0 == stmts,
            orig == v0@,
            len == orig.len(),
            keep_last ==> stop == 1,
            !keep_last ==> stop == 0,
            todo.len() + stop == orig.len(),
            i <= todo.len(),
            forall|j: int| 0 <= j < todo.len() ==> todo[j] == orig[j],
            i + rest@.len() == orig.len(),
            rest@ == orig.skip(i as int),
            forall|j: int| 0 <= j < todo.len() ==> unblock_ok(#[trigger] todo[j]),
            res@.len() == unblock_lens(todo.take(i as int)),
            unblocked_list(todo.take(i as int), res@),
        decreases rest@.len(),
    {
        let st = rest.remove(0);
        assert(st == orig[i as int]);
        assert(st == todo[i as int]);
        let ghost old_res = res@;
        proof {
            assert(decreases_to!(v0 => v0@[i as int]));
            assert(todo.take(i + 1).drop_last() =~= todo.take(i as int));
            assert(todo.take(i + 1).last() == st);
        }
        let mut piece = unblock_stmt(st);
        let ghost ps = piece@;
        res.append(&mut piece);
        proof {
            assert(res@.take(old_res.len() as int) =~= old_res);
            assert(res@.skip(old_res.len() as int) =~= ps);
        }
        i += 1;
    }
    assert(todo.take(i as int) =~= todo);
    if keep_last {
        assert(rest@.len() == 1 && rest@[0] == orig.last());
        let last = rest.pop();
        (res, last)
    } else {
        (res, None)
    }
}

/// Removes all blocks from a list of statements: a block is replaced by its
/// statements, at any depth, and a sequence whose body is a block becomes the
/// block's statements followed by a declaration of the returned value.
pub fn flatten_stmts(stmts: Vec<SchedStmt>) -> (res: Vec<SchedStmt>)
    requires
        unblock_list_ok(stmts@),
    ensures
        res@.len() == unblock_lens(stmts@),
        unblocked_list(stmts@, res@),
        list_no_blocks(res@),
    decreases stmts, 2int,
{
    let ghost s0 = stmts@;
    let (out, _) = unblock_list(stmts, false);
    proof {
        law_flatten_stmts_no_blocks(s0, out@);
    }
    out
}

/// The statement holds no block, at any depth.
pub open spec fn no_blocks(st: SchedStmt) -> bool
    decreases st, 0int,
{
    match st {
        SchedStmt::Block(..) => false,
        SchedStmt::If { true_block, false_block, .. } => list_no_blocks(true_block@) && list_no_blocks(false_block@),
        SchedStmt::Sequence { block, .. } => no_blocks(*block),
        _ => true,
    }
}

/// The statements hold no block, at any depth.
pub open spec fn list_no_blocks(s: Seq<SchedStmt>) -> bool
    decreases s, 1int,
{
    if s.len() == 0 {
        true
    } else {
        list_no_blocks(s.drop_last()) && no_blocks(s.last())
    }
}

/// A list holds no block exactly when none of its statements does.
proof fn lemma_list_no_blocks(s: Seq<SchedStmt>)
    ensures
        list_no_blocks(s) <==> forall|j: int| 0 <= j < s.len() ==> no_blocks(#[trigger] s[j]),
    decreases s.len(),
{
    if s.len() > 0 {
        lemma_list_no_blocks(s.drop_last());
        if forall|j: int| 0 <= j < s.len() ==> no_blocks(#[trigger] s[j]) {
            assert forall|j: int| 0 <= j < s.drop_last().len() implies no_blocks(#[trigger] s.drop_last()[j]) by {
                assert(s.drop_last()[j] == s[j]);
            }
        }
        if list_no_blocks(s) {
            assert forall|j: int| 0 <= j < s.len() implies no_blocks(#[trigger] s[j]) by {
                if j < s.len() - 1 {
                    assert(s.drop_last()[j] == s[j]);
                }
            }
        }
    }
}

/// Removing the nested blocks of a statement leaves no block.
proof fn lemma_unblocked_no_blocks(st: SchedStmt, out: Seq<SchedStmt>)
    requires
        unblocked(st, out),
    ensures
        forall|j: int| 0 <= j < out.len() ==> no_blocks(#[trigger] out[j]),
    decreases st, 0int,
{
    match st {
        SchedStmt::Block(_, ss) => {
            lemma_unblocked_list_no_blocks(ss@, out);
        },
        SchedStmt::If { true_block, false_block, .. } => {
            lemma_unblocked_list_no_blocks(true_block@, out[0]->If_true_block@);
            lemma_unblocked_list_no_blocks(false_block@, out[0]->If_false_block@);
            lemma_list_no_blocks(out[0]->If_true_block@);
            lemma_list_no_blocks(out[0]->If_false_block@);
            assert(no_blocks(out[0]));
        },
        SchedStmt::Sequence { block, .. } => match *block {
            SchedStmt::Block(_, ss) => {
                lemma_unblocked_list_no_blocks(ss@.drop_last(), out.drop_last());
                assert forall|j: int| 0 <= j < out.len() implies no_blocks(#[trigger] out[j]) by {
                    if j < out.len() - 1 {
                        assert(out.drop_last()[j] == out[j]);
                    }
                }
            },
            SchedStmt::If { true_block, false_block, .. } => {
                let b = *out[0]->Sequence_block;
                lemma_unblocked_list_no_blocks(true_block@, b->If_true_block@);
                lemma_unblocked_list_no_blocks(false_block@, b->If_false_block@);
                lemma_list_no_blocks(b->If_true_block@);
                lemma_list_no_blocks(b->If_false_block@);
                assert(no_blocks(b));
                assert(no_blocks(out[0]));
            },
            _ => {},
        },
        _ => {
            assert(out[0] == st);
        },
    }
}

/// The list form of `lemma_unblocked_no_blocks`.
proof fn lemma_unblocked_list_no_blocks(s: Seq<SchedStmt>, out: Seq<SchedStmt>)
    requires
        unblocked_list(s, out),
    ensures
        forall|j: int| 0 <= j < out.len() ==> no_blocks(#[trigger] out[j]),
    decreases s, 1int,
{
    if s.len() > 0 {
        let p = unblock_lens(s.drop_last()) as int;
        lemma_unblocked_list_no_blocks(s.drop_last(), out.take(p));
        lemma_unblocked_no_blocks(s.last(), out.skip(p));
        assert forall|j: int| 0 <= j < out.len() implies no_blocks(#[trigger] out[j]) by {
            if j < p {
                assert(out.take(p)[j] == out[j]);
            } else {
                assert(out.skip(p)[j - p] == out[j]);
            }
        }
    }
}

/// Once nested blocks are removed, no block is left, at any depth.
pub proof fn law_flatten_stmts_no_blocks(s: Seq<SchedStmt>, out: Seq<SchedStmt>)
    requires
        unblocked_list(s, out),
    ensures
        list_no_blocks(out),
{
    lemma_unblocked_list_no_blocks(s, out);
    lemma_list_no_blocks(out);
}

/// Two statements are the same, comparing the statements of `if` branches and
/// sequence bodies by their contents.
pub open spec fn same_stmt(a: SchedStmt, b: SchedStmt) -> bool
    decreases a, 0int,
{
    match a {
        SchedStmt::If { info, guard, tag, true_block, false_block } => {
            &&& b matches SchedStmt::If { info: i, guard: g, tag: t, true_block: tb, false_block: fb }
            &&& i == info
            &&& g == guard
            &&& t == tag
            &&& same_stmts(true_block@, tb@)
            &&& same_stmts(false_block@, fb@)
        },
        SchedStmt::Sequence { info, dests, block, is_const } => {
            &&& b matches SchedStmt::Sequence { info: i, dests: d, block: bb, is_const: k }
            &&& i == info
            &&& d == dests
            &&& k == is_const
            &&& same_stmt(*block, *bb)
        },
        _ => a == b,
    }
}

/// Two lists of statements are the same, statement by statement.
pub open spec fn same_stmts(a: Seq<SchedStmt>, b: Seq<SchedStmt>) -> bool
    decreases a, 1int,
{
    &&& a.len() == b.len()
    &&& (a.len() > 0 ==> same_stmts(a.drop_last(), b.drop_last()) && same_stmt(a.last(), b.last()))
}

/// A statement without blocks is one statement once blocks are removed.
proof fn lemma_no_blocks_len(st: SchedStmt)
    requires
        no_blocks(st),
    ensures
        unblock_len(st) == 1,
{
    match st {
        SchedStmt::Sequence { block, .. } => {
            assert(no_blocks(*block));
            match *block {
                SchedStmt::Block(..) => {},
                _ => {},
            }
        },
        _ => {},
    }
}

/// Statements without blocks are as many once blocks are removed.
proof fn lemma_no_blocks_lens(s: Seq<SchedStmt>)
    requires
        list_no_blocks(s),
    ensures
        unblock_lens(s) == s.len(),
    decreases s.len(),
{
    if s.len() > 0 {
        lemma_no_blocks_lens(s.drop_last());
        lemma_no_blocks_len(s.last());
    }
}

/// Removing the blocks of a statement that has none gives it back.
proof fn lemma_unblock_identity(st: SchedStmt, out: Seq<SchedStmt>)
    requires
        no_blocks(st),
        unblocked(st, out),
    ensures
        out.len() == 1,
        same_stmt(st, out[0]),
    decreases st, 0int,
{
    match st {
        SchedStmt::If { true_block, false_block, .. } => {
            assert(list_no_blocks(true_block@) && list_no_blocks(false_block@));
            assert(out.len() == 1);
            lemma_unblock_list_identity(true_block@, out[0]->If_true_block@);
            lemma_unblock_list_identity(false_block@, out[0]->If_false_block@);
        },
        SchedStmt::Sequence { block, .. } => {
            assert(no_blocks(*block));
            match *block {
                SchedStmt::If { true_block, false_block, .. } => {
                    assert(list_no_blocks(true_block@) && list_no_blocks(false_block@));
                    let b = *out[0]->Sequence_block;
                    lemma_unblock_list_identity(true_block@, b->If_true_block@);
                    lemma_unblock_list_identity(false_block@, b->If_false_block@);
                    assert(same_stmt(*block, b));
                    assert(same_stmt(st, out[0]));
                },
                SchedStmt::Block(..) => {},
                _ => {},
            }
        },
        SchedStmt::Block(..) => {},
        _ => {
            assert(out[0] == st);
        },
    }
}

/// Removing the blocks of statements that have none gives them back.
proof fn lemma_unblock_list_identity(s: Seq<SchedStmt>, out: Seq<SchedStmt>)
    requires
        list_no_blocks(s),
        unblocked_list(s, out),
    ensures
        same_stmts(s, out),
    decreases s, 1int,
{
    if s.len() > 0 {
        let p = unblock_lens(s.drop_last()) as int;
        lemma_no_blocks_lens(s.drop_last());
        lemma_unblock_list_identity(s.drop_last(), out.take(p));
        lemma_unblock_identity(s.last(), out.skip(p));
        assert(out.take(p) =~= out.drop_last());
        assert(out.skip(p)[0] == out.last());
    }
}

/// Removing blocks from statements that have none changes nothing: every `if`
/// keeps its true branch as its true branch and its false branch as its false
/// branch, also inside a sequence.
pub proof fn law_unblock_identity(s: Seq<SchedStmt>, out: Seq<SchedStmt>)
    requires
        list_no_blocks(s),
        unblocked_list(s, out),
    ensures
        same_stmts(s, out),
{
    lemma_unblock_list_identity(s, out);
}

/// Removing blocks keeps the branches of each `if` in place: the true branch of
/// the result is the true branch of the input with its blocks removed, and so
/// is the false branch, for an `if` on its own or as a sequence's body.
pub proof fn law_unblock_keeps_branches(st: SchedStmt, out: Seq<SchedStmt>)
    requires
        unblocked(st, out),
    ensures
        st matches SchedStmt::If { true_block, false_block, .. } ==> out.len() == 1 && unblocked_list(
            true_block@,
            out[0]->If_true_block@,
        ) && unblocked_list(false_block@, out[0]->If_false_block@),
        st matches SchedStmt::Sequence { block, .. } ==> (*block matches SchedStmt::If { true_block, false_block, .. }
            ==> out.len() == 1 && unblocked_list(true_block@, (*out[0]->Sequence_block)->If_true_block@) && unblocked_list(
            false_block@,
            (*out[0]->Sequence_block)->If_false_block@,
        )),
{
}

} // verus!
