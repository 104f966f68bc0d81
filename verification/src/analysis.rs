//! The worklist dataflow analysis over a CFG of high-level IR blocks, run here
//! for live variables (a backwards analysis from the final block).
use vstd::prelude::*;
use vstd::set_lib::lemma_len_subset;

use crate::cfg::{edge_targets, FlowGraph, FINAL_BLOCK_ID, START_BLOCK_ID};
use crate::dataflow::{
    avail_stmts, block_ok, def_set, kill_tail, live_block, live_body, live_stmts, rd_avail_out, rd_avail_tail,
    rd_kill_out, rd_pending_out, Backwards, Forwards, LiveVars, ReachingDefs,
};
use crate::hir::{body_defs, body_uses, tail_defs, tail_uses, BasicBlock, HirBody, Terminator};
use crate::name_set::{contains_name, sorted_names, insert_names, names_of};

verus! {

/// A CFG of high-level IR blocks: `blocks[id]` is the block with id `id`, and
/// `graph` gives the outgoing edge of each block.
pub struct Cfg {
    pub blocks: Vec<Option<BasicBlock>>,
    pub graph: FlowGraph,
}

impl Cfg {
    /// The blocks are exactly those of the graph, their statements hold no
    /// call term, and the final block exists.
    pub open spec fn wf(&self) -> bool {
        &&& self.graph.wf()
        &&& self.blocks@.len() == self.graph.edges@.len()
        &&& forall|b: int| 0 <= b < self.blocks@.len() ==> (#[trigger] self.blocks@[b] is Some <==> self.graph.edges@[b] is Some)
        &&& forall|b: int| 0 <= b < self.blocks@.len() && self.blocks@[b] is Some ==> block_ok(#[trigger] self.blocks@[b]->0)
        &&& self.graph.has_block(FINAL_BLOCK_ID as int)
    }

    /// The block with id `b`.
    pub open spec fn block(&self, b: int) -> BasicBlock {
        self.blocks@[b]->0
    }

    /// There is an edge from block `p` to block `b`.
    pub open spec fn edge(&self, p: usize, b: usize) -> bool {
        self.graph.has_block(p as int) && edge_targets(self.graph.edges@[p as int]->0).contains(b)
    }
}

/// The names read by the statements.
pub open spec fn stmts_uses(stmts: Seq<crate::hir::HirBody>) -> Set<Seq<char>> {
    Set::new(|s: Seq<char>| exists|i: int| 0 <= i < stmts.len() && #[trigger] body_uses(stmts[i]).contains(s))
}

/// The names read by a block.
pub open spec fn block_uses(b: BasicBlock) -> Set<Seq<char>> {
    tail_uses(b.terminator).union(stmts_uses(b.stmts@))
}

/// The liveness of a list of statements is monotone, and adds only what they read.
pub proof fn lemma_live_stmts(l1: Set<Seq<char>>, l2: Set<Seq<char>>, stmts: Seq<crate::hir::HirBody>)
    ensures
        l1.subset_of(l2) ==> live_stmts(l1, stmts).subset_of(live_stmts(l2, stmts)),
        live_stmts(l1, stmts).subset_of(l1.union(stmts_uses(stmts))),
    decreases stmts.len(),
{
    if stmts.len() > 0 {
        let pre = stmts.drop_last();
        let last = stmts.last();
        lemma_live_stmts(live_body(l1, last), live_body(l2, last), pre);
        assert forall|s: Seq<char>| stmts_uses(pre).contains(s) implies stmts_uses(stmts).contains(s) by {
            let k = choose|k: int| 0 <= k < pre.len() && #[trigger] body_uses(pre[k]).contains(s);
            assert(body_uses(stmts[k]).contains(s));
        }
        assert forall|s: Seq<char>| body_uses(last).contains(s) implies stmts_uses(stmts).contains(s) by {
            assert(body_uses(stmts[stmts.len() - 1]).contains(s));
        }
    }
}

/// The liveness of a block is monotone, and adds only what the block reads.
pub proof fn lemma_live_block(l1: Set<Seq<char>>, l2: Set<Seq<char>>, b: BasicBlock)
    ensures
        l1.subset_of(l2) ==> live_block(l1, b).subset_of(live_block(l2, b)),
        live_block(l1, b).subset_of(l1.union(block_uses(b))),
{
    let t = b.terminator;
    let k1 = l1.difference(crate::dataflow::def_set(crate::hir::tail_defs(t))).union(tail_uses(t));
    let k2 = l2.difference(crate::dataflow::def_set(crate::hir::tail_defs(t))).union(tail_uses(t));
    lemma_live_stmts(k1, k2, b.stmts@);
}

/// A proper subset of a finite set is smaller.
pub proof fn lemma_proper_subset_len(a: Set<Seq<char>>, b: Set<Seq<char>>)
    requires
        b.finite(),
        a.subset_of(b),
        a != b,
    ensures
        a.len() < b.len(),
{
    let x = choose|x: Seq<char>| b.contains(x) && !a.contains(x);
    if !(exists|x: Seq<char>| b.contains(x) && !a.contains(x)) {
        assert(a =~= b);
    }
    lemma_len_subset(a, b.remove(x));
}

/// Whether two name lists hold the same set.
pub(crate) fn same_names(a: &Vec<String>, b: &Vec<String>) -> (res: bool)
    ensures
        res == (names_of(a@) == names_of(b@)),
{
    let mut i: usize = 0;
    while i < a.len()
        invariant
            i <= a@.len(),
            forall|k: int| 0 <= k < i ==> names_of(b@).contains(#[trigger] a@[k]@),
        decreases a@.len() - i,
    {
        if !contains_name(b, &a[i]) {
            assert(names_of(a@).contains(a@[i as int]@));
            return false;
        }
        i += 1;
    }
    let mut j: usize = 0;
    while j < b.len()
        invariant
            j <= b@.len(),
            forall|k: int| 0 <= k < j ==> names_of(a@).contains(#[trigger] b@[k]@),
        decreases b@.len() - j,
    {
        if !contains_name(a, &b[j]) {
            assert(names_of(b@).contains(b@[j as int]@));
            return false;
        }
        j += 1;
    }
    assert forall|s: Seq<char>| names_of(a@).contains(s) implies names_of(b@).contains(s) by {
        let k = choose|k: int| 0 <= k < a@.len() && #[trigger] a@[k]@ == s;
        assert(names_of(b@).contains(a@[k]@));
    }
    assert forall|s: Seq<char>| names_of(b@).contains(s) implies names_of(a@).contains(s) by {
        let k = choose|k: int| 0 <= k < b@.len() && #[trigger] b@[k]@ == s;
        assert(names_of(a@).contains(b@[k]@));
    }
    assert(names_of(a@) =~= names_of(b@));
    true
}

/// Collects every name that some block of the CFG reads.
fn use_names(cfg: &Cfg) -> (res: Vec<String>)
    requires
        cfg.wf(),
    ensures
        sorted_names(res@),
        forall|b: int| 0 <= b < cfg.blocks@.len() && cfg.blocks@[b] is Some ==> block_uses(#[trigger] cfg.blocks@[b]->0).subset_of(names_of(res@)),
{
    let mut res: Vec<String> = Vec::new();
    let mut b: usize = 0;
    while b < cfg.blocks.len()
        invariant
            cfg.wf(),
            b <= cfg.blocks@.len(),
            sorted_names(res@),
            forall|c: int| 0 <= c < b && cfg.blocks@[c] is Some ==> block_uses(#[trigger] cfg.blocks@[c]->0).subset_of(names_of(res@)),
        decreases cfg.blocks@.len() - b,
    {
        match &cfg.blocks[b] {
            Some(blk) => {
                assert(block_ok(*blk));
                let mut i: usize = 0;
                while i < blk.stmts.len()
                    invariant
                        cfg.wf(),
                        b < cfg.blocks@.len(),
                        i <= blk.stmts@.len(),
                        block_ok(*blk),
                        sorted_names(res@),
                        forall|c: int| 0 <= c < b && cfg.blocks@[c] is Some ==> block_uses(#[trigger] cfg.blocks@[c]->0).subset_of(names_of(res@)),
                        forall|k: int| 0 <= k < i ==> body_uses(#[trigger] blk.stmts@[k]).subset_of(names_of(res@)),
                    decreases blk.stmts@.len() - i,
                {
                    assert(crate::hir::body_ok(blk.stmts@[i as int]));
                    blk.stmts[i].get_uses(&mut res);
                    i += 1;
                }
                blk.terminator.get_uses(&mut res);
                assert(block_uses(*blk).subset_of(names_of(res@))) by {
                    assert forall|s: Seq<char>| stmts_uses(blk.stmts@).contains(s) implies names_of(res@).contains(s) by {
                        let k = choose|k: int| 0 <= k < blk.stmts@.len() && #[trigger] body_uses(blk.stmts@[k]).contains(s);
                        assert(body_uses(blk.stmts@[k]).subset_of(names_of(res@)));
                    }
                }
            },
            None => {},
        }
        b += 1;
    }
    res
}

/// The weight of a computed fact in the termination measure of the analysis:
/// none yet counts 0, a computed set one more than its size.
pub open spec fn fact_count(o: Option<LiveVars>) -> int {
    match o {
        Some(f) => f@.len() as int + 1,
        None => 0,
    }
}

/// The total weight of the computed facts.
pub open spec fn total_count(s: Seq<Option<LiveVars>>) -> int
    decreases s.len(),
{
    if s.len() == 0 {
        0
    } else {
        total_count(s.drop_last()) + fact_count(s.last())
    }
}

/// Replacing one fact changes the total by the change in its weight.
pub proof fn lemma_total_update(s: Seq<Option<LiveVars>>, i: int, x: Option<LiveVars>)
    requires
        0 <= i < s.len(),
    ensures
        total_count(s.update(i, x)) == total_count(s) - fact_count(s[i]) + fact_count(x),
    decreases s.len(),
{
    let t = s.update(i, x);
    if i == s.len() - 1 {
        assert(t.drop_last() =~= s.drop_last());
    } else {
        assert(t.drop_last() =~= s.drop_last().update(i, x));
        lemma_total_update(s.drop_last(), i, x);
    }
}

/// The total is at most the number of facts times a bound on each weight.
pub proof fn lemma_total_bound(s: Seq<Option<LiveVars>>, k: int)
    requires
        k >= 0,
        forall|i: int| 0 <= i < s.len() ==> #[trigger] fact_count(s[i]) <= k,
    ensures
        0 <= total_count(s) <= s.len() * k,
    decreases s.len(),
{
    if s.len() > 0 {
        lemma_total_bound(s.drop_last(), k);
        assert(fact_count(s[s.len() - 1]) <= k);
        assert(fact_count(s[s.len() - 1]) >= 0);
        let n = s.len() as int;
        assert((n - 1) * k + k == n * k) by (nonlinear_arith);
    }
}

/// Meets `out` into the fact of each block of `targets`.
fn broadcast(facts: &mut Vec<LiveVars>, out: &LiveVars, targets: &Vec<usize>)
    requires
        forall|i: int| 0 <= i < targets@.len() ==> #[trigger] targets@[i] < old(facts)@.len(),
        forall|c: int| 0 <= c < old(facts)@.len() ==> (#[trigger] old(facts)@[c]).wf(),
    ensures
        final(facts)@.len() == old(facts)@.len(),
        forall|c: int| 0 <= c < final(facts)@.len() ==> (#[trigger] final(facts)@[c]).wf(),
        forall|c: usize| (c as int) < final(facts)@.len() ==> #[trigger] final(facts)@[c as int]@ == if targets@.contains(c) {
            old(facts)@[c as int]@.union(out@)
        } else {
            old(facts)@[c as int]@
        },
{
    let mut j: usize = 0;
    while j < targets.len()
        invariant
            j <= targets@.len(),
            facts@.len() == old(facts)@.len(),
            forall|i: int| 0 <= i < targets@.len() ==> #[trigger] targets@[i] < facts@.len(),
            forall|c: int| 0 <= c < facts@.len() ==> (#[trigger] facts@[c]).wf(),
            forall|c: usize| (c as int) < facts@.len() ==> #[trigger] facts@[c as int]@ == if targets@.subrange(0, j as int).contains(c) {
                old(facts)@[c as int]@.union(out@)
            } else {
                old(facts)@[c as int]@
            },
        decreases targets@.len() - j,
    {
        let p = targets[j];
        let ghost prev = facts@;
        let m = facts[p].copy().meet(out);
        facts.set(p, m);
        proof {
            let lo = targets@.subrange(0, j as int);
            let hi = targets@.subrange(0, j + 1);
            assert forall|c: usize| hi.contains(c) <==> (lo.contains(c) || c == p) by {
                if hi.contains(c) {
                    let k = choose|k: int| 0 <= k < hi.len() && hi[k] == c;
                    if k < j {
                        assert(lo[k] == c);
                    }
                }
                if lo.contains(c) {
                    let k = choose|k: int| 0 <= k < lo.len() && lo[k] == c;
                    assert(hi[k] == c);
                }
                if c == p {
                    assert(hi[j as int] == c);
                }
            }
            assert forall|c: usize| (c as int) < facts@.len() implies #[trigger] facts@[c as int]@ == if hi.contains(c) {
                old(facts)@[c as int]@.union(out@)
            } else {
                old(facts)@[c as int]@
            } by {
                assert(prev[c as int]@ == if lo.contains(c) {
                    old(facts)@[c as int]@.union(out@)
                } else {
                    old(facts)@[c as int]@
                });
                if c == p {
                    assert(facts@[c as int]@ == prev[c as int]@.union(out@));
                    if lo.contains(c) {
                        assert(old(facts)@[c as int]@.union(out@).union(out@) =~= old(facts)@[c as int]@.union(out@));
                    }
                } else {
                    assert(facts@[c as int] == prev[c as int]);
                }
            }
        }
        j += 1;
    }
    assert(targets@.subrange(0, targets@.len() as int) =~= targets@);
}

/// Appends the ids of `t` to the worklist.
fn push_all(wl: &mut Vec<usize>, t: &Vec<usize>)
    ensures
        final(wl)@ == old(wl)@ + t@,
{
    let mut j: usize = 0;
    while j < t.len()
        invariant
            j <= t@.len(),
            wl@ == old(wl)@ + t@.subrange(0, j as int),
        decreases t@.len() - j,
    {
        wl.push(t[j]);
        assert(wl@ =~= old(wl)@ + t@.subrange(0, j + 1));
        j += 1;
    }
    assert(t@.subrange(0, t@.len() as int) =~= t@);
}

/// The result of an analysis: for each block, the fact coming from its
/// neighbours in the direction of the analysis (`in_facts`), and the fact it
/// passes on (`out_facts`), which a block the analysis never reached lacks.
pub struct InOutFacts<T> {
    pub in_facts: Vec<T>,
    pub out_facts: Vec<Option<T>>,
}

impl InOutFacts<LiveVars> {
    /// The variables live on entry to `block`.
    pub fn get_in_fact(&self, block: usize) -> (res: &LiveVars)
        requires
            block < self.out_facts@.len(),
            self.out_facts@[block as int] is Some,
        ensures
            *res == self.out_facts@[block as int]->0,
    {
        match &self.out_facts[block] {
            Some(f) => f,
            None => {
                proof {
                    assert(false);
                }
                &self.in_facts[0]
            },
        }
    }

    /// The variables live on exit from `block`.
    pub fn get_out_fact(&self, block: usize) -> (res: &LiveVars)
        requires
            block < self.in_facts@.len(),
        ensures
            *res == self.in_facts@[block as int],
    {
        &self.in_facts[block]
    }
}

impl InOutFacts<ReachingDefs> {
    /// The reaching definitions on entry to `block`.
    pub fn get_in_fact(&self, block: usize) -> (res: &ReachingDefs)
        requires
            block < self.in_facts@.len(),
        ensures
            *res == self.in_facts@[block as int],
    {
        &self.in_facts[block]
    }

    /// The reaching definitions on exit from `block`.
    pub fn get_out_fact(&self, block: usize) -> (res: &ReachingDefs)
        requires
            block < self.out_facts@.len(),
            self.out_facts@[block as int] is Some,
        ensures
            *res == self.out_facts@[block as int]->0,
    {
        match &self.out_facts[block] {
            Some(f) => f,
            None => {
                proof {
                    assert(false);
                }
                &self.in_facts[0]
            },
        }
    }
}

/// The largest number of neighbours of a block.
fn max_degree(g: &crate::cfg::BlockGraph) -> (d: usize)
    ensures
        forall|c: int| 0 <= c < g.adj@.len() ==> #[trigger] g.adj@[c]@.len() <= d,
{
    let mut d: usize = 0;
    let mut c: usize = 0;
    while c < g.adj.len()
        invariant
            c <= g.adj@.len(),
            forall|k: int| 0 <= k < c ==> #[trigger] g.adj@[k]@.len() <= d,
        decreases g.adj@.len() - c,
    {
        if g.adj[c].len() > d {
            d = g.adj[c].len();
        }
        c += 1;
    }
    d
}

/// The union of the sets present in `sets` at the blocks joined to block `p` by
/// an edge: its successors, or its predecessors when `preds` is set.
pub open spec fn edge_union(cfg: Cfg, sets: Seq<Option<Set<Seq<char>>>>, p: usize, preds: bool) -> Set<Seq<char>> {
    Set::new(
        |e: Seq<char>|
            exists|b: usize|
                (b as int) < sets.len() && #[trigger] sets[b as int] is Some && (if preds {
                    cfg.edge(b, p)
                } else {
                    cfg.edge(p, b)
                }) && sets[b as int]->0.contains(e),
    )
}

/// Replacing the set of block `b` by a larger one adds it to the union of each
/// block joined to `b`, and changes no other union.
pub proof fn lemma_edge_union_update(
    cfg: Cfg,
    sets: Seq<Option<Set<Seq<char>>>>,
    p: usize,
    preds: bool,
    b: usize,
    x: Set<Seq<char>>,
)
    requires
        (b as int) < sets.len(),
        sets[b as int] is Some ==> sets[b as int]->0.subset_of(x),
    ensures
        edge_union(cfg, sets.update(b as int, Some(x)), p, preds) == if (if preds {
            cfg.edge(b, p)
        } else {
            cfg.edge(p, b)
        }) {
            edge_union(cfg, sets, p, preds).union(x)
        } else {
            edge_union(cfg, sets, p, preds)
        },
{
    let t = sets.update(b as int, Some(x));
    let joined = if preds {
        cfg.edge(b, p)
    } else {
        cfg.edge(p, b)
    };
    let rhs = if joined {
        edge_union(cfg, sets, p, preds).union(x)
    } else {
        edge_union(cfg, sets, p, preds)
    };
    assert forall|e: Seq<char>| edge_union(cfg, t, p, preds).contains(e) implies rhs.contains(e) by {
        let c = choose|c: usize|
            (c as int) < t.len() && #[trigger] t[c as int] is Some && (if preds {
                cfg.edge(c, p)
            } else {
                cfg.edge(p, c)
            }) && t[c as int]->0.contains(e);
        if c != b {
            assert(sets[c as int] == t[c as int]);
        }
    }
    assert forall|e: Seq<char>| rhs.contains(e) implies edge_union(cfg, t, p, preds).contains(e) by {
        if edge_union(cfg, sets, p, preds).contains(e) {
            let c = choose|c: usize|
                (c as int) < sets.len() && #[trigger] sets[c as int] is Some && (if preds {
                    cfg.edge(c, p)
                } else {
                    cfg.edge(p, c)
                }) && sets[c as int]->0.contains(e);
            if c == b {
                assert(t[b as int] is Some && t[b as int]->0.contains(e));
            } else {
                assert(t[c as int] == sets[c as int]);
            }
        } else {
            assert(t[b as int] is Some && t[b as int]->0.contains(e));
        }
    }
    assert(edge_union(cfg, t, p, preds) =~= rhs);
}

/// The live sets of computed facts.
pub open spec fn live_views(outs: Seq<Option<LiveVars>>) -> Seq<Option<Set<Seq<char>>>> {
    outs.map_values(
        |o: Option<LiveVars>|
            match o {
                Some(f) => Some(f@),
                None => None,
            },
    )
}

/// The variables live on exit from block `p`: those live on entry to its
/// successors that the analysis reached.
pub open spec fn live_exit(cfg: Cfg, outs: Seq<Option<LiveVars>>, p: usize) -> Set<Seq<char>> {
    edge_union(cfg, live_views(outs), p, false)
}

/// `xi` and `xo` give each block a set of variables live on exit and on entry
/// that is closed under the liveness equations: the entry set holds what the
/// block needs given its exit set, and the exit set holds the entry set of every
/// successor.
pub open spec fn live_post_fixpoint(
    cfg: Cfg,
    xi: spec_fn(usize) -> Set<Seq<char>>,
    xo: spec_fn(usize) -> Set<Seq<char>>,
) -> bool {
    &&& forall|b: usize| cfg.graph.has_block(b as int) ==> live_block(xi(b), cfg.block(b as int)).subset_of(#[trigger] xo(b))
    &&& forall|p: usize, b: usize| #[trigger] cfg.edge(p, b) ==> xo(b).subset_of(xi(p))
}

/// The facts `ins` and `outs` lie below the solution `xi`, `xo`.
pub open spec fn live_below(
    ins: Seq<LiveVars>,
    outs: Seq<Option<LiveVars>>,
    xi: spec_fn(usize) -> Set<Seq<char>>,
    xo: spec_fn(usize) -> Set<Seq<char>>,
) -> bool {
    &&& forall|b: usize| (b as int) < ins.len() ==> (#[trigger] ins[b as int])@.subset_of(xi(b))
    &&& forall|b: usize| (b as int) < outs.len() && #[trigger] outs[b as int] is Some ==> outs[b as int]->0@.subset_of(xo(b))
}

/// Live variables of every block, by the worklist algorithm run backwards from
/// the final block. On return, every block the analysis reached has its entry
/// fact computed from its exit fact, the exit fact of each predecessor of a
/// reached block holds that block's entry fact, and every predecessor of a
/// reached block was reached.
pub fn analyze_live_vars(cfg: &Cfg) -> (res: InOutFacts<LiveVars>)
    requires
        cfg.wf(),
    ensures
        res.in_facts@.len() == cfg.blocks@.len(),
        res.out_facts@.len() == cfg.blocks@.len(),
        res.out_facts@[FINAL_BLOCK_ID as int] is Some,
        forall|b: int| 0 <= b < cfg.blocks@.len() ==> (#[trigger] res.in_facts@[b]).wf(),
        forall|b: usize|
            (b as int) < cfg.blocks@.len() && #[trigger] res.out_facts@[b as int] is Some ==> {
                &&& cfg.graph.has_block(b as int)
                &&& res.out_facts@[b as int]->0.wf()
                &&& res.out_facts@[b as int]->0@ == live_block(res.in_facts@[b as int]@, cfg.block(b as int))
            },
        forall|b: usize, p: usize|
            (b as int) < cfg.blocks@.len() && res.out_facts@[b as int] is Some && #[trigger] cfg.edge(p, b) ==> {
                &&& res.out_facts@[p as int] is Some
                &&& res.out_facts@[b as int]->0@.subset_of(res.in_facts@[p as int]@)
            },
        forall|p: usize| (p as int) < cfg.blocks@.len() ==> #[trigger] res.in_facts@[p as int]@ == live_exit(*cfg, res.out_facts@, p),
        forall|xi: spec_fn(usize) -> Set<Seq<char>>, xo: spec_fn(usize) -> Set<Seq<char>>|
            #[trigger] live_post_fixpoint(*cfg, xi, xo) ==> live_below(res.in_facts@, res.out_facts@, xi, xo),
{
    let n = cfg.blocks.len();
    let preds = Backwards::get_adj_list(&cfg.graph);
    let d = max_degree(&preds);
    let uvec = use_names(cfg);
    let ghost u = names_of(uvec@);
    proof {
        crate::dataflow::lemma_names_views(uvec@);
        vstd::seq_lib::seq_to_set_is_finite(crate::hir::name_views(uvec@));
    }
    let ghost k: int = u.len() as int + 1;
    let ghost bound: int = n * k;
    let mut inf: Vec<LiveVars> = Vec::new();
    let mut outf: Vec<Option<LiveVars>> = Vec::new();
    let mut c: usize = 0;
    while c < n
        invariant
            c <= n,
            n == cfg.blocks@.len(),
            inf@.len() == c,
            outf@.len() == c,
            forall|i: int| 0 <= i < c ==> (#[trigger] inf@[i]).wf() && inf@[i]@ == Set::<Seq<char>>::empty(),
            forall|i: int| 0 <= i < c ==> #[trigger] outf@[i] is None,
        decreases n - c,
    {
        inf.push(LiveVars::top());
        outf.push(None);
        c += 1;
    }
    let mut wl: Vec<usize> = Vec::new();
    wl.push(Backwards::root_id());
    assert(wl@[0] == FINAL_BLOCK_ID);
    proof {
        lemma_total_bound(outf@, k);
        assert forall|p: usize| (p as int) < n implies #[trigger] inf@[p as int]@ == live_exit(*cfg, outf@, p) by {
            assert(live_exit(*cfg, outf@, p) =~= Set::<Seq<char>>::empty());
        }
    }
    while wl.len() > 0
        invariant
            cfg.wf(),
            n == cfg.blocks@.len(),
            preds.adj@.len() == n,
            preds.wf(),
            forall|t: int, p: usize|
                0 <= t < n ==> (#[trigger] preds.adj@[t]@.contains(p) <==> (cfg.graph.has_block(p as int)
                    && edge_targets(cfg.graph.edges@[p as int]->0).contains(t as usize))),
            forall|b: int| 0 <= b < n ==> #[trigger] preds.adj@[b]@.len() <= d,
            u == names_of(uvec@),
            u.finite(),
            k == u.len() + 1,
            bound == n * k,
            forall|b: int| 0 <= b < n && cfg.blocks@[b] is Some ==> block_uses(#[trigger] cfg.blocks@[b]->0).subset_of(u),
            inf@.len() == n,
            outf@.len() == n,
            forall|b: int| 0 <= b < n ==> (#[trigger] inf@[b]).wf() && inf@[b]@.subset_of(u),
            forall|b: int| 0 <= b < wl@.len() ==> (#[trigger] wl@[b] as int) < n && cfg.graph.has_block(wl@[b] as int),
            forall|b: usize|
                (b as int) < n && #[trigger] outf@[b as int] is Some ==> {
                    &&& cfg.graph.has_block(b as int)
                    &&& outf@[b as int]->0.wf()
                    &&& outf@[b as int]->0@.subset_of(u)
                    &&& outf@[b as int]->0@.subset_of(live_block(inf@[b as int]@, cfg.block(b as int)))
                    &&& !wl@.contains(b) ==> outf@[b as int]->0@ == live_block(inf@[b as int]@, cfg.block(b as int))
                },
            forall|b: usize, p: usize|
                (b as int) < n && outf@[b as int] is Some && #[trigger] preds.adj@[b as int]@.contains(p) ==> {
                    &&& outf@[b as int]->0@.subset_of(inf@[p as int]@)
                    &&& (outf@[p as int] is Some || wl@.contains(p))
                },
            outf@[FINAL_BLOCK_ID as int] is Some || wl@.contains(FINAL_BLOCK_ID),
            0 <= total_count(outf@) <= bound,
            forall|p: usize| (p as int) < n ==> #[trigger] inf@[p as int]@ == live_exit(*cfg, outf@, p),
            forall|xi: spec_fn(usize) -> Set<Seq<char>>, xo: spec_fn(usize) -> Set<Seq<char>>|
                #[trigger] live_post_fixpoint(*cfg, xi, xo) ==> live_below(inf@, outf@, xi, xo),
        decreases (d + 1) * (bound - total_count(outf@)) + wl@.len(),
    {
        let ghost w0 = wl@;
        let ghost i0 = inf@;
        let ghost o0 = outf@;
        let b = wl.pop().unwrap();
        proof {
            assert(w0.last() == b);
            assert(wl@ == w0.drop_last());
            assert(w0[w0.len() - 1] == b);
        }
        let out = match &cfg.blocks[b] {
            Some(blk) => inf[b].copy().analyze_basic_block(blk),
            None => {
                proof {
                    assert(false);
                }
                LiveVars::top()
            },
        };
        proof {
            lemma_live_block(i0[b as int]@, i0[b as int]@, cfg.block(b as int));
            assert(out@.subset_of(u));
            vstd::set_lib::lemma_len_subset(out@, u);
        }
        let changed = match &outf[b] {
            Some(o) => !same_names(&o.live_set, &out.live_set),
            None => true,
        };
        if changed {
            proof {
                assert forall|i: int| 0 <= i < preds.adj@[b as int]@.len() implies #[trigger] preds.adj@[b as int]@[i] < inf@.len() by {
                    assert(preds.adjs()[b as int][i] == preds.adj@[b as int]@[i]);
                }
            }
            broadcast(&mut inf, &out, &preds.adj[b]);
            push_all(&mut wl, &preds.adj[b]);
        }
        let ghost i1 = inf@;
        let ghost w1 = wl@;
        outf.set(b, Some(out));
        proof {
            let pb = preds.adj@[b as int]@;
            // every fact only grows
            assert forall|c: usize| (c as int) < n implies #[trigger] i0[c as int]@.subset_of(i1[c as int]@)
                && i1[c as int]@ == (if changed && pb.contains(c) { i0[c as int]@.union(out@) } else { i0[c as int]@ }) by {
                if !changed {
                    assert(i1[c as int] == i0[c as int]);
                }
            }
            // worklist membership
            assert forall|c: usize| #[trigger] w1.contains(c) <==> (w0.drop_last().contains(c) || (changed && pb.contains(c))) by {
                if changed {
                    assert(w1 == w0.drop_last() + pb);
                    if w1.contains(c) {
                        let j = choose|j: int| 0 <= j < w1.len() && w1[j] == c;
                        if j < w0.len() - 1 {
                            assert(w0.drop_last()[j] == c);
                        } else {
                            assert(pb[j - (w0.len() - 1)] == c);
                        }
                    }
                    if w0.drop_last().contains(c) {
                        let j = choose|j: int| 0 <= j < w0.len() - 1 && w0.drop_last()[j] == c;
                        assert(w1[j] == c);
                    }
                    if pb.contains(c) {
                        let j = choose|j: int| 0 <= j < pb.len() && pb[j] == c;
                        assert(w1[w0.len() - 1 + j] == c);
                    }
                }
            }
            assert forall|c: usize| #[trigger] w0.contains(c) <==> (w0.drop_last().contains(c) || c == b) by {
                if w0.contains(c) {
                    let j = choose|j: int| 0 <= j < w0.len() && w0[j] == c;
                    if j < w0.len() - 1 {
                        assert(w0.drop_last()[j] == c);
                    }
                }
                if w0.drop_last().contains(c) {
                    let j = choose|j: int| 0 <= j < w0.len() - 1 && w0.drop_last()[j] == c;
                    assert(w0[j] == c);
                }
                if c == b {
                    assert(w0[w0.len() - 1] == c);
                }
            }
            // facts stay within the names read
            assert forall|c: int| 0 <= c < n implies (#[trigger] inf@[c]).wf() && inf@[c]@.subset_of(u) by {
                assert(i0[c as usize as int]@.subset_of(u));
            }
            // the worklist holds blocks
            assert forall|j: int| 0 <= j < wl@.len() implies (#[trigger] wl@[j] as int) < n && cfg.graph.has_block(wl@[j] as int) by {
                if changed && j >= w0.len() - 1 {
                    let p = wl@[j];
                    assert(pb[j - (w0.len() - 1)] == p);
                    assert(pb.contains(p));
                    assert(preds.adjs()[b as int][j - (w0.len() - 1)] == p);
                    assert(cfg.graph.has_block(p as int));
                } else {
                    assert(w0[j] == wl@[j]);
                }
            }
            // the computed facts
            assert forall|c: usize| (c as int) < n && #[trigger] outf@[c as int] is Some implies {
                &&& cfg.graph.has_block(c as int)
                &&& outf@[c as int]->0.wf()
                &&& outf@[c as int]->0@.subset_of(u)
                &&& outf@[c as int]->0@.subset_of(live_block(inf@[c as int]@, cfg.block(c as int)))
                &&& !wl@.contains(c) ==> outf@[c as int]->0@ == live_block(inf@[c as int]@, cfg.block(c as int))
            } by {
                lemma_live_block(i0[c as int]@, i1[c as int]@, cfg.block(c as int));
                if c != b {
                    assert(outf@[c as int] == o0[c as int]);
                    if !wl@.contains(c) {
                        assert(!w0.contains(c));
                        assert(i1[c as int]@ == i0[c as int]@);
                    }
                }
            }
            assert forall|c: usize, p: usize|
                (c as int) < n && outf@[c as int] is Some && #[trigger] preds.adj@[c as int]@.contains(p) implies {
                    &&& outf@[c as int]->0@.subset_of(inf@[p as int]@)
                    &&& (outf@[p as int] is Some || wl@.contains(p))
                } by {
                assert(preds.adjs()[c as int] == preds.adj@[c as int]@);
                assert((p as int) < n);
                assert(i0[p as int]@.subset_of(i1[p as int]@));
                if p == b {
                    assert(outf@[p as int] is Some);
                }
                if c != b {
                    assert(outf@[c as int] == o0[c as int]);
                } else if !changed {
                    assert(o0[b as int] is Some);
                }
            }
            // each exit fact is the union of the entry facts of the reached successors
            assert(live_views(outf@) =~= live_views(o0).update(b as int, Some(out@)));
            assert forall|p: usize| (p as int) < n implies #[trigger] inf@[p as int]@ == live_exit(*cfg, outf@, p) by {
                assert(i0[p as int]@ == live_exit(*cfg, o0, p));
                lemma_edge_union_update(*cfg, live_views(o0), p, false, b, out@);
                assert(cfg.edge(p, b) == pb.contains(p));
                if cfg.edge(p, b) && !changed {
                    assert(live_views(o0)[b as int] == Some(o0[b as int]->0@));
                    assert(live_exit(*cfg, o0, p).union(out@) =~= live_exit(*cfg, o0, p)) by {
                        assert forall|e: Seq<char>| out@.contains(e) implies live_exit(*cfg, o0, p).contains(e) by {
                            assert(live_views(o0)[b as int] is Some && live_views(o0)[b as int]->0.contains(e));
                        }
                    }
                }
            }
            // the facts stay below every solution of the equations
            assert forall|xi: spec_fn(usize) -> Set<Seq<char>>, xo: spec_fn(usize) -> Set<Seq<char>>|
                #[trigger] live_post_fixpoint(*cfg, xi, xo) implies live_below(inf@, outf@, xi, xo) by {
                assert(live_below(i0, o0, xi, xo));
                assert(i0[b as int]@.subset_of(xi(b)));
                lemma_live_block(i0[b as int]@, xi(b), cfg.block(b as int));
                assert(out@.subset_of(xo(b)));
                assert forall|c: usize| (c as int) < inf@.len() implies (#[trigger] inf@[c as int])@.subset_of(xi(c)) by {
                    assert(i0[c as int]@.subset_of(xi(c)));
                    if changed && pb.contains(c) {
                        assert(cfg.edge(c, b));
                    }
                }
                assert forall|c: usize| (c as int) < outf@.len() && #[trigger] outf@[c as int] is Some implies outf@[c as int]->0@.subset_of(xo(c)) by {
                    if c != b {
                        assert(outf@[c as int] == o0[c as int]);
                    }
                }
            }
            // termination measure
            lemma_total_update(o0, b as int, Some(out));
            assert(outf@ == o0.update(b as int, Some(out)));
            if changed {
                if o0[b as int] is Some {
                    let o = o0[b as int]->0;
                    assert(o@ != out@);
                    lemma_proper_subset_len(o@, out@);
                }
                assert(fact_count(Some(out)) >= fact_count(o0[b as int]) + 1);
                assert(wl@.len() <= w0.len() - 1 + d);
                let t0 = total_count(o0);
                let t1 = total_count(outf@);
                assert((d + 1) * (bound - t1) <= (d + 1) * (bound - t0) - (d + 1)) by (nonlinear_arith)
                    requires
                        t1 >= t0 + 1,
                        d + 1 >= 1,
                ;
            } else {
                assert(o0[b as int]->0@ == out@);
                assert(total_count(outf@) == total_count(o0));
            }
            assert forall|i: int| 0 <= i < outf@.len() implies #[trigger] fact_count(outf@[i]) <= k by {
                if outf@[i] is Some {
                    assert(outf@[i as usize as int] is Some);
                    vstd::set_lib::lemma_len_subset(outf@[i]->0@, u);
                }
            }
            lemma_total_bound(outf@, k);
            assert(0 <= (d + 1) * (bound - total_count(outf@))) by (nonlinear_arith)
                requires
                    total_count(outf@) <= bound,
                    d + 1 >= 1,
            ;
        }
    }
    proof {
        assert forall|b: usize, p: usize|
            (b as int) < cfg.blocks@.len() && outf@[b as int] is Some && #[trigger] cfg.edge(p, b) implies {
                &&& outf@[p as int] is Some
                &&& outf@[b as int]->0@.subset_of(inf@[p as int]@)
            } by {
            assert(preds.adj@[b as int]@.contains(p));
        }
    }
    InOutFacts { in_facts: inf, out_facts: outf }
}

/// The new variables the statements define.
pub open spec fn stmts_defs(stmts: Seq<HirBody>) -> Set<Seq<char>> {
    Set::new(|s: Seq<char>| exists|i: int| 0 <= i < stmts.len() && #[trigger] def_set(body_defs(stmts[i])).contains(s))
}

/// The destinations of a select.
pub open spec fn select_dests(t: Terminator) -> Set<Seq<char>> {
    match t {
        Terminator::Select { dests, .. } => names_of(crate::hir::dest_names(dests@)),
        _ => Set::empty(),
    }
}

/// Every name a block defines or reads.
pub open spec fn block_names(b: BasicBlock) -> Set<Seq<char>> {
    stmts_defs(b.stmts@).union(tail_uses(b.terminator)).union(def_set(tail_defs(b.terminator))).union(
        select_dests(b.terminator),
    )
}

/// The availability through statements is monotone, and adds only what is
/// pending and what they define.
pub proof fn lemma_avail_stmts(a1: Set<Seq<char>>, a2: Set<Seq<char>>, p: Set<Seq<char>>, stmts: Seq<HirBody>)
    ensures
        a1.subset_of(a2) ==> avail_stmts(a1, p, stmts).subset_of(avail_stmts(a2, p, stmts)),
        avail_stmts(a1, p, stmts).subset_of(a1.union(p).union(stmts_defs(stmts))),
        a1.subset_of(avail_stmts(a1, p, stmts)),
    decreases stmts.len(),
{
    if stmts.len() > 0 {
        let pre = stmts.drop_last();
        lemma_avail_stmts(a1, a2, p, pre);
        assert forall|s: Seq<char>| stmts_defs(pre).contains(s) implies stmts_defs(stmts).contains(s) by {
            let k = choose|k: int| 0 <= k < pre.len() && #[trigger] def_set(body_defs(pre[k])).contains(s);
            assert(def_set(body_defs(stmts[k])).contains(s));
        }
        assert forall|s: Seq<char>| def_set(body_defs(stmts.last())).contains(s) implies stmts_defs(stmts).contains(s) by {
            assert(def_set(body_defs(stmts[stmts.len() - 1])).contains(s));
        }
    }
}

/// The reaching-definitions step over a block is monotone in the available and
/// killed definitions, and mentions only names of the fact and of the block.
pub proof fn lemma_rd_block(i1: ReachingDefs, i2: ReachingDefs, blk: BasicBlock)
    requires
        forall|b: usize| #[trigger] i1.pending(b) == i2.pending(b),
        i1.references() == i2.references(),
        i1.variables() == i2.variables(),
    ensures
        i1.available().subset_of(i2.available()) && i1.killed().subset_of(i2.killed()) ==> rd_avail_out(i1, blk).subset_of(
            rd_avail_out(i2, blk),
        ) && rd_kill_out(i1, blk).subset_of(rd_kill_out(i2, blk)),
        rd_avail_out(i1, blk).subset_of(i1.available().union(i1.pending(blk.id)).union(block_names(blk))),
        rd_kill_out(i1, blk).subset_of(i1.killed().union(i1.available()).union(i1.pending(blk.id)).union(block_names(blk))),
        i1.available().subset_of(rd_avail_out(i1, blk)),
{
    let p = i1.pending(blk.id);
    lemma_avail_stmts(i1.available(), i2.available(), p, blk.stmts@);
    assert(rd_avail_tail(i1, blk).subset_of(i1.available().union(p).union(block_names(blk))));
    if i1.available().subset_of(i2.available()) {
        assert(rd_avail_tail(i1, blk).subset_of(rd_avail_tail(i2, blk)));
    }
}

/// The weight of a computed reaching-definitions fact in the termination
/// measure: none yet counts 0, a computed one one more than the sizes of its
/// available and killed sets.
pub open spec fn rd_count(o: Option<ReachingDefs>) -> int {
    match o {
        Some(f) => f.available().len() as int + f.killed().len() as int + 1,
        None => 0,
    }
}

/// The total weight of the computed reaching-definitions facts.
pub open spec fn rd_total(s: Seq<Option<ReachingDefs>>) -> int
    decreases s.len(),
{
    if s.len() == 0 {
        0
    } else {
        rd_total(s.drop_last()) + rd_count(s.last())
    }
}

/// Replacing one fact changes the total by the change in its weight.
pub proof fn lemma_rd_total_update(s: Seq<Option<ReachingDefs>>, i: int, x: Option<ReachingDefs>)
    requires
        0 <= i < s.len(),
    ensures
        rd_total(s.update(i, x)) == rd_total(s) - rd_count(s[i]) + rd_count(x),
    decreases s.len(),
{
    let t = s.update(i, x);
    if i == s.len() - 1 {
        assert(t.drop_last() =~= s.drop_last());
    } else {
        assert(t.drop_last() =~= s.drop_last().update(i, x));
        lemma_rd_total_update(s.drop_last(), i, x);
    }
}

/// The total is at most the number of facts times a bound on each weight.
pub proof fn lemma_rd_total_bound(s: Seq<Option<ReachingDefs>>, k: int)
    requires
        k >= 0,
        forall|i: int| 0 <= i < s.len() ==> 0 <= #[trigger] rd_count(s[i]) <= k,
    ensures
        0 <= rd_total(s) <= s.len() * k,
    decreases s.len(),
{
    if s.len() > 0 {
        lemma_rd_total_bound(s.drop_last(), k);
        assert(0 <= rd_count(s[s.len() - 1]) <= k);
        let n = s.len() as int;
        assert((n - 1) * k + k == n * k) by (nonlinear_arith);
    }
}

/// The definitions that reach a point of a fact: available and not killed.
pub open spec fn reach(f: ReachingDefs) -> Set<Seq<char>> {
    f.available().difference(f.killed())
}

/// `f` is `g` met with `out`.
pub open spec fn met(f: ReachingDefs, g: ReachingDefs, out: ReachingDefs) -> bool {
    &&& f.available() == g.available().union(out.available())
    &&& f.killed() == g.killed().union(out.killed()).union(g.available().difference(out.available())).union(
        out.available().difference(g.available()),
    )
    &&& reach(f) == reach(g).intersect(reach(out))
}

/// `f` holds the pending definitions, references and variables of `g`.
pub open spec fn same_context(f: ReachingDefs, g: ReachingDefs) -> bool {
    &&& forall|b: usize| #[trigger] f.pending(b) == g.pending(b)
    &&& f.references() == g.references()
    &&& f.variables() == g.variables()
}

/// Meets `out` into the fact of each block of `targets`.
fn broadcast_rd(facts: &mut Vec<ReachingDefs>, out: &ReachingDefs, targets: &Vec<usize>)
    requires
        out.wf(),
        forall|i: int| 0 <= i < targets@.len() ==> #[trigger] targets@[i] < old(facts)@.len(),
        forall|c: int| 0 <= c < old(facts)@.len() ==> (#[trigger] old(facts)@[c]).wf(),
    ensures
        final(facts)@.len() == old(facts)@.len(),
        forall|c: int| 0 <= c < final(facts)@.len() ==> (#[trigger] final(facts)@[c]).wf()
            && same_context(final(facts)@[c], old(facts)@[c]),
        forall|c: usize| (c as int) < final(facts)@.len() ==> if targets@.contains(c) {
            met(#[trigger] final(facts)@[c as int], old(facts)@[c as int], *out)
        } else {
            final(facts)@[c as int] == old(facts)@[c as int]
        },
{
    let mut j: usize = 0;
    while j < targets.len()
        invariant
            out.wf(),
            j <= targets@.len(),
            facts@.len() == old(facts)@.len(),
            forall|i: int| 0 <= i < targets@.len() ==> #[trigger] targets@[i] < facts@.len(),
            forall|c: int| 0 <= c < facts@.len() ==> (#[trigger] facts@[c]).wf() && same_context(facts@[c], old(facts)@[c]),
            forall|c: usize| (c as int) < facts@.len() ==> if targets@.subrange(0, j as int).contains(c) {
                met(#[trigger] facts@[c as int], old(facts)@[c as int], *out)
            } else {
                facts@[c as int] == old(facts)@[c as int]
            },
        decreases targets@.len() - j,
    {
        let p = targets[j];
        let ghost prev = facts@;
        let m = facts[p].copy().meet(out);
        facts.set(p, m);
        proof {
            let lo = targets@.subrange(0, j as int);
            let hi = targets@.subrange(0, j + 1);
            assert forall|c: usize| hi.contains(c) <==> (lo.contains(c) || c == p) by {
                if hi.contains(c) {
                    let k = choose|k: int| 0 <= k < hi.len() && hi[k] == c;
                    if k < j {
                        assert(lo[k] == c);
                    }
                }
                if lo.contains(c) {
                    let k = choose|k: int| 0 <= k < lo.len() && lo[k] == c;
                    assert(hi[k] == c);
                }
                if c == p {
                    assert(hi[j as int] == c);
                }
            }
            assert forall|c: usize| (c as int) < facts@.len() implies if hi.contains(c) {
                met(#[trigger] facts@[c as int], old(facts)@[c as int], *out)
            } else {
                facts@[c as int] == old(facts)@[c as int]
            } by {
                if c == p {
                    let g = old(facts)@[c as int];
                    let f = facts@[c as int];
                    assert(met(f, prev[c as int], *out));
                    if lo.contains(c) {
                        let h = prev[c as int];
                        assert(met(h, g, *out));
                        assert(f.available() =~= g.available().union(out.available()));
                        assert(f.killed() =~= g.killed().union(out.killed()).union(g.available().difference(out.available())).union(
                            out.available().difference(g.available())));
                        assert(reach(f) =~= reach(g).intersect(reach(*out)));
                    }
                } else {
                    assert(facts@[c as int] == prev[c as int]);
                }
            }
            assert forall|c: int| 0 <= c < facts@.len() implies (#[trigger] facts@[c]).wf() && same_context(facts@[c], old(facts)@[c]) by {
                if c != p as int {
                    assert(facts@[c] == prev[c]);
                }
            }
        }
        j += 1;
    }
    assert(targets@.subrange(0, targets@.len() as int) =~= targets@);
}

/// Collects every name of the fact `top` and of the blocks of the CFG.
fn rd_names(cfg: &Cfg, top: &ReachingDefs) -> (res: Vec<String>)
    requires
        cfg.wf(),
    ensures
        sorted_names(res@),
        top.all_names().subset_of(names_of(res@)),
        forall|b: int| 0 <= b < cfg.blocks@.len() && cfg.blocks@[b] is Some ==> block_names(#[trigger] cfg.blocks@[b]->0).subset_of(names_of(res@)),
{
    let mut res: Vec<String> = Vec::new();
    top.collect_names(&mut res);
    let mut b: usize = 0;
    while b < cfg.blocks.len()
        invariant
            cfg.wf(),
            b <= cfg.blocks@.len(),
            sorted_names(res@),
            top.all_names().subset_of(names_of(res@)),
            forall|c: int| 0 <= c < b && cfg.blocks@[c] is Some ==> block_names(#[trigger] cfg.blocks@[c]->0).subset_of(names_of(res@)),
        decreases cfg.blocks@.len() - b,
    {
        match &cfg.blocks[b] {
            Some(blk) => {
                let mut i: usize = 0;
                while i < blk.stmts.len()
                    invariant
                        cfg.wf(),
                        b < cfg.blocks@.len(),
                        i <= blk.stmts@.len(),
                        sorted_names(res@),
                        top.all_names().subset_of(names_of(res@)),
                        forall|c: int| 0 <= c < b && cfg.blocks@[c] is Some ==> block_names(#[trigger] cfg.blocks@[c]->0).subset_of(names_of(res@)),
                        forall|k: int| 0 <= k < i ==> def_set(body_defs(#[trigger] blk.stmts@[k])).subset_of(names_of(res@)),
                    decreases blk.stmts@.len() - i,
                {
                    if let Some(d) = blk.stmts[i].get_defs() {
                        proof {
                            crate::dataflow::lemma_names_views(d@);
                        }
                        insert_names(&mut res, &d);
                    }
                    i += 1;
                }
                blk.terminator.get_uses(&mut res);
                if let Some(d) = blk.terminator.get_defs() {
                    proof {
                        crate::dataflow::lemma_names_views(d@);
                    }
                    insert_names(&mut res, &d);
                }
                if let Terminator::Select { dests, .. } = &blk.terminator {
                    insert_names(&mut res, &crate::hir::dest_list(dests));
                }
                assert(block_names(*blk).subset_of(names_of(res@))) by {
                    assert forall|s: Seq<char>| stmts_defs(blk.stmts@).contains(s) implies names_of(res@).contains(s) by {
                        let k = choose|k: int| 0 <= k < blk.stmts@.len() && #[trigger] def_set(body_defs(blk.stmts@[k])).contains(s);
                        assert(def_set(body_defs(blk.stmts@[k])).subset_of(names_of(res@)));
                    }
                }
            },
            None => {},
        }
        b += 1;
    }
    res
}

/// The available sets of computed facts.
pub open spec fn rd_avails(outs: Seq<Option<ReachingDefs>>) -> Seq<Option<Set<Seq<char>>>> {
    outs.map_values(
        |o: Option<ReachingDefs>|
            match o {
                Some(f) => Some(f.available()),
                None => None,
            },
    )
}

/// The killed sets of computed facts.
pub open spec fn rd_kills(outs: Seq<Option<ReachingDefs>>) -> Seq<Option<Set<Seq<char>>>> {
    outs.map_values(
        |o: Option<ReachingDefs>|
            match o {
                Some(f) => Some(f.killed()),
                None => None,
            },
    )
}

/// The definitions available on entry to block `s`: those of `top` and those
/// available on exit from its reached predecessors.
pub open spec fn rd_entry_avail(cfg: Cfg, top: ReachingDefs, outs: Seq<Option<ReachingDefs>>, s: usize) -> Set<Seq<char>> {
    top.available().union(edge_union(cfg, rd_avails(outs), s, true))
}

/// The definitions killed on entry to block `s`: `top` met with the exit facts
/// of its reached predecessors. Those of `top` and of the predecessors are
/// killed, and so is every available definition that `top` lacks (it is missing
/// on some path); a definition of `top` is available on every path.
pub open spec fn rd_entry_kill(cfg: Cfg, top: ReachingDefs, outs: Seq<Option<ReachingDefs>>, s: usize) -> Set<Seq<char>> {
    top.killed().union(edge_union(cfg, rd_kills(outs), s, true)).union(
        rd_entry_avail(cfg, top, outs, s).difference(top.available()),
    )
}

/// Reaching definitions of every block, by the worklist algorithm run forwards
/// from the start block, every block starting from the fact `top`. On return,
/// every block the analysis reached has its exit fact computed from its entry
/// fact; for each edge out of a reached block, the target was reached, its
/// entry fact holds the available and killed definitions of the source's exit
/// fact, and a definition reaches the target only if it reaches the exit of
/// the source.
pub fn analyze_reaching_defs(cfg: &Cfg, top: &ReachingDefs) -> (res: InOutFacts<ReachingDefs>)
    requires
        cfg.wf(),
        top.wf(),
        cfg.graph.has_block(START_BLOCK_ID as int),
        forall|b: int| 0 <= b < cfg.blocks@.len() && cfg.blocks@[b] is Some ==> !((#[trigger] cfg.blocks@[b]->0).terminator is CaptureCall)
            && (cfg.blocks@[b]->0.terminator is Select ==> cfg.blocks@[b]->0.ret_block is Some),
    ensures
        res.in_facts@.len() == cfg.blocks@.len(),
        res.out_facts@.len() == cfg.blocks@.len(),
        res.out_facts@[START_BLOCK_ID as int] is Some,
        forall|b: int| 0 <= b < cfg.blocks@.len() ==> (#[trigger] res.in_facts@[b]).wf() && same_context(res.in_facts@[b], *top),
        forall|b: usize|
            (b as int) < cfg.blocks@.len() && #[trigger] res.out_facts@[b as int] is Some ==> {
                let o = res.out_facts@[b as int]->0;
                let i = res.in_facts@[b as int];
                &&& cfg.graph.has_block(b as int)
                &&& o.wf()
                &&& o.available() == rd_avail_out(i, cfg.block(b as int))
                &&& o.killed() == rd_kill_out(i, cfg.block(b as int))
                &&& forall|c: usize| #[trigger] o.pending(c) == rd_pending_out(i, cfg.block(b as int), c)
                &&& o.references() == top.references()
                &&& o.variables() == top.variables()
            },
        forall|b: usize, s: usize|
            (b as int) < cfg.blocks@.len() && res.out_facts@[b as int] is Some && #[trigger] cfg.edge(b, s) ==> {
                let o = res.out_facts@[b as int]->0;
                let i = res.in_facts@[s as int];
                &&& res.out_facts@[s as int] is Some
                &&& o.available().subset_of(i.available())
                &&& o.killed().subset_of(i.killed())
                &&& reach(i).subset_of(reach(o))
            },
        forall|s: usize|
            (s as int) < cfg.blocks@.len() ==> (#[trigger] res.in_facts@[s as int]).available() == rd_entry_avail(
                *cfg,
                *top,
                res.out_facts@,
                s,
            ) && res.in_facts@[s as int].killed() == rd_entry_kill(*cfg, *top, res.out_facts@, s),
{
    let n = cfg.blocks.len();
    let succs = Forwards::get_adj_list(&cfg.graph);
    let d = max_degree(&succs);
    let uvec = rd_names(cfg, top);
    let ghost u = names_of(uvec@);
    proof {
        crate::dataflow::lemma_names_views(uvec@);
        vstd::seq_lib::seq_to_set_is_finite(crate::hir::name_views(uvec@));
        assert forall|b: usize| #[trigger] top.pending(b).subset_of(u) by {
            top.lemma_pending_in_names(b);
        }
        top.lemma_all_names();
    }
    let ghost k: int = 2 * u.len() as int + 1;
    let ghost bound: int = n * k;
    let mut inf: Vec<ReachingDefs> = Vec::new();
    let mut outf: Vec<Option<ReachingDefs>> = Vec::new();
    let mut c: usize = 0;
    while c < n
        invariant
            c <= n,
            n == cfg.blocks@.len(),
            top.wf(),
            inf@.len() == c,
            outf@.len() == c,
            forall|i: int| 0 <= i < c ==> (#[trigger] inf@[i]).wf() && same_context(inf@[i], *top)
                && inf@[i].available() == top.available() && inf@[i].killed() == top.killed(),
            forall|i: int| 0 <= i < c ==> #[trigger] outf@[i] is None,
        decreases n - c,
    {
        inf.push(top.copy());
        outf.push(None);
        c += 1;
    }
    let mut wl: Vec<usize> = Vec::new();
    wl.push(Forwards::root_id());
    assert(wl@[0] == START_BLOCK_ID);
    proof {
        lemma_rd_total_bound(outf@, k);
        assert forall|t: usize| (t as int) < n implies (#[trigger] inf@[t as int]).available() == rd_entry_avail(*cfg, *top, outf@, t)
            && inf@[t as int].killed() == rd_entry_kill(*cfg, *top, outf@, t) by {
            assert(edge_union(*cfg, rd_avails(outf@), t, true) =~= Set::<Seq<char>>::empty());
            assert(edge_union(*cfg, rd_kills(outf@), t, true) =~= Set::<Seq<char>>::empty());
            assert(rd_entry_avail(*cfg, *top, outf@, t) =~= top.available());
            assert(rd_entry_kill(*cfg, *top, outf@, t) =~= top.killed());
        }
    }
    while wl.len() > 0
        invariant
            cfg.wf(),
            cfg.graph.has_block(START_BLOCK_ID as int),
            top.wf(),
            forall|b: int| 0 <= b < cfg.blocks@.len() && cfg.blocks@[b] is Some ==> !((#[trigger] cfg.blocks@[b]->0).terminator is CaptureCall)
                && (cfg.blocks@[b]->0.terminator is Select ==> cfg.blocks@[b]->0.ret_block is Some),
            n == cfg.blocks@.len(),
            succs.adj@.len() == n,
            succs.wf(),
            forall|b: int| 0 <= b < n ==> #[trigger] succs.adj@[b]@ == (match cfg.graph.edges@[b] {
                Some(e) => edge_targets(e),
                None => seq![],
            }),
            forall|b: int| 0 <= b < n ==> #[trigger] succs.adj@[b]@.len() <= d,
            u == names_of(uvec@),
            u.finite(),
            k == 2 * u.len() + 1,
            bound == n * k,
            top.all_names().subset_of(u),
            forall|b: usize| #[trigger] top.pending(b).subset_of(u),
            forall|b: int| 0 <= b < n && cfg.blocks@[b] is Some ==> block_names(#[trigger] cfg.blocks@[b]->0).subset_of(u),
            inf@.len() == n,
            outf@.len() == n,
            forall|b: int| 0 <= b < n ==> (#[trigger] inf@[b]).wf() && same_context(inf@[b], *top)
                && inf@[b].available().subset_of(u) && inf@[b].killed().subset_of(u),
            forall|b: int| 0 <= b < wl@.len() ==> (#[trigger] wl@[b] as int) < n && cfg.graph.has_block(wl@[b] as int),
            forall|b: usize|
                (b as int) < n && #[trigger] outf@[b as int] is Some ==> {
                    let o = outf@[b as int]->0;
                    let i = inf@[b as int];
                    &&& cfg.graph.has_block(b as int)
                    &&& o.wf()
                    &&& o.available().subset_of(u)
                    &&& o.killed().subset_of(u)
                    &&& o.available().subset_of(rd_avail_out(i, cfg.block(b as int)))
                    &&& o.killed().subset_of(rd_kill_out(i, cfg.block(b as int)))
                    &&& forall|c: usize| #[trigger] o.pending(c) == rd_pending_out(i, cfg.block(b as int), c)
                    &&& o.references() == top.references()
                    &&& o.variables() == top.variables()
                    &&& !wl@.contains(b) ==> o.available() == rd_avail_out(i, cfg.block(b as int))
                        && o.killed() == rd_kill_out(i, cfg.block(b as int))
                },
            forall|b: usize, s: usize|
                (b as int) < n && outf@[b as int] is Some && #[trigger] succs.adj@[b as int]@.contains(s) ==> {
                    let o = outf@[b as int]->0;
                    let i = inf@[s as int];
                    &&& o.available().subset_of(i.available())
                    &&& o.killed().subset_of(i.killed())
                    &&& reach(i).subset_of(reach(o))
                    &&& (outf@[s as int] is Some || wl@.contains(s))
                },
            outf@[START_BLOCK_ID as int] is Some || wl@.contains(START_BLOCK_ID),
            0 <= rd_total(outf@) <= bound,
            forall|c: usize| (c as int) < n ==> top.available().subset_of((#[trigger] inf@[c as int]).available()),
            forall|c: usize| (c as int) < n && #[trigger] outf@[c as int] is Some ==> top.available().subset_of(outf@[c as int]->0.available()),
            forall|t: usize|
                (t as int) < n ==> (#[trigger] inf@[t as int]).available() == rd_entry_avail(*cfg, *top, outf@, t)
                    && inf@[t as int].killed() == rd_entry_kill(*cfg, *top, outf@, t),
        decreases (d + 1) * (bound - rd_total(outf@)) + wl@.len(),
    {
        let ghost w0 = wl@;
        let ghost i0 = inf@;
        let ghost o0 = outf@;
        let b = wl.pop().unwrap();
        proof {
            assert(wl@ == w0.drop_last());
            assert(w0[w0.len() - 1] == b);
        }
        let out = match &cfg.blocks[b] {
            Some(blk) => {
                let cur = inf[b].copy();
                let ghost gc = cur;
                let o = cur.analyze_basic_block(blk);
                proof {
                    let i = i0[b as int];
                    assert(gc.pending(blk.id) == i.pending(blk.id));
                    assert(rd_avail_tail(gc, *blk) == rd_avail_tail(i, *blk));
                    assert(o.available() == rd_avail_out(i, *blk));
                    assert(o.killed() == rd_kill_out(i, *blk));
                    assert forall|e: usize| #[trigger] o.pending(e) == rd_pending_out(i, *blk, e) by {
                        assert(gc.pending(e) == i.pending(e));
                    }
                }
                o
            },
            None => {
                proof {
                    assert(false);
                }
                top.copy()
            },
        };
        proof {
            let blk = cfg.block(b as int);
            assert(block_names(cfg.blocks@[b as int]->0).subset_of(u));
            assert(top.pending(blk.id).subset_of(u));
            assert(i0[b as int].pending(blk.id) == top.pending(blk.id));
            lemma_rd_block(i0[b as int], i0[b as int], blk);
            assert(out.available().subset_of(u));
            assert(out.killed().subset_of(u));
            vstd::set_lib::lemma_len_subset(out.available(), u);
            vstd::set_lib::lemma_len_subset(out.killed(), u);
        }
        let changed = match &outf[b] {
            Some(o) => !o.same_sets(&out),
            None => true,
        };
        if changed {
            proof {
                assert forall|i: int| 0 <= i < succs.adj@[b as int]@.len() implies #[trigger] succs.adj@[b as int]@[i] < inf@.len() by {
                    assert(succs.adjs()[b as int][i] == succs.adj@[b as int]@[i]);
                }
            }
            broadcast_rd(&mut inf, &out, &succs.adj[b]);
            push_all(&mut wl, &succs.adj[b]);
        }
        let ghost i1 = inf@;
        let ghost w1 = wl@;
        outf.set(b, Some(out));
        proof {
            let sb = succs.adj@[b as int]@;
            assert forall|c: usize| (c as int) < n implies {
                &&& (#[trigger] i1[c as int]).available().subset_of(i1[c as int].available())
                &&& i0[c as int].available().subset_of(i1[c as int].available())
                &&& i0[c as int].killed().subset_of(i1[c as int].killed())
                &&& reach(i1[c as int]).subset_of(reach(i0[c as int]))
                &&& same_context(i1[c as int], i0[c as int])
                &&& (changed && sb.contains(c) ==> met(i1[c as int], i0[c as int], out))
                &&& (!(changed && sb.contains(c)) ==> i1[c as int] == i0[c as int])
            } by {
                if !changed {
                    assert(i1[c as int] == i0[c as int]);
                }
            }
            assert forall|c: usize| #[trigger] w1.contains(c) <==> (w0.drop_last().contains(c) || (changed && sb.contains(c))) by {
                if changed {
                    assert(w1 == w0.drop_last() + sb);
                    if w1.contains(c) {
                        let j = choose|j: int| 0 <= j < w1.len() && w1[j] == c;
                        if j < w0.len() - 1 {
                            assert(w0.drop_last()[j] == c);
                        } else {
                            assert(sb[j - (w0.len() - 1)] == c);
                        }
                    }
                    if w0.drop_last().contains(c) {
                        let j = choose|j: int| 0 <= j < w0.len() - 1 && w0.drop_last()[j] == c;
                        assert(w1[j] == c);
                    }
                    if sb.contains(c) {
                        let j = choose|j: int| 0 <= j < sb.len() && sb[j] == c;
                        assert(w1[w0.len() - 1 + j] == c);
                    }
                }
            }
            assert forall|c: usize| #[trigger] w0.contains(c) <==> (w0.drop_last().contains(c) || c == b) by {
                if w0.contains(c) {
                    let j = choose|j: int| 0 <= j < w0.len() && w0[j] == c;
                    if j < w0.len() - 1 {
                        assert(w0.drop_last()[j] == c);
                    }
                }
                if w0.drop_last().contains(c) {
                    let j = choose|j: int| 0 <= j < w0.len() - 1 && w0.drop_last()[j] == c;
                    assert(w0[j] == c);
                }
                if c == b {
                    assert(w0[w0.len() - 1] == c);
                }
            }
            assert forall|c: int| 0 <= c < n implies (#[trigger] inf@[c]).wf() && same_context(inf@[c], *top)
                && inf@[c].available().subset_of(u) && inf@[c].killed().subset_of(u) by {
                assert(i0[c as usize as int].available().subset_of(u));
            }
            assert forall|j: int| 0 <= j < wl@.len() implies (#[trigger] wl@[j] as int) < n && cfg.graph.has_block(wl@[j] as int) by {
                if changed && j >= w0.len() - 1 {
                    let s = wl@[j];
                    assert(sb[j - (w0.len() - 1)] == s);
                    assert(edge_targets(cfg.graph.edges@[b as int]->0)[j - (w0.len() - 1)] == s);
                } else {
                    assert(w0[j] == wl@[j]);
                }
            }
            assert forall|c: usize| (c as int) < n && #[trigger] outf@[c as int] is Some implies {
                let o = outf@[c as int]->0;
                let i = inf@[c as int];
                &&& cfg.graph.has_block(c as int)
                &&& o.wf()
                &&& o.available().subset_of(u)
                &&& o.killed().subset_of(u)
                &&& o.available().subset_of(rd_avail_out(i, cfg.block(c as int)))
                &&& o.killed().subset_of(rd_kill_out(i, cfg.block(c as int)))
                &&& forall|e: usize| #[trigger] o.pending(e) == rd_pending_out(i, cfg.block(c as int), e)
                &&& o.references() == top.references()
                &&& o.variables() == top.variables()
                &&& !wl@.contains(c) ==> o.available() == rd_avail_out(i, cfg.block(c as int))
                    && o.killed() == rd_kill_out(i, cfg.block(c as int))
            } by {
                lemma_rd_block(i0[c as int], i1[c as int], cfg.block(c as int));
                assert(i0[c as int].available().subset_of(i1[c as int].available()));
                if c != b {
                    assert(outf@[c as int] == o0[c as int]);
                    if !wl@.contains(c) {
                        assert(!w0.contains(c));
                        assert(i1[c as int] == i0[c as int]);
                    }
                } else {
                    if !wl@.contains(c) {
                        assert(i1[c as int] == i0[c as int]);
                    }
                }
            }
            assert forall|c: usize, t: usize|
                (c as int) < n && outf@[c as int] is Some && #[trigger] succs.adj@[c as int]@.contains(t) implies {
                    let o = outf@[c as int]->0;
                    let i = inf@[t as int];
                    &&& o.available().subset_of(i.available())
                    &&& o.killed().subset_of(i.killed())
                    &&& reach(i).subset_of(reach(o))
                    &&& (outf@[t as int] is Some || wl@.contains(t))
                } by {
                let j = choose|j: int| 0 <= j < succs.adj@[c as int]@.len() && succs.adj@[c as int]@[j] == t;
                assert(succs.adjs()[c as int][j] == t);
                assert((t as int) < n);
                if t == b {
                    assert(outf@[t as int] is Some);
                }
                if c != b {
                    assert(outf@[c as int] == o0[c as int]);
                } else if !changed {
                    assert(o0[b as int] is Some);
                }
            }
            if !(o0[START_BLOCK_ID as int] is Some) {
                assert(w0.contains(START_BLOCK_ID));
                if START_BLOCK_ID != b {
                    assert(w0.drop_last().contains(START_BLOCK_ID));
                    assert(w1.contains(START_BLOCK_ID));
                }
            }
            // the entry facts are `top` met with the exit facts of the reached predecessors
            assert(top.available().subset_of(out.available())) by {
                assert(top.available().subset_of(i0[b as int].available()));
            }
            assert(rd_avails(outf@) =~= rd_avails(o0).update(b as int, Some(out.available())));
            assert(rd_kills(outf@) =~= rd_kills(o0).update(b as int, Some(out.killed())));
            assert forall|c: usize| (c as int) < n implies top.available().subset_of((#[trigger] inf@[c as int]).available()) by {
                assert(top.available().subset_of(i0[c as int].available()));
            }
            assert forall|c: usize| (c as int) < n && #[trigger] outf@[c as int] is Some implies top.available().subset_of(outf@[c as int]->0.available()) by {
                if c != b {
                    assert(outf@[c as int] == o0[c as int]);
                }
            }
            assert forall|t: usize| (t as int) < n implies (#[trigger] inf@[t as int]).available() == rd_entry_avail(*cfg, *top, outf@, t)
                && inf@[t as int].killed() == rd_entry_kill(*cfg, *top, outf@, t) by {
                let ea = edge_union(*cfg, rd_avails(o0), t, true);
                let ek = edge_union(*cfg, rd_kills(o0), t, true);
                assert(i0[t as int].available() == rd_entry_avail(*cfg, *top, o0, t));
                assert(i0[t as int].killed() == rd_entry_kill(*cfg, *top, o0, t));
                assert(top.available().subset_of(i0[t as int].available()));
                lemma_edge_union_update(*cfg, rd_avails(o0), t, true, b, out.available());
                lemma_edge_union_update(*cfg, rd_kills(o0), t, true, b, out.killed());
                assert(cfg.edge(b, t) == sb.contains(t));
                if cfg.edge(b, t) {
                    if changed {
                        assert(met(inf@[t as int], i0[t as int], out));
                        assert(inf@[t as int].available() =~= rd_entry_avail(*cfg, *top, outf@, t));
                        assert(inf@[t as int].killed() =~= rd_entry_kill(*cfg, *top, outf@, t));
                    } else {
                        assert(rd_avails(o0)[b as int] == Some(o0[b as int]->0.available()));
                        assert(rd_kills(o0)[b as int] == Some(o0[b as int]->0.killed()));
                        assert(ea.union(out.available()) =~= ea) by {
                            assert forall|e: Seq<char>| out.available().contains(e) implies ea.contains(e) by {
                                assert(rd_avails(o0)[b as int] is Some && rd_avails(o0)[b as int]->0.contains(e));
                            }
                        }
                        assert(ek.union(out.killed()) =~= ek) by {
                            assert forall|e: Seq<char>| out.killed().contains(e) implies ek.contains(e) by {
                                assert(rd_kills(o0)[b as int] is Some && rd_kills(o0)[b as int]->0.contains(e));
                            }
                        }
                        assert(inf@[t as int] == i0[t as int]);
                    }
                } else {
                    assert(inf@[t as int] == i0[t as int]);
                }
            }
            // termination measure
            lemma_rd_total_update(o0, b as int, Some(out));
            assert(outf@ == o0.update(b as int, Some(out)));
            if changed {
                if o0[b as int] is Some {
                    let o = o0[b as int]->0;
                    vstd::set_lib::lemma_len_subset(o.available(), out.available());
                    vstd::set_lib::lemma_len_subset(o.killed(), out.killed());
                    if o.available() != out.available() {
                        lemma_proper_subset_len(o.available(), out.available());
                    } else {
                        lemma_proper_subset_len(o.killed(), out.killed());
                    }
                }
                assert(rd_count(Some(out)) >= rd_count(o0[b as int]) + 1);
                assert(wl@.len() <= w0.len() - 1 + d);
                let t0 = rd_total(o0);
                let t1 = rd_total(outf@);
                assert((d + 1) * (bound - t1) <= (d + 1) * (bound - t0) - (d + 1)) by (nonlinear_arith)
                    requires
                        t1 >= t0 + 1,
                        d + 1 >= 1,
                ;
            } else {
                assert(o0[b as int]->0.available() == out.available());
                assert(rd_total(outf@) == rd_total(o0));
            }
            assert forall|i: int| 0 <= i < outf@.len() implies 0 <= #[trigger] rd_count(outf@[i]) <= k by {
                if outf@[i] is Some {
                    assert(outf@[i as usize as int] is Some);
                    vstd::set_lib::lemma_len_subset(outf@[i]->0.available(), u);
                    vstd::set_lib::lemma_len_subset(outf@[i]->0.killed(), u);
                }
            }
            lemma_rd_total_bound(outf@, k);
            assert(0 <= (d + 1) * (bound - rd_total(outf@))) by (nonlinear_arith)
                requires
                    rd_total(outf@) <= bound,
                    d + 1 >= 1,
            ;
        }
    }
    proof {
        assert forall|b: usize, s: usize|
            (b as int) < cfg.blocks@.len() && outf@[b as int] is Some && #[trigger] cfg.edge(b, s) implies {
                let o = outf@[b as int]->0;
                let i = inf@[s as int];
                &&& outf@[s as int] is Some
                &&& o.available().subset_of(i.available())
                &&& o.killed().subset_of(i.killed())
                &&& reach(i).subset_of(reach(o))
            } by {
            assert(succs.adj@[b as int]@.contains(s));
        }
    }
    InOutFacts { in_facts: inf, out_facts: outf }
}

} // verus!
