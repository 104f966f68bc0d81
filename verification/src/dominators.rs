//! Dominators and post-dominators of the blocks of a CFG, and the dominator tree.
use vstd::prelude::*;

use crate::cfg::{edge_targets, BlockGraph, FlowGraph};

verus! {

/// `c` is a chain of existing blocks, each linked to the next by `rel`, that ends
/// at a block from which `rel` leads nowhere.
pub open spec fn is_chain(present: Seq<bool>, rel: spec_fn(int, int) -> bool, c: Seq<int>) -> bool {
    &&& c.len() > 0
    &&& forall|i: int| 0 <= i < c.len() ==> 0 <= #[trigger] c[i] < present.len() && present[c[i]]
    &&& forall|i: int| 0 <= i < c.len() - 1 ==> #[trigger] rel(c[i], c[i + 1])
    &&& forall|y: int| !#[trigger] rel(c.last(), y)
}

/// Every chain from `b` passes through the existing block `d`.
pub open spec fn always_passes(
    present: Seq<bool>,
    rel: spec_fn(int, int) -> bool,
    d: int,
    b: int,
) -> bool {
    &&& 0 <= d < present.len()
    &&& present[d]
    &&& forall|c: Seq<int>| #[trigger] is_chain(present, rel, c) && c[0] == b ==> c.contains(d)
}

/// The relation "`y` is listed in `adj[x]`" over the blocks of a graph.
pub open spec fn adj_rel(adj: Seq<Seq<usize>>) -> spec_fn(int, int) -> bool {
    |x: int, y: int| 0 <= x < adj.len() && 0 <= y < adj.len() && adj[x].contains(y as usize)
}

/// The relation "`y` is a predecessor of `x`" in a CFG.
pub open spec fn pred_rel(cfg: FlowGraph) -> spec_fn(int, int) -> bool {
    |x: int, y: int|
        0 <= x < cfg.edges@.len() && cfg.has_block(y) && edge_targets(cfg.edges@[y]->0).contains(
            x as usize,
        )
}

/// The relation "`y` is a successor of `x`" in a CFG.
pub open spec fn succ_rel(cfg: FlowGraph) -> spec_fn(int, int) -> bool {
    |x: int, y: int|
        cfg.has_block(x) && 0 <= y < cfg.edges@.len() && edge_targets(cfg.edges@[x]->0).contains(
            y as usize,
        )
}

/// Whether each block of the CFG exists.
pub open spec fn presence(cfg: FlowGraph) -> Seq<bool> {
    Seq::new(cfg.edges@.len(), |b: int| cfg.edges@[b] is Some)
}

/// `d` dominates `b`: every path from a block without predecessors to `b` passes through `d`.
pub open spec fn dominates(cfg: FlowGraph, d: int, b: int) -> bool {
    always_passes(presence(cfg), pred_rel(cfg), d, b)
}

/// `d` post-dominates `b`: every path from `b` to a block without successors passes through `d`.
pub open spec fn postdominates(cfg: FlowGraph, d: int, b: int) -> bool {
    always_passes(presence(cfg), succ_rel(cfg), d, b)
}

/// The number of set entries.
pub open spec fn count_true(s: Seq<bool>) -> nat
    decreases s.len(),
{
    if s.len() == 0 {
        0
    } else {
        count_true(s.drop_last()) + if s.last() {
            1nat
        } else {
            0nat
        }
    }
}

/// The number of set entries over all rows.
pub open spec fn total_true(rows: Seq<Seq<bool>>) -> nat
    decreases rows.len(),
{
    if rows.len() == 0 {
        0
    } else {
        total_true(rows.drop_last()) + count_true(rows.last())
    }
}

/// The rows of a boolean matrix.
pub open spec fn rows_of(m: Seq<Vec<bool>>) -> Seq<Seq<bool>> {
    m.map_values(|r: Vec<bool>| r@)
}

/// One step of the dominator equations: `d` is `b` itself, or lies in the sets of
/// all of `b`'s (at least one) neighbors.
pub open spec fn dom_step(adj: Seq<Seq<usize>>, comp: Seq<Seq<bool>>, b: int, d: int) -> bool {
    d == b || (adj[b].len() > 0 && forall|i: int|
        0 <= i < adj[b].len() ==> #[trigger] comp[adj[b][i] as int][d])
}

/// A subset has no more set entries, and strictly fewer when it differs.
pub(crate) proof fn lemma_count_subset(s1: Seq<bool>, s2: Seq<bool>)
    requires
        s1.len() == s2.len(),
        forall|i: int| 0 <= i < s1.len() && #[trigger] s1[i] ==> s2[i],
    ensures
        count_true(s1) <= count_true(s2),
        s1 != s2 ==> count_true(s1) < count_true(s2),
    decreases s1.len(),
{
    if s1.len() > 0 {
        let a = s1.drop_last();
        let b = s2.drop_last();
        assert forall|i: int| 0 <= i < a.len() && #[trigger] a[i] implies b[i] by {
            assert(s1[i]);
        }
        lemma_count_subset(a, b);
        if s1 != s2 && a == b {
            assert(s1.last() != s2.last()) by {
                if s1.last() == s2.last() {
                    assert(s1 =~= s2) by {
                        assert forall|i: int| 0 <= i < s1.len() implies s1[i] == s2[i] by {
                            if i < a.len() {
                                assert(a[i] == b[i]);
                            }
                        }
                    }
                }
            }
        }
    } else {
        assert(s1 =~= s2);
    }
}

/// Replacing one row changes the total by the difference of the rows' counts.
pub(crate) proof fn lemma_total_update(rows: Seq<Seq<bool>>, b: int, r: Seq<bool>)
    requires
        0 <= b < rows.len(),
    ensures
        total_true(rows.update(b, r)) + count_true(rows[b]) == total_true(rows) + count_true(r),
    decreases rows.len(),
{
    let u = rows.update(b, r);
    if b == rows.len() - 1 {
        assert(u.drop_last() =~= rows.drop_last());
    } else {
        lemma_total_update(rows.drop_last(), b, r);
        assert(u.drop_last() =~= rows.drop_last().update(b, r));
    }
}

/// A set entry that obeys the dominator equations lies on every chain.
proof fn lemma_fixpoint_complete(
    present: Seq<bool>,
    adj: Seq<Seq<usize>>,
    comp: Seq<Seq<bool>>,
    c: Seq<int>,
    d: int,
    i: int,
)
    requires
        graph_rows_wf(present, adj, comp),
        forall|x: int, e: int|
            0 <= x < adj.len() && present[x] && 0 <= e < adj.len() && #[trigger] comp[x][e]
                ==> dom_step(adj, comp, x, e),
        is_chain(present, adj_rel(adj), c),
        0 <= i < c.len(),
        0 <= d < adj.len(),
        comp[c[i]][d],
    ensures
        c.subrange(i, c.len() as int).contains(d),
    decreases c.len() - i,
{
    let x = c[i];
    assert(present[x]);
    assert(dom_step(adj, comp, x, d));
    if d == x {
        assert(c.subrange(i, c.len() as int)[0] == d);
    } else {
        if i == c.len() - 1 {
            let y = adj[x][0] as int;
            assert(adj[x].contains(adj[x][0]));
            assert(adj_rel(adj)(c.last(), y));
        } else {
            assert(adj_rel(adj)(c[i], c[i + 1]));
            let y = c[i + 1];
            assert(adj[x].contains(y as usize));
            let k = choose|k: int| 0 <= k < adj[x].len() && adj[x][k] == y as usize;
            assert(comp[adj[x][k] as int][d]);
            assert(adj[x][k] as int == y);
            lemma_fixpoint_complete(present, adj, comp, c, d, i + 1);
            let w = choose|w: int|
                0 <= w < c.len() - (i + 1) && #[trigger] c.subrange(i + 1, c.len() as int)[w] == d;
            assert(c.subrange(i, c.len() as int)[w + 1] == d);
        }
    }
}

/// If `d` lies on every chain from `b` and differs from `b`, it lies on every
/// chain from each neighbor of `b`.
proof fn lemma_passes_neighbor(present: Seq<bool>, adj: Seq<Seq<usize>>, d: int, b: int, p: int)
    requires
        present.len() == adj.len(),
        always_passes(present, adj_rel(adj), d, b),
        d != b,
        0 <= b < adj.len(),
        present[b],
        adj_rel(adj)(b, p),
    ensures
        always_passes(present, adj_rel(adj), d, p),
{
    assert forall|c: Seq<int>| #[trigger]
        is_chain(present, adj_rel(adj), c) && c[0] == p implies c.contains(d) by {
        let c2 = seq![b].add(c);
        assert(c2[0] == b);
        assert forall|i: int| 0 <= i < c2.len() - 1 implies #[trigger] adj_rel(adj)(c2[i], c2[i + 1]) by {
            if i > 0 {
                assert(c2[i] == c[i - 1] && c2[i + 1] == c[i]);
                assert(adj_rel(adj)(c[i - 1], c[(i - 1) + 1]));
            } else {
                assert(c2[0] == b && c2[1] == c[0]);
            }
        }
        assert forall|i: int| 0 <= i < c2.len() implies 0 <= #[trigger] c2[i] < present.len()
            && present[c2[i]] by {
            if i > 0 {
                assert(c2[i] == c[i - 1]);
                assert(0 <= c[i - 1] < present.len());
            }
        }
        assert(c2.last() == c.last());
        assert(is_chain(present, adj_rel(adj), c2));
        assert(c2.contains(d));
        let w = choose|w: int| 0 <= w < c2.len() && c2[w] == d;
        assert(w > 0);
        assert(c[w - 1] == d);
    }
}

/// The rows of `comp` cover the graph's blocks and only hold existing blocks.
pub open spec fn graph_rows_wf(present: Seq<bool>, adj: Seq<Seq<usize>>, comp: Seq<Seq<bool>>) -> bool {
    &&& crate::cfg::graph_wf(present, adj)
    &&& adj.len() <= usize::MAX
    &&& comp.len() == adj.len()
    &&& forall|x: int| 0 <= x < comp.len() ==> #[trigger] comp[x].len() == adj.len()
    &&& forall|x: int, e: int|
        0 <= x < comp.len() && 0 <= e < adj.len() && #[trigger] comp[x][e] ==> present[x]
            && present[e]
}

/// Computes, for each block `b`, the set of blocks that every chain from `b` along
/// `g`'s edges (to a block with no edges) passes through. With predecessor edges
/// these are the dominators of `b`; with successor edges, its post-dominators.
/// Rows of missing blocks are empty.
pub fn make_dom_map(g: &BlockGraph) -> (res: Vec<Vec<bool>>)
    requires
        g.wf(),
    ensures
        res@.len() == g.adj@.len(),
        forall|b: int| 0 <= b < res@.len() ==> #[trigger] res@[b]@.len() == g.adj@.len(),
        forall|b: int, d: int|
            0 <= b < res@.len() && 0 <= d < g.adj@.len() ==> (#[trigger] res@[b]@[d] <==> (
            g.present@[b] && always_passes(g.present@, adj_rel(g.adjs()), d, b))),
{
    let n = g.adj.len();
    let ghost adj = g.adjs();
    let ghost present = g.present@;
    let mut comp: Vec<Vec<bool>> = Vec::new();
    let mut b: usize = 0;
    while b < n
        invariant
            g.wf(),
            n == g.adj@.len(),
            adj == g.adjs(),
            present == g.present@,
            b <= n,
            comp@.len() == b,
            forall|x: int| 0 <= x < b ==> #[trigger] comp@[x]@.len() == n,
            forall|x: int, e: int|
                0 <= x < b && 0 <= e < n ==> (#[trigger] comp@[x]@[e] == (present[x] && present[e])),
        decreases n - b,
    {
        let mut row: Vec<bool> = Vec::new();
        let mut d: usize = 0;
        while d < n
            invariant
                n == g.adj@.len(),
                present == g.present@,
                present.len() == n,
                b < n,
                d <= n,
                row@.len() == d,
                forall|e: int| 0 <= e < d ==> #[trigger] row@[e] == (present[b as int] && present[e]),
            decreases n - d,
        {
            row.push(g.present[b] && g.present[d]);
            d += 1;
        }
        comp.push(row);
        b += 1;
    }
    proof {
        assert forall|x: int, e: int|
            0 <= x < n && present[x] && 0 <= e < n && dom_step(adj, rows_of(comp@), x, e)
                implies #[trigger] comp@[x]@[e] by {
            if e != x {
                assert(rows_of(comp@)[adj[x][0] as int] == comp@[adj[x][0] as int]@);
                assert(rows_of(comp@)[adj[x][0] as int][e]);
            }
        }
        assert(graph_rows_wf(present, adj, rows_of(comp@))) by {
            assert forall|x: int| 0 <= x < n implies #[trigger] rows_of(comp@)[x].len() == n by {
                assert(rows_of(comp@)[x] == comp@[x]@);
            }
            assert forall|x: int, e: int|
                0 <= x < n && 0 <= e < n && #[trigger] rows_of(comp@)[x][e] implies present[x]
                    && present[e] by {
                assert(rows_of(comp@)[x] == comp@[x]@);
            }
        }
    }
    let mut changed = true;
    while changed
        invariant
            g.wf(),
            n == g.adj@.len(),
            adj == g.adjs(),
            present == g.present@,
            graph_rows_wf(present, adj, rows_of(comp@)),
            forall|x: int, e: int|
                0 <= x < n && present[x] && 0 <= e < n && dom_step(adj, rows_of(comp@), x, e)
                    ==> #[trigger] comp@[x]@[e],
            forall|x: int, e: int|
                0 <= x < n && present[x] && always_passes(present, adj_rel(adj), e, x)
                    ==> #[trigger] comp@[x]@[e],
            !changed ==> forall|x: int, e: int|
                0 <= x < n && present[x] && 0 <= e < n && #[trigger] comp@[x]@[e] ==> dom_step(
                    adj,
                    rows_of(comp@),
                    x,
                    e,
                ),
        decreases total_true(rows_of(comp@)), if changed {
            1int
        } else {
            0int
        },
    {
        changed = false;
        let ghost start_rows = rows_of(comp@);
        let mut b: usize = 0;
        while b < n
            invariant
                g.wf(),
                n == g.adj@.len(),
                adj == g.adjs(),
                present == g.present@,
                b <= n,
                graph_rows_wf(present, adj, rows_of(comp@)),
                forall|x: int, e: int|
                    0 <= x < n && present[x] && 0 <= e < n && dom_step(adj, rows_of(comp@), x, e)
                        ==> #[trigger] comp@[x]@[e],
                forall|x: int, e: int|
                    0 <= x < n && present[x] && always_passes(present, adj_rel(adj), e, x)
                        ==> #[trigger] comp@[x]@[e],
                !changed ==> rows_of(comp@) == start_rows,
                changed ==> total_true(rows_of(comp@)) < total_true(start_rows),
                !changed ==> forall|x: int, e: int|
                    0 <= x < b && present[x] && 0 <= e < n && #[trigger] comp@[x]@[e] ==> dom_step(
                        adj,
                        rows_of(comp@),
                        x,
                        e,
                    ),
            decreases n - b,
        {
            if g.present[b] {
                let new_dom = step_row(g, &comp, b);
                let ghost rows = rows_of(comp@);
                assert(comp@[b as int]@ == rows[b as int]);
                proof {
                    assert forall|e: int| 0 <= e < n && #[trigger] new_dom@[e] implies comp@[b as int]@[e] by {
                        assert(dom_step(adj, rows, b as int, e));
                    }
                }
                if !rows_equal(&new_dom, &comp[b]) {
                    proof {
                        lemma_count_subset(new_dom@, comp@[b as int]@);
                        lemma_total_update(rows, b as int, new_dom@);
                    }
                    comp.set(b, new_dom);
                    changed = true;
                    proof {
                        let nrows = rows_of(comp@);
                        assert(nrows =~= rows.update(b as int, new_dom@));
                        assert forall|x: int, e: int|
                            0 <= x < n && present[x] && 0 <= e < n && dom_step(adj, nrows, x, e)
                                implies #[trigger] comp@[x]@[e] by {
                            if e != x {
                                assert forall|i: int| 0 <= i < adj[x].len() implies #[trigger] rows[adj[x][i] as int][e] by {
                                    assert(nrows[adj[x][i] as int][e]);
                                    if adj[x][i] as int == b as int {
                                        assert(new_dom@[e]);
                                    }
                                }
                            }
                            assert(dom_step(adj, rows, x, e));
                        }
                        assert forall|x: int, e: int|
                            0 <= x < n && present[x] && always_passes(present, adj_rel(adj), e, x)
                                implies #[trigger] comp@[x]@[e] by {
                            if x == b {
                                if e != x {
                                    if adj[x].len() == 0 {
                                        let c = seq![x];
                                        assert forall|y: int| !#[trigger] adj_rel(adj)(c.last(), y) by {
                                            if adj_rel(adj)(c.last(), y) {
                                                let k = choose|k: int| 0 <= k < adj[x].len() && adj[x][k] == y as usize;
                                            }
                                        }
                                        assert(is_chain(present, adj_rel(adj), c));
                                        assert(c.contains(e));
                                    }
                                    assert forall|i: int| 0 <= i < adj[x].len() implies #[trigger] rows[adj[x][i] as int][e] by {
                                        let p = adj[x][i] as int;
                                        assert(adj[x].contains(adj[x][i]));
                                        assert(0 <= p < adj.len());
                                        assert(adj_rel(adj)(x, p));
                                        lemma_passes_neighbor(present, adj, e, x, p);
                                        assert(present[p]);
                                    }
                                }
                                assert(dom_step(adj, rows, x, e));
                            }
                        }
                    }
                } else {
                    proof {
                        assert(new_dom@ == comp@[b as int]@);
                    }
                }
            }
            b += 1;
        }
    }
    proof {
        assert forall|b: int| 0 <= b < comp@.len() implies #[trigger] comp@[b]@.len() == n by {
            assert(rows_of(comp@)[b] == comp@[b]@);
        }
        assert forall|b: int, d: int|
            0 <= b < comp@.len() && 0 <= d < n implies (#[trigger] comp@[b]@[d] <==> (present[b]
            && always_passes(present, adj_rel(adj), d, b))) by {
            assert(rows_of(comp@)[b] == comp@[b]@);
            if comp@[b]@[d] {
                assert(rows_of(comp@)[b][d]);
                assert(present[b] && present[d]);
                assert forall|c: Seq<int>| #[trigger]
                    is_chain(present, adj_rel(adj), c) && c[0] == b implies c.contains(d) by {
                    lemma_fixpoint_complete(present, adj, rows_of(comp@), c, d, 0);
                    assert(c.subrange(0, c.len() as int) =~= c);
                }
            }
        }
    }
    comp
}

/// The row of `b` in the next round of the dominator equations.
fn step_row(g: &BlockGraph, comp: &Vec<Vec<bool>>, b: usize) -> (res: Vec<bool>)
    requires
        g.wf(),
        b < g.adj@.len(),
        graph_rows_wf(g.present@, g.adjs(), rows_of(comp@)),
    ensures
        res@.len() == g.adj@.len(),
        forall|e: int|
            0 <= e < g.adj@.len() ==> #[trigger] res@[e] == dom_step(g.adjs(), rows_of(comp@), b as int, e),
{
    let n = g.adj.len();
    let ghost adj = g.adjs();
    let ghost rows = rows_of(comp@);
    let preds = &g.adj[b];
    assert(preds@ == adj[b as int]);
    let mut new_dom: Vec<bool> = Vec::new();
    if preds.len() == 0 {
        let mut d: usize = 0;
        while d < n
            invariant
                d <= n,
                new_dom@.len() == d,
                forall|e: int| 0 <= e < d ==> !#[trigger] new_dom@[e],
            decreases n - d,
        {
            new_dom.push(false);
            d += 1;
        }
    } else {
        let p0 = preds[0];
        assert(p0 < n) by {
            assert(adj[b as int][0] == p0);
        }
        assert(comp@[p0 as int]@ == rows[p0 as int]);
        let mut d: usize = 0;
        while d < n
            invariant
                n == g.adj@.len(),
                adj == g.adjs(),
                rows == rows_of(comp@),
                graph_rows_wf(g.present@, adj, rows),
                p0 < n,
                comp@[p0 as int]@ == rows[p0 as int],
                d <= n,
                new_dom@.len() == d,
                forall|e: int| 0 <= e < d ==> #[trigger] new_dom@[e] == rows[p0 as int][e],
            decreases n - d,
        {
            new_dom.push(comp[p0][d]);
            d += 1;
        }
        let mut i: usize = 1;
        while i < preds.len()
            invariant
                n == g.adj@.len(),
                adj == g.adjs(),
                rows == rows_of(comp@),
                graph_rows_wf(g.present@, adj, rows),
                b < n,
                preds@ == adj[b as int],
                preds@.len() > 0,
                preds@[0] == p0,
                1 <= i <= preds@.len(),
                new_dom@.len() == n,
                forall|e: int|
                    0 <= e < n ==> #[trigger] new_dom@[e] == forall|j: int|
                        0 <= j < i ==> #[trigger] rows[preds@[j] as int][e],
            decreases preds@.len() - i,
        {
            let p = preds[i];
            assert(p < n) by {
                assert(adj[b as int][i as int] == p);
            }
            assert(comp@[p as int]@ == rows[p as int]);
            let mut d: usize = 0;
            while d < n
                invariant
                    n == g.adj@.len(),
                    adj == g.adjs(),
                    rows == rows_of(comp@),
                    graph_rows_wf(g.present@, adj, rows),
                    p < n,
                    comp@[p as int]@ == rows[p as int],
                    preds@[i as int] == p,
                    i < preds@.len(),
                    d <= n,
                    new_dom@.len() == n,
                    forall|e: int|
                        0 <= e < d ==> #[trigger] new_dom@[e] == forall|j: int|
                            0 <= j < i + 1 ==> #[trigger] rows[preds@[j] as int][e],
                    forall|e: int|
                        d <= e < n ==> #[trigger] new_dom@[e] == forall|j: int|
                            0 <= j < i ==> #[trigger] rows[preds@[j] as int][e],
                decreases n - d,
            {
                let v = new_dom[d] && comp[p][d];
                new_dom.set(d, v);
                proof {
                    let e = d as int;
                    if v {
                        assert forall|j: int| 0 <= j < i + 1 implies #[trigger] rows[preds@[j] as int][e] by {
                            if j == i {
                                assert(rows[p as int][e]);
                            }
                        }
                    }
                }
                d += 1;
            }
            i += 1;
        }
    }
    new_dom.set(b, true);
    proof {
        assert forall|e: int| 0 <= e < n implies #[trigger] new_dom@[e] == dom_step(adj, rows, b as int, e) by {
            if e != b {
                if preds@.len() > 0 {
                    assert((forall|j: int| 0 <= j < preds@.len() ==> #[trigger] rows[preds@[j] as int][e])
                        == (forall|j: int| 0 <= j < adj[b as int].len() ==> #[trigger] rows[adj[b as int][j] as int][e]));
                }
            }
        }
    }
    new_dom
}

/// Whether two rows hold the same entries.
pub(crate) fn rows_equal(a: &Vec<bool>, b: &Vec<bool>) -> (res: bool)
    ensures
        res == (a@ == b@),
{
    if a.len() != b.len() {
        return false;
    }
    let mut i: usize = 0;
    while i < a.len()
        invariant
            a@.len() == b@.len(),
            i <= a@.len(),
            forall|j: int| 0 <= j < i ==> a@[j] == b@[j],
        decreases a@.len() - i,
    {
        if a[i] != b[i] {
            return false;
        }
        i += 1;
    }
    assert(a@ =~= b@);
    true
}


/// The relation given by `m[k][v]`, with its two sides swapped: `res[v][k] == m[k][v]`.
pub fn inverse_map(m: &Vec<Vec<bool>>) -> (res: Vec<Vec<bool>>)
    requires
        forall|k: int| 0 <= k < m@.len() ==> #[trigger] m@[k]@.len() == m@.len(),
    ensures
        res@.len() == m@.len(),
        forall|v: int| 0 <= v < res@.len() ==> #[trigger] res@[v]@.len() == m@.len(),
        forall|v: int, k: int|
            0 <= v < m@.len() && 0 <= k < m@.len() ==> #[trigger] res@[v]@[k] == m@[k]@[v],
{
    let n = m.len();
    let mut res: Vec<Vec<bool>> = Vec::new();
    let mut v: usize = 0;
    while v < n
        invariant
            n == m@.len(),
            forall|k: int| 0 <= k < n ==> #[trigger] m@[k]@.len() == n,
            v <= n,
            res@.len() == v,
            forall|w: int| 0 <= w < v ==> #[trigger] res@[w]@.len() == n,
            forall|w: int, k: int| 0 <= w < v && 0 <= k < n ==> #[trigger] res@[w]@[k] == m@[k]@[w],
        decreases n - v,
    {
        let mut row: Vec<bool> = Vec::new();
        let mut k: usize = 0;
        while k < n
            invariant
                n == m@.len(),
                forall|k2: int| 0 <= k2 < n ==> #[trigger] m@[k2]@.len() == n,
                v < n,
                k <= n,
                row@.len() == k,
                forall|j: int| 0 <= j < k ==> #[trigger] row@[j] == m@[j]@[v as int],
            decreases n - k,
        {
            row.push(m[k][v]);
            k += 1;
        }
        res.push(row);
        v += 1;
    }
    res
}

/// The predecessor graph of a CFG has exactly the CFG's predecessor relation.
pub(crate) proof fn lemma_pred_rel(cfg: FlowGraph, t: BlockGraph)
    requires
        cfg.wf(),
        cfg.edges@.len() <= usize::MAX,
        t.wf(),
        t.present@.len() == cfg.edges@.len(),
        forall|b: int| 0 <= b < cfg.edges@.len() ==> #[trigger] t.present@[b] == cfg.has_block(b),
        forall|x: int, p: usize|
            0 <= x < cfg.edges@.len() ==> (#[trigger] t.adj@[x]@.contains(p) <==> (cfg.has_block(
                p as int,
            ) && edge_targets(cfg.edges@[p as int]->0).contains(x as usize))),
    ensures
        adj_rel(t.adjs()) == pred_rel(cfg),
        t.present@ == presence(cfg),
{
    let n = cfg.edges@.len();
    assert forall|x: int, y: int| #[trigger] adj_rel(t.adjs())(x, y) == pred_rel(cfg)(x, y) by {
        if 0 <= x < n {
            assert(t.adjs()[x] == t.adj@[x]@);
            if 0 <= y < n {
                assert(t.adj@[x]@.contains(y as usize) == (cfg.has_block(y) && edge_targets(
                    cfg.edges@[y]->0,
                ).contains(x as usize)));
            }
        }
    }
    assert(adj_rel(t.adjs()) =~= pred_rel(cfg));
    assert(t.present@ =~= presence(cfg));
}

/// The successor graph of a CFG has exactly the CFG's successor relation.
pub(crate) proof fn lemma_succ_rel(cfg: FlowGraph, s: BlockGraph)
    requires
        cfg.wf(),
        s.wf(),
        s.present@.len() == cfg.edges@.len(),
        forall|b: int| 0 <= b < cfg.edges@.len() ==> #[trigger] s.present@[b] == cfg.has_block(b),
        forall|b: int|
            0 <= b < cfg.edges@.len() ==> #[trigger] s.adj@[b]@ == (match cfg.edges@[b] {
                Some(e) => edge_targets(e),
                None => seq![],
            }),
    ensures
        adj_rel(s.adjs()) == succ_rel(cfg),
        s.present@ == presence(cfg),
{
    let n = cfg.edges@.len();
    assert forall|x: int, y: int| #[trigger] adj_rel(s.adjs())(x, y) == succ_rel(cfg)(x, y) by {
        if 0 <= x < n {
            assert(s.adjs()[x] == s.adj@[x]@);
        }
    }
    assert(adj_rel(s.adjs()) =~= succ_rel(cfg));
    assert(s.present@ =~= presence(cfg));
}

/// Dominance information of a CFG: for each block, the blocks that dominate it,
/// that it dominates, that post-dominate it and that it post-dominates.
pub struct DomInfo {
    /// `dominated_by[b][d]`: `d` dominates `b`.
    pub dominated_by: Vec<Vec<bool>>,
    /// `dominates[d][b]`: `d` dominates `b`.
    pub dominates: Vec<Vec<bool>>,
    /// `postdominated_by[b][d]`: `d` post-dominates `b`.
    pub postdominated_by: Vec<Vec<bool>>,
    /// `postdominates[d][b]`: `d` post-dominates `b`.
    pub postdominates: Vec<Vec<bool>>,
}

impl DomInfo {
    /// The four relations describe the dominance of `cfg`.
    pub open spec fn describes(&self, cfg: FlowGraph) -> bool {
        let n = cfg.edges@.len();
        &&& self.dominated_by@.len() == n
        &&& self.dominates@.len() == n
        &&& self.postdominated_by@.len() == n
        &&& self.postdominates@.len() == n
        &&& forall|b: int|
            0 <= b < n ==> #[trigger] self.dominated_by@[b]@.len() == n
                && self.dominates@[b]@.len() == n && self.postdominated_by@[b]@.len() == n
                && self.postdominates@[b]@.len() == n
        &&& forall|b: int, d: int|
            0 <= b < n && 0 <= d < n ==> (#[trigger] self.dominated_by@[b]@[d] <==> (cfg.has_block(b)
                && dominates(cfg, d, b)))
        &&& forall|b: int, d: int|
            0 <= b < n && 0 <= d < n ==> (#[trigger] self.dominates@[d]@[b] <==> (cfg.has_block(b)
                && dominates(cfg, d, b)))
        &&& forall|b: int, d: int|
            0 <= b < n && 0 <= d < n ==> (#[trigger] self.postdominated_by@[b]@[d] <==> (
            cfg.has_block(b) && postdominates(cfg, d, b)))
        &&& forall|b: int, d: int|
            0 <= b < n && 0 <= d < n ==> (#[trigger] self.postdominates@[d]@[b] <==> (
            cfg.has_block(b) && postdominates(cfg, d, b)))
    }

    /// Computes the dominators and post-dominators of every block of `cfg`.
    pub fn new(cfg: &FlowGraph) -> (res: Self)
        requires
            cfg.wf(),
        ensures
            res.describes(*cfg),
    {
        let _n = cfg.edges.len();
        let preds = cfg.transpose();
        let succs = cfg.successors();
        proof {
            lemma_pred_rel(*cfg, preds);
            lemma_succ_rel(*cfg, succs);
        }
        let dom_by = make_dom_map(&preds);
        let doms = inverse_map(&dom_by);
        let pdom_by = make_dom_map(&succs);
        let pdoms = inverse_map(&pdom_by);
        let res = Self {
            dominated_by: dom_by,
            dominates: doms,
            postdominated_by: pdom_by,
            postdominates: pdoms,
        };
        proof {
            let n = cfg.edges@.len();
            assert forall|b: int, d: int|
                0 <= b < n && 0 <= d < n implies (#[trigger] res.dominates@[d]@[b] <==> (cfg.has_block(b)
                && dominates(*cfg, d, b))) by {
                assert(res.dominates@[d]@[b] == res.dominated_by@[b]@[d]);
            }
            assert forall|b: int, d: int|
                0 <= b < n && 0 <= d < n implies (#[trigger] res.postdominates@[d]@[b] <==> (
                cfg.has_block(b) && postdominates(*cfg, d, b))) by {
                assert(res.postdominates@[d]@[b] == res.postdominated_by@[b]@[d]);
            }
        }
        res
    }

    /// `b` is a block of the CFG described: it dominates itself, which holds
    /// exactly of the blocks (see `lemma_is_block`).
    pub open spec fn is_block(&self, b: int) -> bool {
        &&& 0 <= b < self.dominated_by@.len()
        &&& self.dominated_by@[b]@.len() == self.dominated_by@.len()
        &&& self.postdominated_by@.len() == self.dominated_by@.len()
        &&& self.postdominated_by@[b]@.len() == self.postdominated_by@.len()
        &&& self.dominated_by@[b]@[b]
    }

    /// Whether `a` dominates the block `b`.
    pub fn dom(&self, a: usize, b: usize) -> (res: bool)
        requires
            self.is_block(b as int),
        ensures
            res == (a < self.dominated_by@.len() && self.dominated_by@[b as int]@[a as int]),
    {
        a < self.dominated_by[b].len() && self.dominated_by[b][a]
    }

    /// Whether `a` post-dominates the block `b`.
    pub fn postdom(&self, a: usize, b: usize) -> (res: bool)
        requires
            self.is_block(b as int),
        ensures
            res == (a < self.postdominated_by@.len() && self.postdominated_by@[b as int]@[a as int]),
    {
        a < self.postdominated_by[b].len() && self.postdominated_by[b][a]
    }

    /// Whether `a` strictly dominates the block `b`: dominates it and is another block.
    pub fn strict_dom(&self, a: usize, b: usize) -> (res: bool)
        requires
            self.is_block(b as int),
        ensures
            res == (a != b && a < self.dominated_by@.len() && self.dominated_by@[b as int]@[a as int]),
    {
        a != b && self.dom(a, b)
    }
}

/// For the dominators of a CFG, the ids that are blocks in the sense of
/// `DomInfo::is_block` are exactly the blocks of the CFG.
pub proof fn lemma_is_block(info: DomInfo, cfg: FlowGraph, b: int)
    requires
        info.describes(cfg),
        0 <= b < cfg.edges@.len(),
    ensures
        info.is_block(b) <==> cfg.has_block(b),
{
    if cfg.has_block(b) {
        law_dominance_reflexive(cfg, b);
    }
}

/// `k` lies strictly between `d` and `b` in dominance: `d` dominates `k`, `k`
/// dominates `b`, and `k` is not `d` (`doms[x][y]`: `y` dominates `x`).
pub open spec fn dom_between(doms: Seq<Seq<bool>>, d: int, b: int, k: int) -> bool {
    doms[k][d] && k != d && doms[b][k]
}

/// The number of blocks `k < m` that lie between `d` and `b`.
pub open spec fn count_between(doms: Seq<Seq<bool>>, d: int, b: int, m: int) -> nat
    decreases m,
{
    if m <= 0 {
        0
    } else {
        count_between(doms, d, b, m - 1) + if dom_between(doms, d, b, m - 1) {
            1nat
        } else {
            0nat
        }
    }
}

/// `d` immediately dominates `b`: it strictly dominates `b`, and apart from `b`
/// itself no other block lies between them.
pub open spec fn immediately_dominates(doms: Seq<Seq<bool>>, d: int, b: int) -> bool {
    doms[b][d] && d != b && count_between(doms, d, b, doms.len() as int) <= 1
}

/// A node of the dominator tree.
#[derive(Clone)]
pub struct DomNode {
    /// The block id.
    pub block: usize,
    /// The blocks immediately dominated by `block`, in ascending order.
    pub dominated: Vec<usize>,
}

/// The dominator tree: each node immediately dominates its children.
#[derive(Clone)]
pub struct DomTree {
    /// The node of each block id.
    pub nodes: Vec<DomNode>,
}

/// The child lists of the tree.
pub open spec fn tree_children(nodes: Seq<DomNode>) -> Seq<Seq<usize>> {
    nodes.map_values(|n: DomNode| n.dominated@)
}

/// There is a path of at least one child edge from `a` to `b`.
pub open spec fn tree_reaches(children: Seq<Seq<usize>>, a: int, b: int) -> bool {
    exists|p: Seq<int>|
        #![trigger p[0], p.last()]
        p.len() >= 2 && p[0] == a && p.last() == b && forall|i: int|
            0 <= i < p.len() - 1 ==> #[trigger] adj_rel(children)(p[i], p[i + 1])
}

/// Every child id names a node.
pub open spec fn children_wf(children: Seq<Seq<usize>>) -> bool {
    &&& children.len() <= usize::MAX
    &&& forall|x: int, i: int|
        0 <= x < children.len() && 0 <= i < children[x].len() ==> #[trigger] children[x][i]
            < children.len()
}

/// A child edge followed by a path is a path.
proof fn lemma_reach_prepend(children: Seq<Seq<usize>>, a: int, c: int, x: int)
    requires
        adj_rel(children)(a, c),
        c == x || tree_reaches(children, c, x),
    ensures
        tree_reaches(children, a, x),
{
    if c == x {
        let p = seq![a, c];
        assert(adj_rel(children)(p[0], p[0int + 1]));
        assert(p[0] == a && p.last() == x);
    } else {
        let p = choose|p: Seq<int>|
            #![trigger p[0], p.last()]
            p.len() >= 2 && p[0] == c && p.last() == x && forall|i: int|
                0 <= i < p.len() - 1 ==> #[trigger] adj_rel(children)(p[i], p[i + 1]);
        let q = seq![a].add(p);
        assert forall|i: int| 0 <= i < q.len() - 1 implies #[trigger] adj_rel(children)(q[i], q[i + 1]) by {
            if i > 0 {
                assert(q[i] == p[i - 1] && q[i + 1] == p[i]);
                assert(adj_rel(children)(p[i - 1], p[(i - 1) + 1]));
            } else {
                assert(q[1] == p[0]);
            }
        }
        assert(q[0] == a && q.last() == x);
    }
}

impl DomTree {
    /// Builds the dominator tree from `doms_map`, where `doms_map[b][d]` tells
    /// whether `d` dominates `b`.
    pub fn new(doms_map: &Vec<Vec<bool>>) -> (res: Self)
        requires
            forall|k: int| 0 <= k < doms_map@.len() ==> #[trigger] doms_map@[k]@.len() == doms_map@.len(),
        ensures
            res.wf(),
            res.nodes@.len() == doms_map@.len(),
            forall|d: int| 0 <= d < res.nodes@.len() ==> #[trigger] res.nodes@[d].block == d,
            forall|d: int, b: usize|
                0 <= d < res.nodes@.len() ==> (#[trigger] res.nodes@[d].dominated@.contains(b)
                    <==> (b < doms_map@.len() && immediately_dominates(
                    rows_of(doms_map@),
                    d,
                    b as int,
                ))),
            forall|d: int, i: int, j: int|
                0 <= d < res.nodes@.len() && 0 <= i < j < res.nodes@[d].dominated@.len()
                    ==> #[trigger] res.nodes@[d].dominated@[i] < #[trigger] res.nodes@[d].dominated@[j],
    {
        let n = doms_map.len();
        let ghost doms = rows_of(doms_map@);
        let mut nodes: Vec<DomNode> = Vec::new();
        let mut k: usize = 0;
        while k < n
            invariant
                k <= n,
                nodes@.len() == k,
                forall|d: int| 0 <= d < k ==> #[trigger] nodes@[d].block == d,
                forall|d: int| 0 <= d < k ==> #[trigger] nodes@[d].dominated@.len() == 0,
            decreases n - k,
        {
            nodes.push(DomNode { block: k, dominated: Vec::new() });
            k += 1;
        }
        let mut b: usize = 0;
        while b < n
            invariant
                n == doms_map@.len(),
                doms == rows_of(doms_map@),
                forall|k2: int| 0 <= k2 < n ==> #[trigger] doms_map@[k2]@.len() == n,
                b <= n,
                nodes@.len() == n,
                forall|d: int| 0 <= d < n ==> #[trigger] nodes@[d].block == d,
                forall|d: int, c: usize|
                    0 <= d < n ==> (#[trigger] nodes@[d].dominated@.contains(c) <==> (c < b
                        && immediately_dominates(doms, d, c as int))),
                forall|d: int, i: int, j: int|
                    0 <= d < n && 0 <= i < j < nodes@[d].dominated@.len()
                        ==> #[trigger] nodes@[d].dominated@[i] < #[trigger] nodes@[d].dominated@[j],
                forall|d: int, i: int|
                    0 <= d < n && 0 <= i < nodes@[d].dominated@.len() ==> #[trigger] nodes@[d].dominated@[i] < b,
            decreases n - b,
        {
            let mut d: usize = 0;
            while d < n
                invariant
                    n == doms_map@.len(),
                    doms == rows_of(doms_map@),
                    forall|k2: int| 0 <= k2 < n ==> #[trigger] doms_map@[k2]@.len() == n,
                    b < n,
                    d <= n,
                    nodes@.len() == n,
                    forall|d2: int| 0 <= d2 < n ==> #[trigger] nodes@[d2].block == d2,
                    forall|d2: int, c: usize|
                        0 <= d2 < n ==> (#[trigger] nodes@[d2].dominated@.contains(c) <==> (c < b
                            && immediately_dominates(doms, d2, c as int)) || (c == b && d2 < d
                            && immediately_dominates(doms, d2, c as int))),
                    forall|d2: int, i: int, j: int|
                        0 <= d2 < n && 0 <= i < j < nodes@[d2].dominated@.len()
                            ==> #[trigger] nodes@[d2].dominated@[i] < #[trigger] nodes@[d2].dominated@[j],
                    forall|d2: int, i: int|
                        0 <= d2 < n && 0 <= i < nodes@[d2].dominated@.len() ==> #[trigger] nodes@[d2].dominated@[i] <= b,
                    forall|d2: int, i: int|
                        d <= d2 < n && 0 <= i < nodes@[d2].dominated@.len() ==> #[trigger] nodes@[d2].dominated@[i] < b,
                decreases n - d,
            {
                assert(doms_map@[b as int]@ == doms[b as int]);
                if doms_map[b][d] && d != b {
                    let count = count_between_exec(doms_map, d, b);
                    if count <= 1 {
                        let ghost before = nodes@;
                        let mut node = DomNode { block: d, dominated: Vec::new() };
                        std::mem::swap(&mut node, &mut nodes[d]);
                        node.dominated.push(b);
                        nodes.set(d, node);
                        proof {
                            assert(immediately_dominates(doms, d as int, b as int));
                            assert forall|d2: int, c: usize|
                                0 <= d2 < n implies (#[trigger] nodes@[d2].dominated@.contains(c) <==> (c < b
                                && immediately_dominates(doms, d2, c as int)) || (c == b && d2 < d + 1
                                && immediately_dominates(doms, d2, c as int))) by {
                                if d2 == d {
                                    assert(nodes@[d2].dominated@ == before[d2].dominated@.push(b));
                                    if nodes@[d2].dominated@.contains(c) && c != b {
                                        let w = choose|w: int| 0 <= w < nodes@[d2].dominated@.len() && #[trigger] nodes@[d2].dominated@[w] == c;
                                        assert(before[d2].dominated@[w] == c);
                                    }
                                    if before[d2].dominated@.contains(c) {
                                        let w = choose|w: int| 0 <= w < before[d2].dominated@.len() && #[trigger] before[d2].dominated@[w] == c;
                                        assert(nodes@[d2].dominated@[w] == c);
                                    }
                                    if c == b {
                                        assert(nodes@[d2].dominated@[nodes@[d2].dominated@.len() - 1] == b);
                                    }
                                } else {
                                    assert(nodes@[d2] == before[d2]);
                                }
                            }
                            assert forall|d2: int, i: int, j: int|
                                0 <= d2 < n && 0 <= i < j < nodes@[d2].dominated@.len()
                                    implies #[trigger] nodes@[d2].dominated@[i] < #[trigger] nodes@[d2].dominated@[j] by {
                                if d2 == d {
                                    assert(nodes@[d2].dominated@ == before[d2].dominated@.push(b));
                                    if j == before[d2].dominated@.len() {
                                        assert(before[d2].dominated@[i] < b);
                                    }
                                } else {
                                    assert(nodes@[d2] == before[d2]);
                                }
                            }
                            assert forall|d2: int, i: int|
                                0 <= d2 < n && 0 <= i < nodes@[d2].dominated@.len() implies #[trigger] nodes@[d2].dominated@[i] <= b by {
                                if d2 == d {
                                    assert(nodes@[d2].dominated@ == before[d2].dominated@.push(b));
                                } else {
                                    assert(nodes@[d2] == before[d2]);
                                }
                            }
                            assert forall|d2: int, i: int|
                                d + 1 <= d2 < n && 0 <= i < nodes@[d2].dominated@.len() implies #[trigger] nodes@[d2].dominated@[i] < b by {
                                assert(nodes@[d2] == before[d2]);
                            }
                        }
                    }
                }
                d += 1;
            }
            proof {
                assert forall|d2: int, i: int|
                    0 <= d2 < n && 0 <= i < nodes@[d2].dominated@.len() implies #[trigger] nodes@[d2].dominated@[i] < b + 1 by {
                }
            }
            b += 1;
        }
        let res = Self { nodes };
        proof {
            assert forall|x: int, i: int|
                0 <= x < tree_children(res.nodes@).len() && 0 <= i < tree_children(res.nodes@)[x].len()
                    implies #[trigger] tree_children(res.nodes@)[x][i] < tree_children(res.nodes@).len() by {
                assert(tree_children(res.nodes@)[x] == res.nodes@[x].dominated@);
                assert(res.nodes@[x].dominated@.contains(res.nodes@[x].dominated@[i]));
            }
        }
        res
    }

    /// The children lists are well formed.
    pub open spec fn wf(&self) -> bool {
        &&& children_wf(tree_children(self.nodes@))
    }

    /// The blocks immediately (and strictly) dominated by `block`.
    pub fn immediately_dominated(&self, block: usize) -> (res: Vec<usize>)
        requires
            block < self.nodes@.len(),
        ensures
            res@ == self.nodes@[block as int].dominated@,
    {
        self.nodes[block].dominated.clone()
    }

    /// The blocks reachable from `node` through at least one child edge, added to `doms`.
    fn collect_dominated(&self, node: usize, doms: &mut Vec<bool>)
        requires
            self.wf(),
            node < self.nodes@.len(),
            old(doms)@.len() == self.nodes@.len(),
        ensures
            final(doms)@.len() == old(doms)@.len(),
            forall|x: int| 0 <= x < old(doms)@.len() && #[trigger] old(doms)@[x] ==> final(doms)@[x],
            forall|x: int|
                0 <= x < final(doms)@.len() && #[trigger] final(doms)@[x] && !old(doms)@[x]
                    ==> tree_reaches(tree_children(self.nodes@), node as int, x),
            forall|x: int, i: int|
                0 <= x < final(doms)@.len() && final(doms)@[x] && !old(doms)@[x] && 0 <= i
                    < tree_children(self.nodes@)[x].len() ==> final(doms)@[#[trigger] tree_children(self.nodes@)[x][i] as int],
            forall|i: int|
                0 <= i < tree_children(self.nodes@)[node as int].len() ==> final(doms)@[#[trigger] tree_children(
                    self.nodes@,
                )[node as int][i] as int],
        decreases self.nodes@.len() - count_true(old(doms)@),
    {
        proof {
            lemma_count_le_len(doms@);
        }
        let ghost ch = tree_children(self.nodes@);
        let ghost start = doms@;
        let kids = &self.nodes[node].dominated;
        assert(kids@ == ch[node as int]);
        let mut i: usize = 0;
        while i < kids.len()
            invariant
                self.wf(),
                ch == tree_children(self.nodes@),
                node < self.nodes@.len(),
                kids@ == ch[node as int],
                i <= kids@.len(),
                doms@.len() == start.len(),
                start == old(doms)@,
                start.len() == self.nodes@.len(),
                forall|x: int| 0 <= x < start.len() && #[trigger] start[x] ==> doms@[x],
                forall|x: int|
                    0 <= x < doms@.len() && #[trigger] doms@[x] && !start[x] ==> tree_reaches(ch, node as int, x),
                forall|x: int, j: int|
                    0 <= x < doms@.len() && doms@[x] && !start[x] && 0 <= j < ch[x].len()
                        ==> doms@[#[trigger] ch[x][j] as int],
                forall|j: int| 0 <= j < i ==> doms@[#[trigger] ch[node as int][j] as int],
            decreases kids@.len() - i,
        {
            let dom = kids[i];
            assert(dom < self.nodes@.len()) by {
                assert(ch[node as int][i as int] == dom);
            }
            let ghost pre = doms@;
            if !doms[dom] {
                let ghost mid = doms@;
                proof {
                    lemma_count_subset(start, doms@);
                }
                doms.set(dom, true);
                proof {
                    lemma_count_subset(mid, doms@);
                    assert(mid != doms@) by {
                        assert(mid[dom as int] != doms@[dom as int]);
                    }
                    lemma_count_le_len(doms@);
                }
                let ghost before_rec = doms@;
                self.collect_dominated(dom, doms);
                proof {
                    assert(ch[node as int].contains(dom)) by {
                        assert(ch[node as int][i as int] == dom);
                    }
                    assert(adj_rel(ch)(node as int, dom as int));
                    assert forall|x: int| 0 <= x < start.len() && #[trigger] start[x] implies doms@[x] by {
                        assert(mid[x]);
                        assert(before_rec[x]);
                    }
                    assert forall|x: int| 0 <= x < pre.len() && #[trigger] pre[x] implies doms@[x] by {
                        assert(before_rec[x]);
                    }
                    assert(before_rec[dom as int]);
                    assert forall|x: int|
                        0 <= x < doms@.len() && #[trigger] doms@[x] && !start[x] implies tree_reaches(ch, node as int, x) by {
                        if !mid[x] {
                            if x != dom {
                                assert(!before_rec[x]);
                            }
                            lemma_reach_prepend(ch, node as int, dom as int, x);
                        }
                    }
                    assert forall|x: int, j: int|
                        0 <= x < doms@.len() && doms@[x] && !start[x] && 0 <= j < ch[x].len()
                            implies doms@[#[trigger] ch[x][j] as int] by {
                        if mid[x] {
                            assert(mid[ch[x][j] as int]);
                            assert(before_rec[ch[x][j] as int]);
                        } else if x == dom {
                            assert(doms@[tree_children(self.nodes@)[dom as int][j] as int]);
                        } else {
                            assert(!before_rec[x]);
                        }
                    }
                }
            }
            proof {
                assert(doms@[dom as int]);
                assert forall|j: int| 0 <= j < i + 1 implies doms@[#[trigger] ch[node as int][j] as int] by {
                    if j < i {
                        assert(pre[ch[node as int][j] as int]);
                    } else {
                        assert(ch[node as int][j] == dom);
                    }
                }
            }
            i += 1;
        }
    }

    /// The blocks strictly dominated by `block`: those reachable through child edges.
    pub fn strictly_dominated(&self, block: usize) -> (res: Vec<bool>)
        requires
            self.wf(),
            block < self.nodes@.len(),
        ensures
            res@.len() == self.nodes@.len(),
            forall|x: int|
                0 <= x < res@.len() ==> (#[trigger] res@[x] <==> tree_reaches(
                    tree_children(self.nodes@),
                    block as int,
                    x,
                )),
    {
        let n = self.nodes.len();
        let mut doms: Vec<bool> = Vec::new();
        let mut k: usize = 0;
        while k < n
            invariant
                k <= n,
                doms@.len() == k,
                forall|x: int| 0 <= x < k ==> !#[trigger] doms@[x],
            decreases n - k,
        {
            doms.push(false);
            k += 1;
        }
        let ghost empty = doms@;
        self.collect_dominated(block, &mut doms);
        proof {
            let ch = tree_children(self.nodes@);
            assert forall|x: int| 0 <= x < doms@.len() && tree_reaches(ch, block as int, x) implies #[trigger] doms@[x] by {
                let p = choose|p: Seq<int>|
                    #![trigger p[0], p.last()]
                    p.len() >= 2 && p[0] == block as int && p.last() == x && forall|i: int|
                        0 <= i < p.len() - 1 ==> #[trigger] adj_rel(ch)(p[i], p[i + 1]);
                lemma_path_collected_at(ch, doms@, empty, p, p.len() - 1);
            }
        }
        doms
    }

    /// All the blocks dominated by `block`: `block` and those it strictly dominates.
    pub fn dominated(&self, block: usize) -> (res: Vec<bool>)
        requires
            self.wf(),
            block < self.nodes@.len(),
        ensures
            res@.len() == self.nodes@.len(),
            forall|x: int|
                0 <= x < res@.len() ==> (#[trigger] res@[x] <==> (x == block || tree_reaches(
                    tree_children(self.nodes@),
                    block as int,
                    x,
                ))),
    {
        let mut s = self.strictly_dominated(block);
        s.set(block, true);
        s
    }

    /// The dominance frontier of `block`: successors of `block` or of a block it
    /// strictly dominates that `block` does not strictly dominate. May repeat blocks.
    pub fn dom_frontier(&self, block: usize, cfg: &FlowGraph) -> (res: Vec<usize>)
        requires
            self.wf(),
            cfg.wf(),
            block < self.nodes@.len(),
            self.nodes@.len() == cfg.edges@.len(),
            cfg.has_block(block as int),
        ensures
            forall|s: usize|
                #[trigger] res@.contains(s) <==> (s < self.nodes@.len() && !tree_reaches(
                    tree_children(self.nodes@),
                    block as int,
                    s as int,
                ) && exists|d: int|
                    0 <= d < self.nodes@.len() && (d == block || tree_reaches(
                        tree_children(self.nodes@),
                        block as int,
                        d,
                    )) && #[trigger] succ_rel(*cfg)(d, s as int)),
    {
        let n = self.nodes.len();
        let dominated = self.strictly_dominated(block);
        let ghost ch = tree_children(self.nodes@);
        let mut frontier: Vec<usize> = Vec::new();
        let mut d: usize = 0;
        while d < n
            invariant
                cfg.wf(),
                n == self.nodes@.len(),
                n == cfg.edges@.len(),
                ch == tree_children(self.nodes@),
                block < n,
                d <= n,
                dominated@.len() == n,
                forall|x: int| 0 <= x < n ==> (#[trigger] dominated@[x] <==> tree_reaches(ch, block as int, x)),
                forall|s: usize|
                    #[trigger] frontier@.contains(s) <==> (s < n && !tree_reaches(ch, block as int, s as int)
                        && exists|e: int|
                        0 <= e < d && (e == block || tree_reaches(ch, block as int, e))
                            && #[trigger] succ_rel(*cfg)(e, s as int)),
            decreases n - d,
        {
            if d == block || dominated[d] {
                match &cfg.edges[d] {
                    Some(edge) => {
                        let targets = edge.targets();
                        let mut k: usize = 0;
                        while k < targets.len()
                            invariant
                                cfg.wf(),
                                n == self.nodes@.len(),
                                n == cfg.edges@.len(),
                                ch == tree_children(self.nodes@),
                                block < n,
                                d < n,
                                d == block || tree_reaches(ch, block as int, d as int),
                                cfg.edges@[d as int] == Some(*edge),
                                targets@ == edge_targets(*edge),
                                k <= targets@.len(),
                                dominated@.len() == n,
                                forall|x: int| 0 <= x < n ==> (#[trigger] dominated@[x] <==> tree_reaches(ch, block as int, x)),
                                forall|s: usize|
                                    #[trigger] frontier@.contains(s) <==> (s < n && !tree_reaches(ch, block as int, s as int)
                                        && ((exists|e: int|
                                        0 <= e < d && (e == block || tree_reaches(ch, block as int, e))
                                            && #[trigger] succ_rel(*cfg)(e, s as int)) || targets@.take(k as int).contains(s))),
                            decreases targets@.len() - k,
                        {
                            let succ = targets[k];
                            assert(succ < n) by {
                                assert(edge_targets(cfg.edges@[d as int]->0)[k as int] == succ);
                            }
                            let ghost before = frontier@;
                            if !dominated[succ] {
                                frontier.push(succ);
                            }
                            proof {
                                assert(targets@.take(k + 1) == targets@.take(k as int).push(succ));
                                assert forall|s: usize|
                                    #[trigger] frontier@.contains(s) <==> (s < n && !tree_reaches(ch, block as int, s as int)
                                        && ((exists|e: int|
                                        0 <= e < d && (e == block || tree_reaches(ch, block as int, e))
                                            && #[trigger] succ_rel(*cfg)(e, s as int)) || targets@.take(k + 1).contains(s))) by {
                                    if frontier@.contains(s) && !before.contains(s) {
                                        assert(frontier@.last() == s) by {
                                            let w = choose|w: int| 0 <= w < frontier@.len() && #[trigger] frontier@[w] == s;
                                            if w < before.len() {
                                                assert(before[w] == s);
                                            }
                                        }
                                        assert(targets@.take(k + 1)[k as int] == s);
                                    }
                                    if before.contains(s) {
                                        let w = choose|w: int| 0 <= w < before.len() && #[trigger] before[w] == s;
                                        assert(frontier@[w] == s);
                                    }
                                    if targets@.take(k + 1).contains(s) && !targets@.take(k as int).contains(s) {
                                        assert(s == succ);
                                        if s < n && !tree_reaches(ch, block as int, s as int) {
                                            assert(frontier@.last() == s);
                                            assert(frontier@[frontier@.len() - 1] == s);
                                        }
                                    }
                                }
                            }
                            k += 1;
                        }
                        proof {
                            assert(targets@.take(targets@.len() as int) == targets@);
                            assert forall|s: usize|
                                #[trigger] frontier@.contains(s) <==> (s < n && !tree_reaches(ch, block as int, s as int)
                                    && exists|e: int|
                                    0 <= e < d + 1 && (e == block || tree_reaches(ch, block as int, e))
                                        && #[trigger] succ_rel(*cfg)(e, s as int)) by {
                                if targets@.contains(s) {
                                    assert(succ_rel(*cfg)(d as int, s as int));
                                }
                                if exists|e: int|
                                    0 <= e < d + 1 && (e == block || tree_reaches(ch, block as int, e))
                                        && #[trigger] succ_rel(*cfg)(e, s as int) {
                                    let e = choose|e: int|
                                        0 <= e < d + 1 && (e == block || tree_reaches(ch, block as int, e))
                                            && #[trigger] succ_rel(*cfg)(e, s as int);
                                    if e == d {
                                        assert(edge_targets(cfg.edges@[d as int]->0).contains(s));
                                    }
                                }
                            }
                        }
                    },
                    None => {
                        proof {
                            assert forall|s: usize|
                                #[trigger] frontier@.contains(s) <==> (s < n && !tree_reaches(ch, block as int, s as int)
                                    && exists|e: int|
                                    0 <= e < d + 1 && (e == block || tree_reaches(ch, block as int, e))
                                        && #[trigger] succ_rel(*cfg)(e, s as int)) by {
                                if exists|e: int|
                                    0 <= e < d + 1 && (e == block || tree_reaches(ch, block as int, e))
                                        && #[trigger] succ_rel(*cfg)(e, s as int) {
                                    let e = choose|e: int|
                                        0 <= e < d + 1 && (e == block || tree_reaches(ch, block as int, e))
                                            && #[trigger] succ_rel(*cfg)(e, s as int);
                                    assert(e != d);
                                }
                            }
                        }
                    },
                }
            } else {
                proof {
                    assert forall|s: usize|
                        #[trigger] frontier@.contains(s) <==> (s < n && !tree_reaches(ch, block as int, s as int)
                            && exists|e: int|
                            0 <= e < d + 1 && (e == block || tree_reaches(ch, block as int, e))
                                && #[trigger] succ_rel(*cfg)(e, s as int)) by {
                        if exists|e: int|
                            0 <= e < d + 1 && (e == block || tree_reaches(ch, block as int, e))
                                && #[trigger] succ_rel(*cfg)(e, s as int) {
                            let e = choose|e: int|
                                0 <= e < d + 1 && (e == block || tree_reaches(ch, block as int, e))
                                    && #[trigger] succ_rel(*cfg)(e, s as int);
                            assert(e != d);
                        }
                    }
                }
            }
            d += 1;
        }
        frontier
    }
}

/// Every block at position `i >= 1` of such a path is collected.
proof fn lemma_path_collected_at(ch: Seq<Seq<usize>>, doms: Seq<bool>, start: Seq<bool>, p: Seq<int>, i: int)
    requires
        ch.len() <= usize::MAX,
        doms.len() == ch.len(),
        start.len() == ch.len(),
        forall|x: int| 0 <= x < start.len() ==> !#[trigger] start[x],
        forall|x: int, j: int|
            0 <= x < doms.len() && doms[x] && !start[x] && 0 <= j < ch[x].len()
                ==> doms[#[trigger] ch[x][j] as int],
        forall|j: int| 0 <= j < ch[p[0]].len() ==> doms[#[trigger] ch[p[0]][j] as int],
        p.len() >= 2,
        forall|j: int| 0 <= j < p.len() - 1 ==> #[trigger] adj_rel(ch)(p[j], p[j + 1]),
        1 <= i < p.len(),
    ensures
        doms[p[i]],
    decreases i,
{
    assert(adj_rel(ch)(p[i - 1], p[(i - 1) + 1]));
    let x = p[i - 1];
    let y = p[i];
    let k = choose|k: int| 0 <= k < ch[x].len() && ch[x][k] == y as usize;
    assert(ch[x][k] as int == y);
    if i == 1 {
        assert(doms[ch[p[0]][k] as int]);
    } else {
        lemma_path_collected_at(ch, doms, start, p, i - 1);
        assert(doms[ch[x][k] as int]);
    }
}

/// Rows of length `n` hold at most `rows.len() * n` set entries in all.
pub(crate) proof fn lemma_total_le(rows: Seq<Seq<bool>>, n: int)
    requires
        n >= 0,
        forall|x: int| 0 <= x < rows.len() ==> #[trigger] rows[x].len() == n,
    ensures
        total_true(rows) <= rows.len() * n,
    decreases rows.len(),
{
    if rows.len() > 0 {
        let r = rows.drop_last();
        assert forall|x: int| 0 <= x < r.len() implies #[trigger] r[x].len() == n by {
            assert(r[x] == rows[x]);
        }
        lemma_total_le(r, n);
        lemma_count_le_len(rows.last());
        assert(rows.len() * n == r.len() * n + n) by (nonlinear_arith)
            requires
                rows.len() == r.len() + 1,
        ;
    }
}

/// A boolean sequence has at most as many set entries as it has entries.
pub(crate) proof fn lemma_count_le_len(s: Seq<bool>)
    ensures
        count_true(s) <= s.len(),
    decreases s.len(),
{
    if s.len() > 0 {
        lemma_count_le_len(s.drop_last());
    }
}

/// The number of blocks `k` with `k < m` between `d` and `b`, computed up to `m = n`.
fn count_between_exec(doms_map: &Vec<Vec<bool>>, d: usize, b: usize) -> (res: usize)
    requires
        forall|k: int| 0 <= k < doms_map@.len() ==> #[trigger] doms_map@[k]@.len() == doms_map@.len(),
        d < doms_map@.len(),
        b < doms_map@.len(),
    ensures
        res == count_between(rows_of(doms_map@), d as int, b as int, doms_map@.len() as int),
{
    let n = doms_map.len();
    let ghost doms = rows_of(doms_map@);
    let mut count: usize = 0;
    let mut k: usize = 0;
    while k < n
        invariant
            n == doms_map@.len(),
            doms == rows_of(doms_map@),
            forall|k2: int| 0 <= k2 < n ==> #[trigger] doms_map@[k2]@.len() == n,
            d < n,
            b < n,
            k <= n,
            count <= k,
            count == count_between(doms, d as int, b as int, k as int),
        decreases n - k,
    {
        assert(doms_map@[k as int]@ == doms[k as int]);
        assert(doms_map@[b as int]@ == doms[b as int]);
        if doms_map[k][d] && k != d && doms_map[b][k] {
            count += 1;
        }
        k += 1;
    }
    count
}

/// Computes the dominator tree of `cfg`.
pub fn compute_dominators(cfg: &FlowGraph) -> (res: DomTree)
    requires
        cfg.wf(),
    ensures
        res.wf(),
        res.nodes@.len() == cfg.edges@.len(),
        forall|d: int, b: usize|
            0 <= d < res.nodes@.len() ==> (#[trigger] res.nodes@[d].dominated@.contains(b) <==> (b
                < cfg.edges@.len() && cfg.has_block(b as int) && dominates(*cfg, d, b as int)
                && d != b && count_between(
                dominator_rows(*cfg),
                d,
                b as int,
                cfg.edges@.len() as int,
            ) <= 1)),
{
    let _n = cfg.edges.len();
    let preds = cfg.transpose();
    proof {
        lemma_pred_rel(*cfg, preds);
    }
    let dom_map = make_dom_map(&preds);
    proof {
        assert(rows_of(dom_map@) =~= dominator_rows(*cfg)) by {
            assert forall|b: int| 0 <= b < dom_map@.len() implies #[trigger] rows_of(dom_map@)[b] =~= dominator_rows(*cfg)[b] by {
                assert(rows_of(dom_map@)[b] == dom_map@[b]@);
            }
        }
    }
    DomTree::new(&dom_map)
}

/// The dominator sets of a CFG as rows: `rows[b][d]` tells whether `d` dominates `b`.
pub open spec fn dominator_rows(cfg: FlowGraph) -> Seq<Seq<bool>> {
    Seq::new(
        cfg.edges@.len(),
        |b: int| Seq::new(cfg.edges@.len(), |d: int| cfg.has_block(b) && dominates(cfg, d, b)),
    )
}

/// A block that every chain from `b` passes through, and that `b` passes through on
/// every chain from `c`, is passed through on every chain from `c`.
proof fn lemma_passes_transitive(present: Seq<bool>, rel: spec_fn(int, int) -> bool, a: int, b: int, c: int)
    requires
        always_passes(present, rel, a, b),
        always_passes(present, rel, b, c),
    ensures
        always_passes(present, rel, a, c),
{
    assert forall|ch: Seq<int>| #[trigger] is_chain(present, rel, ch) && ch[0] == c implies ch.contains(a) by {
        assert(ch.contains(b));
        let k = choose|k: int| 0 <= k < ch.len() && ch[k] == b;
        let tail = ch.subrange(k, ch.len() as int);
        assert forall|i: int| 0 <= i < tail.len() - 1 implies #[trigger] rel(tail[i], tail[i + 1]) by {
            assert(tail[i] == ch[k + i] && tail[i + 1] == ch[k + i + 1]);
            assert(rel(ch[k + i], ch[(k + i) + 1]));
        }
        assert forall|i: int| 0 <= i < tail.len() implies 0 <= #[trigger] tail[i] < present.len()
            && present[tail[i]] by {
            assert(tail[i] == ch[k + i]);
        }
        assert(tail.last() == ch.last());
        assert(is_chain(present, rel, tail));
        assert(tail[0] == b);
        assert(tail.contains(a));
        let m = choose|m: int| 0 <= m < tail.len() && tail[m] == a;
        assert(ch[k + m] == a);
    }
}

/// Dominance and post-dominance are reflexive on existing blocks: every block
/// dominates and post-dominates itself.
pub proof fn law_dominance_reflexive(cfg: FlowGraph, b: int)
    requires
        cfg.has_block(b),
    ensures
        dominates(cfg, b, b),
        postdominates(cfg, b, b),
{
    assert forall|c: Seq<int>| #[trigger] is_chain(presence(cfg), pred_rel(cfg), c) && c[0] == b implies c.contains(b) by {
        assert(c[0] == b);
    }
    assert forall|c: Seq<int>| #[trigger] is_chain(presence(cfg), succ_rel(cfg), c) && c[0] == b implies c.contains(b) by {
        assert(c[0] == b);
    }
}

/// Dominance and post-dominance are transitive: a dominator of a dominator of `c`
/// dominates `c`.
pub proof fn law_dominance_transitive(cfg: FlowGraph, a: int, b: int, c: int)
    ensures
        dominates(cfg, a, b) && dominates(cfg, b, c) ==> dominates(cfg, a, c),
        postdominates(cfg, a, b) && postdominates(cfg, b, c) ==> postdominates(cfg, a, c),
{
    if dominates(cfg, a, b) && dominates(cfg, b, c) {
        lemma_passes_transitive(presence(cfg), pred_rel(cfg), a, b, c);
    }
    if postdominates(cfg, a, b) && postdominates(cfg, b, c) {
        lemma_passes_transitive(presence(cfg), succ_rel(cfg), a, b, c);
    }
}

} // verus!
