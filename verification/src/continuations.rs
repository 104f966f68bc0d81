//! Transitive successors and predecessors of the blocks of a CFG, shortest
//! distances, and continuations: for a block `B`, the nearest block that every
//! successor of `B` leads to.
use vstd::prelude::*;

use crate::cfg::{BlockGraph, FlowGraph};
use crate::dominators::{
    adj_rel, count_true, graph_rows_wf, inverse_map, lemma_pred_rel, lemma_succ_rel, pred_rel, presence,
    succ_rel, lemma_count_le_len, lemma_count_subset, lemma_total_le, lemma_total_update,
    rows_equal, rows_of, total_true,
};

verus! {

/// `c` is a walk of existing blocks, each linked to the next by `rel`.
pub open spec fn is_walk(present: Seq<bool>, rel: spec_fn(int, int) -> bool, c: Seq<int>) -> bool {
    &&& c.len() > 0
    &&& forall|i: int| 0 <= i < c.len() ==> 0 <= #[trigger] c[i] < present.len() && present[c[i]]
    &&& forall|i: int| 0 <= i < c.len() - 1 ==> #[trigger] rel(c[i], c[i + 1])
}

/// There is a walk (possibly of no steps) from the existing block `b` to `x`.
pub open spec fn reaches(present: Seq<bool>, rel: spec_fn(int, int) -> bool, b: int, x: int) -> bool {
    exists|c: Seq<int>|
        #![trigger c[0], c.last()]
        is_walk(present, rel, c) && c[0] == b && c.last() == x
}

/// One step of the reachability equations: `x` is `b`, or in the set of a neighbor of `b`.
pub open spec fn reach_step(adj: Seq<Seq<usize>>, comp: Seq<Seq<bool>>, b: int, x: int) -> bool {
    x == b || exists|i: int| 0 <= i < adj[b].len() && #[trigger] comp[adj[b][i] as int][x]
}

/// A walk followed by one more step back: if `x` reaches `y` is known for the
/// neighbor, then it is known for the block.
proof fn lemma_reach_prepend(present: Seq<bool>, adj: Seq<Seq<usize>>, b: int, p: int, x: int)
    requires
        0 <= b < present.len(),
        present[b],
        adj_rel(adj)(b, p),
        reaches(present, adj_rel(adj), p, x),
    ensures
        reaches(present, adj_rel(adj), b, x),
{
    let c = choose|c: Seq<int>|
        #![trigger c[0], c.last()]
        is_walk(present, adj_rel(adj), c) && c[0] == p && c.last() == x;
    let c2 = seq![b].add(c);
    assert forall|i: int| 0 <= i < c2.len() - 1 implies #[trigger] adj_rel(adj)(c2[i], c2[i + 1]) by {
        if i > 0 {
            assert(c2[i] == c[i - 1] && c2[i + 1] == c[i]);
            assert(adj_rel(adj)(c[i - 1], c[(i - 1) + 1]));
        } else {
            assert(c2[1] == c[0]);
        }
    }
    assert forall|i: int| 0 <= i < c2.len() implies 0 <= #[trigger] c2[i] < present.len()
        && present[c2[i]] by {
        if i > 0 {
            assert(c2[i] == c[i - 1]);
        }
    }
    assert(c2[0] == b && c2.last() == x);
    assert(is_walk(present, adj_rel(adj), c2));
}

/// In a closed family of sets, every block a walk reaches is in the set of its start.
proof fn lemma_closed_complete(
    present: Seq<bool>,
    adj: Seq<Seq<usize>>,
    comp: Seq<Seq<bool>>,
    c: Seq<int>,
    i: int,
)
    requires
        graph_rows_wf(present, adj, comp),
        forall|y: int| 0 <= y < adj.len() && present[y] ==> #[trigger] comp[y][y],
        forall|y: int, z: int, k: int|
            0 <= y < adj.len() && present[y] && 0 <= k < adj[y].len() && 0 <= z < adj.len()
                && #[trigger] comp[adj[y][k] as int][z] ==> #[trigger] comp[y][z],
        is_walk(present, adj_rel(adj), c),
        0 <= i < c.len(),
    ensures
        comp[c[i]][c.last()],
    decreases c.len() - i,
{
    if i == c.len() - 1 {
        assert(comp[c[i]][c[i]]);
    } else {
        lemma_closed_complete(present, adj, comp, c, i + 1);
        assert(adj_rel(adj)(c[i], c[i + 1]));
        let k = choose|k: int| 0 <= k < adj[c[i]].len() && adj[c[i]][k] == c[i + 1] as usize;
        assert(adj[c[i]][k] as int == c[i + 1]);
        assert(comp[adj[c[i]][k] as int][c.last()]);
    }
}

/// Computes, for each existing block `b`, the set of blocks reachable from `b`
/// along `g`'s edges, `b` included. With predecessor edges these are all the
/// blocks that can reach `b`. Rows of missing blocks are empty.
pub fn compute_reach(g: &BlockGraph) -> (res: Vec<Vec<bool>>)
    requires
        g.wf(),
    ensures
        res@.len() == g.adj@.len(),
        forall|b: int| 0 <= b < res@.len() ==> #[trigger] res@[b]@.len() == g.adj@.len(),
        forall|b: int, x: int|
            0 <= b < res@.len() && 0 <= x < g.adj@.len() ==> (#[trigger] res@[b]@[x] <==> (
            g.present@[b] && reaches(g.present@, adj_rel(g.adjs()), b, x))),
{
    let n = g.adj.len();
    let ghost adj = g.adjs();
    let ghost present = g.present@;
    let mut comp: Vec<Vec<bool>> = Vec::new();
    let mut b: usize = 0;
    while b < n
        invariant
            g.wf(),
            n == g.adj@.len(),
            present == g.present@,
            b <= n,
            comp@.len() == b,
            forall|x: int| 0 <= x < b ==> #[trigger] comp@[x]@.len() == n,
            forall|x: int, e: int|
                0 <= x < b && 0 <= e < n ==> (#[trigger] comp@[x]@[e] == (present[x] && e == x)),
        decreases n - b,
    {
        let mut row: Vec<bool> = Vec::new();
        let mut d: usize = 0;
        while d < n
            invariant
                n == g.adj@.len(),
                present == g.present@,
                present.len() == n,
                b < n,
                d <= n,
                row@.len() == d,
                forall|e: int| 0 <= e < d ==> #[trigger] row@[e] == (present[b as int] && e == b),
            decreases n - d,
        {
            row.push(g.present[b] && d == b);
            d += 1;
        }
        comp.push(row);
        b += 1;
    }
    proof {
        assert(graph_rows_wf(present, adj, rows_of(comp@))) by {
            assert forall|x: int| 0 <= x < n implies #[trigger] rows_of(comp@)[x].len() == n by {
                assert(rows_of(comp@)[x] == comp@[x]@);
            }
            assert forall|x: int, e: int|
                0 <= x < n && 0 <= e < n && #[trigger] rows_of(comp@)[x][e] implies present[x]
                    && present[e] by {
                assert(rows_of(comp@)[x] == comp@[x]@);
            }
        }
        assert forall|x: int, e: int|
            0 <= x < n && 0 <= e < n && #[trigger] comp@[x]@[e] implies reaches(
                present,
                adj_rel(adj),
                x,
                e,
            ) by {
            let c = seq![x];
            assert(c[0] == x && c.last() == e);
            assert(is_walk(present, adj_rel(adj), c));
        }
        lemma_total_le(rows_of(comp@), n as int);
    }
    let mut changed = true;
    while changed
        invariant
            g.wf(),
            n == g.adj@.len(),
            adj == g.adjs(),
            present == g.present@,
            graph_rows_wf(present, adj, rows_of(comp@)),
            total_true(rows_of(comp@)) <= n * n,
            forall|x: int| 0 <= x < n && present[x] ==> #[trigger] comp@[x]@[x],
            forall|x: int, e: int|
                0 <= x < n && 0 <= e < n && #[trigger] comp@[x]@[e] ==> reaches(
                    present,
                    adj_rel(adj),
                    x,
                    e,
                ),
            !changed ==> forall|y: int, z: int, k: int|
                0 <= y < n && present[y] && 0 <= k < adj[y].len() && 0 <= z < n
                    && #[trigger] rows_of(comp@)[adj[y][k] as int][z] ==> #[trigger] rows_of(
                    comp@,
                )[y][z],
        decreases n * n - total_true(rows_of(comp@)), if changed {
            1int
        } else {
            0int
        },
    {
        changed = false;
        let ghost start_rows = rows_of(comp@);
        let mut b: usize = 0;
        while b < n
            invariant
                g.wf(),
                n == g.adj@.len(),
                adj == g.adjs(),
                present == g.present@,
                b <= n,
                graph_rows_wf(present, adj, rows_of(comp@)),
                total_true(rows_of(comp@)) <= n * n,
                forall|x: int| 0 <= x < n && present[x] ==> #[trigger] comp@[x]@[x],
                forall|x: int, e: int|
                    0 <= x < n && 0 <= e < n && #[trigger] comp@[x]@[e] ==> reaches(
                        present,
                        adj_rel(adj),
                        x,
                        e,
                    ),
                !changed ==> rows_of(comp@) == start_rows,
                changed ==> total_true(rows_of(comp@)) > total_true(start_rows),
                forall|x: int, e: int|
                    0 <= x < n && 0 <= e < n && start_rows[x][e] ==> #[trigger] rows_of(comp@)[x][e],
                !changed ==> forall|y: int, z: int, k: int|
                    0 <= y < b && present[y] && 0 <= k < adj[y].len() && 0 <= z < n
                        && #[trigger] rows_of(comp@)[adj[y][k] as int][z] ==> #[trigger] rows_of(
                        comp@,
                    )[y][z],
            decreases n - b,
        {
            if g.present[b] {
                let new_row = union_row(g, &comp, b);
                let ghost rows = rows_of(comp@);
                assert(comp@[b as int]@ == rows[b as int]);
                proof {
                    assert forall|x: int, e: int|
                        0 <= x < n && 0 <= e < n && #[trigger] rows[x][e] implies reaches(
                            present,
                            adj_rel(adj),
                            x,
                            e,
                        ) by {
                        assert(rows[x] == comp@[x]@);
                    }
                }
                if !rows_equal(&new_row, &comp[b]) {
                    proof {
                        lemma_count_subset(rows[b as int], new_row@);
                        lemma_total_update(rows, b as int, new_row@);
                        lemma_count_le_len(new_row@);
                    }
                    comp.set(b, new_row);
                    changed = true;
                    proof {
                        let nrows = rows_of(comp@);
                        assert(nrows =~= rows.update(b as int, new_row@));
                        lemma_total_le(nrows, n as int);
                        assert forall|x: int, e: int|
                            0 <= x < n && 0 <= e < n && #[trigger] comp@[x]@[e] implies reaches(
                                present,
                                adj_rel(adj),
                                x,
                                e,
                            ) by {
                            assert(nrows[x] == comp@[x]@);
                            if x != b {
                                assert(nrows[x] == rows[x]);
                            } else if !rows[x][e] && e != x {
                                let i = choose|i: int|
                                    0 <= i < adj[x].len() && #[trigger] rows[adj[x][i] as int][e];
                                let p = adj[x][i] as int;
                                assert(adj[x].contains(adj[x][i]));
                                assert(adj_rel(adj)(x, p));
                                lemma_reach_prepend(present, adj, x, p, e);
                            } else if !rows[x][e] {
                                let c = seq![x];
                                assert(c[0] == x && c.last() == e);
                                assert(is_walk(present, adj_rel(adj), c));
                            }
                        }
                        assert forall|x: int, e: int|
                            0 <= x < n && 0 <= e < n && start_rows[x][e] implies #[trigger] rows_of(comp@)[x][e] by {
                            assert(rows[x][e]);
                        }
                        assert forall|x: int| 0 <= x < n && present[x] implies #[trigger] comp@[x]@[x] by {
                            assert(nrows[x] == comp@[x]@);
                            assert(rows[x] == comp@[x]@ || x == b);
                        }
                    }
                } else {
                    proof {
                        assert(new_row@ == comp@[b as int]@);
                        assert(rows_of(comp@)[b as int] == new_row@);
                        if !changed {
                            assert forall|y: int, z: int, k: int|
                                0 <= y < b + 1 && present[y] && 0 <= k < adj[y].len() && 0 <= z < n
                                    && #[trigger] rows_of(comp@)[adj[y][k] as int][z] implies #[trigger] rows_of(
                                    comp@,
                                )[y][z] by {
                                if y == b {
                                    assert(rows[adj[y][k] as int][z]);
                                    assert(reach_step(adj, rows, b as int, z));
                                    assert(new_row@[z]);
                                }
                            }
                        }
                    }
                }
            }
            b += 1;
        }
    }
    proof {
        assert forall|b: int| 0 <= b < comp@.len() implies #[trigger] comp@[b]@.len() == n by {
            assert(rows_of(comp@)[b] == comp@[b]@);
        }
        assert forall|b: int, x: int|
            0 <= b < comp@.len() && 0 <= x < n implies (#[trigger] comp@[b]@[x] <==> (present[b]
            && reaches(present, adj_rel(adj), b, x))) by {
            assert(rows_of(comp@)[b] == comp@[b]@);
            if present[b] && reaches(present, adj_rel(adj), b, x) {
                let c = choose|c: Seq<int>|
                    #![trigger c[0], c.last()]
                    is_walk(present, adj_rel(adj), c) && c[0] == b && c.last() == x;
                assert forall|y: int| 0 <= y < adj.len() && present[y] implies #[trigger] rows_of(comp@)[y][y] by {
                    assert(rows_of(comp@)[y] == comp@[y]@);
                }
                lemma_closed_complete(present, adj, rows_of(comp@), c, 0);
            }
            if comp@[b]@[x] {
                assert(rows_of(comp@)[b][x]);
            }
        }
    }
    comp
}

/// The row of `b` in the next round of the reachability equations: the old row,
/// `b` itself, and the rows of `b`'s neighbors.
fn union_row(g: &BlockGraph, comp: &Vec<Vec<bool>>, b: usize) -> (res: Vec<bool>)
    requires
        g.wf(),
        b < g.adj@.len(),
        graph_rows_wf(g.present@, g.adjs(), rows_of(comp@)),
    ensures
        res@.len() == g.adj@.len(),
        forall|e: int|
            0 <= e < g.adj@.len() ==> #[trigger] res@[e] == (rows_of(comp@)[b as int][e] || reach_step(
                g.adjs(),
                rows_of(comp@),
                b as int,
                e,
            )),
{
    let n = g.adj.len();
    let ghost adj = g.adjs();
    let ghost rows = rows_of(comp@);
    let preds = &g.adj[b];
    assert(preds@ == adj[b as int]);
    assert(comp@[b as int]@ == rows[b as int]);
    assert(comp@.len() == n && rows[b as int].len() == n);
    let mut row: Vec<bool> = Vec::new();
    let mut d: usize = 0;
    while d < n
        invariant
            n == g.adj@.len(),
            comp@.len() == n,
            comp@[b as int]@.len() == n,
            rows == rows_of(comp@),
            graph_rows_wf(g.present@, adj, rows),
            b < n,
            comp@[b as int]@ == rows[b as int],
            d <= n,
            row@.len() == d,
            forall|e: int| 0 <= e < d ==> #[trigger] row@[e] == rows[b as int][e],
        decreases n - d,
    {
        row.push(comp[b][d]);
        d += 1;
    }
    let mut i: usize = 0;
    while i < preds.len()
        invariant
            n == g.adj@.len(),
            adj == g.adjs(),
            rows == rows_of(comp@),
            graph_rows_wf(g.present@, adj, rows),
            b < n,
            preds@ == adj[b as int],
            i <= preds@.len(),
            row@.len() == n,
            forall|e: int|
                0 <= e < n ==> #[trigger] row@[e] == (rows[b as int][e] || exists|j: int|
                    0 <= j < i && #[trigger] rows[preds@[j] as int][e]),
        decreases preds@.len() - i,
    {
        let p = preds[i];
        assert(p < n) by {
            assert(adj[b as int][i as int] == p);
        }
        assert(comp@[p as int]@ == rows[p as int]);
        assert(comp@.len() == n && rows[p as int].len() == n);
        let mut d: usize = 0;
        while d < n
            invariant
                n == g.adj@.len(),
                comp@.len() == n,
                comp@[p as int]@.len() == n,
                rows == rows_of(comp@),
                graph_rows_wf(g.present@, adj, rows),
                b < n,
                p < n,
                comp@[p as int]@ == rows[p as int],
                preds@[i as int] == p,
                i < preds@.len(),
                d <= n,
                row@.len() == n,
                forall|e: int|
                    0 <= e < d ==> #[trigger] row@[e] == (rows[b as int][e] || exists|j: int|
                        0 <= j < i + 1 && #[trigger] rows[preds@[j] as int][e]),
                forall|e: int|
                    d <= e < n ==> #[trigger] row@[e] == (rows[b as int][e] || exists|j: int|
                        0 <= j < i && #[trigger] rows[preds@[j] as int][e]),
            decreases n - d,
        {
            let v = row[d] || comp[p][d];
            row.set(d, v);
            proof {
                let e = d as int;
                if rows[p as int][e] {
                    assert(rows[preds@[i as int] as int][e]);
                }
                if exists|j: int| 0 <= j < i + 1 && #[trigger] rows[preds@[j] as int][e] {
                    let j = choose|j: int| 0 <= j < i + 1 && #[trigger] rows[preds@[j] as int][e];
                    if j < i {
                        assert(exists|j2: int| 0 <= j2 < i && #[trigger] rows[preds@[j2] as int][e]);
                    }
                }
            }
            d += 1;
        }
        i += 1;
    }
    row.set(b, true);
    proof {
        assert forall|e: int| 0 <= e < n implies #[trigger] row@[e] == (rows[b as int][e] || reach_step(
            adj,
            rows,
            b as int,
            e,
        )) by {
            if e != b {
                if exists|j: int| 0 <= j < preds@.len() && #[trigger] rows[preds@[j] as int][e] {
                    let j = choose|j: int| 0 <= j < preds@.len() && #[trigger] rows[preds@[j] as int][e];
                    assert(rows[adj[b as int][j] as int][e]);
                }
                if exists|j: int| 0 <= j < adj[b as int].len() && #[trigger] rows[adj[b as int][j] as int][e] {
                    let j = choose|j: int| 0 <= j < adj[b as int].len() && #[trigger] rows[adj[b as int][j] as int][e];
                    assert(rows[preds@[j] as int][e]);
                }
            }
        }
    }
    row
}

/// `c` is a walk from `s` to `x` along `adj`'s edges.
pub open spec fn walk_to(present: Seq<bool>, rel: spec_fn(int, int) -> bool, s: int, x: int, c: Seq<int>) -> bool {
    is_walk(present, rel, c) && c[0] == s && c.last() == x
}

/// Some walk from `s` to `x` takes at most `k` steps.
pub open spec fn within(present: Seq<bool>, rel: spec_fn(int, int) -> bool, s: int, x: int, k: int) -> bool {
    exists|c: Seq<int>| #[trigger] walk_to(present, rel, s, x, c) && c.len() <= k + 1
}

/// The shortest walk from `s` to `x` takes exactly `d` steps.
pub open spec fn distance_is(present: Seq<bool>, rel: spec_fn(int, int) -> bool, s: int, x: int, d: int) -> bool {
    within(present, rel, s, x, d) && !within(present, rel, s, x, d - 1)
}

/// A walk to `x` followed by an edge from `x` is a walk.
proof fn lemma_walk_extend(present: Seq<bool>, adj: Seq<Seq<usize>>, s: int, x: int, w: int, c: Seq<int>)
    requires
        walk_to(present, adj_rel(adj), s, x, c),
        adj_rel(adj)(x, w),
        0 <= w < present.len(),
        present[w],
    ensures
        walk_to(present, adj_rel(adj), s, w, c.push(w)),
{
    let c2 = c.push(w);
    assert forall|i: int| 0 <= i < c2.len() - 1 implies #[trigger] adj_rel(adj)(c2[i], c2[i + 1]) by {
        if i < c.len() - 1 {
            assert(c2[i] == c[i] && c2[i + 1] == c[i + 1]);
            assert(adj_rel(adj)(c[i], c[i + 1]));
        } else {
            assert(c2[i] == x);
            assert(c2[i + 1] == w);
        }
    }
    assert forall|i: int| 0 <= i < c2.len() implies 0 <= #[trigger] c2[i] < present.len()
        && present[c2[i]] by {
        if i < c.len() {
            assert(c2[i] == c[i]);
        }
    }
}

/// Every prefix of a walk is a walk.
proof fn lemma_walk_prefix(present: Seq<bool>, adj: Seq<Seq<usize>>, s: int, x: int, c: Seq<int>, i: int)
    requires
        walk_to(present, adj_rel(adj), s, x, c),
        0 <= i < c.len(),
    ensures
        walk_to(present, adj_rel(adj), s, c[i], c.subrange(0, i + 1)),
{
    let p = c.subrange(0, i + 1);
    assert forall|j: int| 0 <= j < p.len() - 1 implies #[trigger] adj_rel(adj)(p[j], p[j + 1]) by {
        assert(p[j] == c[j] && p[j + 1] == c[j + 1]);
        assert(adj_rel(adj)(c[j], c[j + 1]));
    }
    assert forall|j: int| 0 <= j < p.len() implies 0 <= #[trigger] p[j] < present.len() && present[p[j]] by {
        assert(p[j] == c[j]);
    }
}

/// When the start is marked and every marked block's neighbors are marked, every
/// block on a walk from the start is marked.
proof fn lemma_marked_closed(
    present: Seq<bool>,
    adj: Seq<Seq<usize>>,
    dist: Seq<Option<usize>>,
    s: int,
    x: int,
    c: Seq<int>,
    i: int,
)
    requires
        walk_to(present, adj_rel(adj), s, x, c),
        0 <= i < c.len(),
        dist.len() == adj.len(),
        dist[s] is Some,
        forall|y: int, w: int|
            #![trigger adj_rel(adj)(y, w), dist[y]]
            0 <= y < adj.len() && dist[y] is Some && adj_rel(adj)(y, w) ==> dist[w] is Some,
    ensures
        dist[c[i]] is Some,
    decreases i,
{
    if i > 0 {
        lemma_marked_closed(present, adj, dist, s, x, c, i - 1);
        let j = i - 1;
        assert(adj_rel(adj)(c[j], c[j + 1]));
    }
}

/// Breadth-first distances from `start`: `res[x]` is the number of steps of the
/// shortest walk from `start` to `x` along `g`'s edges, and `None` where no walk
/// leads to `x`.
pub fn shortest_path(g: &BlockGraph, start: usize) -> (res: Vec<Option<usize>>)
    requires
        g.wf(),
        start < g.adj@.len(),
        g.present@[start as int],
    ensures
        res@.len() == g.adj@.len(),
        forall|x: int|
            0 <= x < res@.len() ==> (#[trigger] res@[x] is Some <==> reaches(
                g.present@,
                adj_rel(g.adjs()),
                start as int,
                x,
            )),
        forall|x: int|
            0 <= x < res@.len() && #[trigger] res@[x] is Some ==> distance_is(
                g.present@,
                adj_rel(g.adjs()),
                start as int,
                x,
                res@[x]->0 as int,
            ),
{
    let n = g.adj.len();
    let ghost present = g.present@;
    let ghost adj = g.adjs();
    let ghost s = start as int;
    let mut dist: Vec<Option<usize>> = Vec::new();
    let mut seen: Vec<bool> = Vec::new();
    let mut d: usize = 0;
    while d < n
        invariant
            d <= n,
            dist@.len() == d,
            seen@.len() == d,
            forall|e: int| 0 <= e < d ==> #[trigger] dist@[e] is None,
            forall|e: int| 0 <= e < d ==> !#[trigger] seen@[e],
        decreases n - d,
    {
        dist.push(None);
        seen.push(false);
        d += 1;
    }
    let ghost unseen = seen@;
    dist.set(start, Some(0));
    seen.set(start, true);
    proof {
        assert forall|i: int| 0 <= i < n && #[trigger] unseen[i] implies seen@[i] by {}
        assert(unseen != seen@) by {
            assert(unseen[s] != seen@[s]);
        }
        lemma_count_subset(unseen, seen@);
        lemma_count_le_len(seen@);
        let c0 = seq![s];
        assert(c0[0] == s && c0.last() == s);
        assert(walk_to(present, adj_rel(adj), s, s, c0));
        assert forall|x: int, c: Seq<int>| #[trigger] walk_to(present, adj_rel(adj), s, x, c) implies c.len() >= 1 by {}
        assert(distance_is(present, adj_rel(adj), s, s, 0));
        assert forall|x: int, c: Seq<int>|
            #[trigger] walk_to(present, adj_rel(adj), s, x, c) && c.len() <= 1 implies dist@[x] is Some by {
            assert(c.last() == c[0]);
        }
    }
    let mut k: usize = 0;
    let mut more = true;
    while more
        invariant
            g.wf(),
            n == g.adj@.len(),
            present == g.present@,
            adj == g.adjs(),
            s == start,
            start < n,
            present[s],
            dist@.len() == n,
            seen@.len() == n,
            forall|x: int| 0 <= x < n ==> (#[trigger] seen@[x] <==> dist@[x] is Some),
            dist@[s] is Some,
            k + 1 <= count_true(seen@),
            count_true(seen@) <= n,
            forall|x: int|
                0 <= x < n && #[trigger] dist@[x] is Some ==> dist@[x]->0 <= k && distance_is(
                    present,
                    adj_rel(adj),
                    s,
                    x,
                    dist@[x]->0 as int,
                ),
            forall|x: int, c: Seq<int>|
                #[trigger] walk_to(present, adj_rel(adj), s, x, c) && c.len() <= k + 1 ==> dist@[x] is Some,
            forall|y: int, w: int|
                #![trigger adj_rel(adj)(y, w), dist@[y]]
                0 <= y < n && dist@[y] is Some && (dist@[y]->0 < k || !more) && adj_rel(adj)(y, w)
                    ==> dist@[w] is Some,
        decreases n - count_true(seen@), if more {
            1int
        } else {
            0int
        },
    {
        let ghost old_dist = dist@;
        let ghost old_seen = seen@;
        more = false;
        let mut x: usize = 0;
        while x < n
            invariant
                g.wf(),
                n == g.adj@.len(),
                present == g.present@,
                adj == g.adjs(),
                s == start,
                start < n,
                present[s],
                x <= n,
                k + 1 <= count_true(old_seen),
                count_true(old_seen) <= n,
                old_dist.len() == n,
                old_seen.len() == n,
                dist@.len() == n,
                seen@.len() == n,
                forall|y: int| 0 <= y < n ==> (#[trigger] seen@[y] <==> dist@[y] is Some),
                forall|y: int| 0 <= y < n ==> (#[trigger] old_seen[y] <==> old_dist[y] is Some),
                forall|y: int| 0 <= y < n && #[trigger] old_dist[y] is Some ==> dist@[y] == old_dist[y],
                forall|y: int|
                    0 <= y < n && #[trigger] dist@[y] is Some && old_dist[y] is None ==> dist@[y]->0
                        == k + 1,
                forall|y: int|
                    0 <= y < n && #[trigger] old_dist[y] is Some ==> old_dist[y]->0 <= k,
                forall|y: int|
                    0 <= y < n && #[trigger] dist@[y] is Some ==> distance_is(
                        present,
                        adj_rel(adj),
                        s,
                        y,
                        dist@[y]->0 as int,
                    ),
                forall|z: int, c: Seq<int>|
                    #[trigger] walk_to(present, adj_rel(adj), s, z, c) && c.len() <= k + 1 ==> old_dist[z] is Some,
                forall|y: int, w: int|
                    #![trigger adj_rel(adj)(y, w), old_dist[y]]
                    0 <= y < n && old_dist[y] is Some && (old_dist[y]->0 < k || (old_dist[y]->0 == k
                        && y < x)) && adj_rel(adj)(y, w) ==> dist@[w] is Some,
                more ==> exists|y: int| 0 <= y < n && !old_seen[y] && #[trigger] seen@[y],
                !more ==> dist@ == old_dist,
            decreases n - x,
        {
            let at_k = match dist[x] {
                Some(dx) => dx == k,
                None => false,
            };
            if at_k {
                let nbrs = &g.adj[x];
                assert(nbrs@ == adj[x as int]);
                assert(dist@[x as int] == old_dist[x as int]);
                let mut i: usize = 0;
                while i < nbrs.len()
                    invariant
                        g.wf(),
                        n == g.adj@.len(),
                        present == g.present@,
                        adj == g.adjs(),
                        s == start,
                        x < n,
                        nbrs@ == adj[x as int],
                        old_dist[x as int] == Some(k),
                        i <= nbrs@.len(),
                        k + 1 <= count_true(old_seen),
                        count_true(old_seen) <= n,
                        old_dist.len() == n,
                        old_seen.len() == n,
                        dist@.len() == n,
                        seen@.len() == n,
                        forall|y: int| 0 <= y < n ==> (#[trigger] seen@[y] <==> dist@[y] is Some),
                        forall|y: int| 0 <= y < n ==> (#[trigger] old_seen[y] <==> old_dist[y] is Some),
                        forall|y: int| 0 <= y < n && #[trigger] old_dist[y] is Some ==> dist@[y] == old_dist[y],
                        forall|y: int|
                            0 <= y < n && #[trigger] dist@[y] is Some && old_dist[y] is None ==> dist@[y]->0
                                == k + 1,
                        forall|y: int|
                            0 <= y < n && #[trigger] old_dist[y] is Some ==> old_dist[y]->0 <= k,
                        forall|y: int|
                            0 <= y < n && #[trigger] dist@[y] is Some ==> distance_is(
                                present,
                                adj_rel(adj),
                                s,
                                y,
                                dist@[y]->0 as int,
                            ),
                        forall|z: int, c: Seq<int>|
                            #[trigger] walk_to(present, adj_rel(adj), s, z, c) && c.len() <= k + 1 ==> old_dist[z] is Some,
                        forall|y: int, w: int|
                            #![trigger adj_rel(adj)(y, w), old_dist[y]]
                            0 <= y < n && old_dist[y] is Some && (old_dist[y]->0 < k || (old_dist[y]->0 == k
                                && y < x)) && adj_rel(adj)(y, w) ==> dist@[w] is Some,
                        forall|j: int| 0 <= j < i ==> #[trigger] dist@[nbrs@[j] as int] is Some,
                        more ==> exists|y: int| 0 <= y < n && !old_seen[y] && #[trigger] seen@[y],
                        !more ==> dist@ == old_dist,
                    decreases nbrs@.len() - i,
                {
                    let w = nbrs[i];
                    assert(w < n && present[w as int]) by {
                        assert(adj[x as int][i as int] == w);
                    }
                    if dist[w].is_none() {
                        proof {
                            let wi = w as int;
                            assert(adj[x as int].contains(w));
                            assert(adj_rel(adj)(x as int, wi));
                            assert(dist@[x as int] is Some);
                            assert(distance_is(present, adj_rel(adj), s, x as int, k as int));
                            let c = choose|c: Seq<int>|
                                #[trigger] walk_to(present, adj_rel(adj), s, x as int, c) && c.len() <= k + 1;
                            lemma_walk_extend(present, adj, s, x as int, wi, c);
                            assert(walk_to(present, adj_rel(adj), s, wi, c.push(wi)));
                            assert(within(present, adj_rel(adj), s, wi, k + 1));
                            if within(present, adj_rel(adj), s, wi, k as int) {
                                let c2 = choose|c2: Seq<int>|
                                    #[trigger] walk_to(present, adj_rel(adj), s, wi, c2) && c2.len() <= k + 1;
                                assert(old_dist[wi] is Some);
                            }
                            assert(old_dist[wi] is None);
                            assert(!old_seen[wi]);
                        }
                        dist.set(w, Some(k + 1));
                        seen.set(w, true);
                        more = true;
                        proof {
                            assert(seen@[w as int]);
                        }
                    }
                    i += 1;
                }
                proof {
                    assert forall|y: int, w: int|
                        #![trigger adj_rel(adj)(y, w), old_dist[y]]
                        0 <= y < n && old_dist[y] is Some && (old_dist[y]->0 < k || (old_dist[y]->0 == k
                            && y < x + 1)) && adj_rel(adj)(y, w) implies dist@[w] is Some by {
                        if y == x {
                            let j = choose|j: int| 0 <= j < adj[y].len() && adj[y][j] == w as usize;
                            assert(nbrs@[j] as int == w);
                        }
                    }
                }
            } else {
                proof {
                    assert forall|y: int, w: int|
                        #![trigger adj_rel(adj)(y, w), old_dist[y]]
                        0 <= y < n && old_dist[y] is Some && (old_dist[y]->0 < k || (old_dist[y]->0 == k
                            && y < x + 1)) && adj_rel(adj)(y, w) implies dist@[w] is Some by {
                        if y == x {
                            assert(dist@[y] == old_dist[y]);
                        }
                    }
                }
            }
            x += 1;
        }
        proof {
            if more {
                let y = choose|y: int| 0 <= y < n && !old_seen[y] && #[trigger] seen@[y];
                assert(old_seen != seen@) by {
                    assert(old_seen[y] != seen@[y]);
                }
                assert forall|i: int| 0 <= i < n && #[trigger] old_seen[i] implies seen@[i] by {}
                lemma_count_subset(old_seen, seen@);
            } else {
                assert(seen@ =~= old_seen);
            }
            lemma_count_le_len(seen@);
            assert forall|z: int, c: Seq<int>|
                #[trigger] walk_to(present, adj_rel(adj), s, z, c) && c.len() <= k + 2 implies dist@[z] is Some by {
                if c.len() == k + 2 {
                    lemma_walk_prefix(present, adj, s, z, c, k as int);
                    let p = c.subrange(0, k + 1);
                    assert(walk_to(present, adj_rel(adj), s, c[k as int], p));
                    assert(old_dist[c[k as int]] is Some);
                    assert(adj_rel(adj)(c[k as int], c[k + 1]));
                    assert(c[k + 1] == z);
                }
            }
        }
        if more {
            k += 1;
        }
    }
    proof {
        assert forall|x: int| 0 <= x < n implies (#[trigger] dist@[x] is Some <==> reaches(
            present,
            adj_rel(adj),
            s,
            x,
        )) by {
            if dist@[x] is Some {
                let c = choose|c: Seq<int>|
                    #[trigger] walk_to(present, adj_rel(adj), s, x, c) && c.len() <= dist@[x]->0 + 1;
                assert(c[0] == s && c.last() == x);
            }
            if reaches(present, adj_rel(adj), s, x) {
                let c = choose|c: Seq<int>|
                    #![trigger c[0], c.last()]
                    is_walk(present, adj_rel(adj), c) && c[0] == s && c.last() == x;
                assert(walk_to(present, adj_rel(adj), s, x, c));
                lemma_marked_closed(present, adj, dist@, s, x, c, c.len() - 1);
            }
        }
    }
    dist
}

/// Transitive successors and predecessors of each block, each block counted as its
/// own successor and predecessor.
pub struct Succs {
    /// `succs[a][b]`: `b` follows `a`.
    pub succs: Vec<Vec<bool>>,
    /// `preds[b][a]`: `a` precedes `b`.
    pub preds: Vec<Vec<bool>>,
}

impl Succs {
    /// Builds the successor sets from the predecessor sets by swapping their sides.
    pub fn new(preds: Vec<Vec<bool>>) -> (res: Self)
        requires
            forall|k: int| 0 <= k < preds@.len() ==> #[trigger] preds@[k]@.len() == preds@.len(),
        ensures
            res.preds == preds,
            res.succs@.len() == preds@.len(),
            forall|a: int| 0 <= a < preds@.len() ==> #[trigger] res.succs@[a]@.len() == preds@.len(),
            forall|a: int, b: int|
                0 <= a < preds@.len() && 0 <= b < preds@.len() ==> #[trigger] res.succs@[a]@[b]
                    == preds@[b]@[a],
    {
        let succs = inverse_map(&preds);
        Succs { succs, preds }
    }
}

/// Computes all predecessors of each block by walking `preds`' edges back from
/// it, and from them all successors.
pub fn compute_successors(preds: &BlockGraph) -> (res: Succs)
    requires
        preds.wf(),
    ensures
        res.preds@.len() == preds.adj@.len(),
        res.succs@.len() == preds.adj@.len(),
        forall|b: int| 0 <= b < preds.adj@.len() ==> #[trigger] res.preds@[b]@.len() == preds.adj@.len(),
        forall|a: int| 0 <= a < preds.adj@.len() ==> #[trigger] res.succs@[a]@.len() == preds.adj@.len(),
        forall|b: int, a: int|
            0 <= b < preds.adj@.len() && 0 <= a < preds.adj@.len() ==> (#[trigger] res.preds@[b]@[a]
                <==> preds.present@[b] && reaches(preds.present@, adj_rel(preds.adjs()), b, a)),
        forall|a: int, b: int|
            0 <= a < preds.adj@.len() && 0 <= b < preds.adj@.len() ==> (#[trigger] res.succs@[a]@[b]
                <==> preds.present@[b] && reaches(preds.present@, adj_rel(preds.adjs()), b, a)),
{
    let reach = compute_reach(preds);
    Succs::new(reach)
}

/// `x` lies in the successor sets `srows` of every one of `b`'s (at least one) neighbors.
pub open spec fn common_successor(rel: spec_fn(int, int) -> bool, srows: Seq<Seq<bool>>, b: int, x: int) -> bool {
    &&& exists|y: int| #[trigger] rel(b, y)
    &&& forall|y: int| #[trigger] rel(b, y) ==> srows[y][x]
}

/// `c` is the merge point of `b`: a common successor that `b` reaches, with the
/// fewest steps from `b`, and the smallest id among those as near.
pub open spec fn merge_point(
    present: Seq<bool>,
    rel: spec_fn(int, int) -> bool,
    srows: Seq<Seq<bool>>,
    b: int,
    c: int,
) -> bool {
    &&& 0 <= c < present.len()
    &&& common_successor(rel, srows, b, c)
    &&& reaches(present, rel, b, c)
    &&& forall|x: int, dc: int, dx: int|
        0 <= x < present.len() && common_successor(rel, srows, b, x) && #[trigger] distance_is(
            present,
            rel,
            b,
            c,
            dc,
        ) && #[trigger] distance_is(present, rel, b, x, dx) ==> dc < dx || (dc == dx && c <= x)
}

/// `b` has a merge point: some common successor that it reaches.
pub open spec fn has_merge_point(
    present: Seq<bool>,
    rel: spec_fn(int, int) -> bool,
    srows: Seq<Seq<bool>>,
    b: int,
) -> bool {
    exists|x: int|
        0 <= x < present.len() && #[trigger] common_successor(rel, srows, b, x) && reaches(present, rel, b, x)
}

/// Two shortest distances between the same blocks are equal.
proof fn lemma_distance_unique(present: Seq<bool>, rel: spec_fn(int, int) -> bool, s: int, x: int, d1: int, d2: int)
    requires
        distance_is(present, rel, s, x, d1),
        distance_is(present, rel, s, x, d2),
    ensures
        d1 == d2,
{
    if d1 < d2 {
        let c = choose|c: Seq<int>| #[trigger] walk_to(present, rel, s, x, c) && c.len() <= d1 + 1;
        assert(within(present, rel, s, x, d2 - 1));
    } else if d2 < d1 {
        let c = choose|c: Seq<int>| #[trigger] walk_to(present, rel, s, x, c) && c.len() <= d2 + 1;
        assert(within(present, rel, s, x, d1 - 1));
    }
}

/// Whether `x` lies in the successor sets of all of `nbrs`.
fn in_all(srows: &Vec<Vec<bool>>, nbrs: &Vec<usize>, x: usize) -> (res: bool)
    requires
        forall|i: int| 0 <= i < nbrs@.len() ==> #[trigger] nbrs@[i] < srows@.len(),
        forall|a: int| 0 <= a < srows@.len() ==> #[trigger] srows@[a]@.len() == srows@.len(),
        x < srows@.len(),
    ensures
        res == forall|i: int| 0 <= i < nbrs@.len() ==> #[trigger] srows@[nbrs@[i] as int]@[x as int],
{
    let mut i: usize = 0;
    while i < nbrs.len()
        invariant
            forall|i: int| 0 <= i < nbrs@.len() ==> #[trigger] nbrs@[i] < srows@.len(),
            forall|a: int| 0 <= a < srows@.len() ==> #[trigger] srows@[a]@.len() == srows@.len(),
            x < srows@.len(),
            i <= nbrs@.len(),
            forall|j: int| 0 <= j < i ==> #[trigger] srows@[nbrs@[j] as int]@[x as int],
        decreases nbrs@.len() - i,
    {
        let y = nbrs[i];
        assert(y < srows@.len());
        if !srows[y][x] {
            return false;
        }
        i += 1;
    }
    true
}

/// Computes the merge point of every block of `graph`, using the successor sets
/// found by walking `preds`' edges back (`preds` is meant to be the transpose of
/// `graph`). Also returns those successor sets.
pub fn compute_merge_points(graph: &BlockGraph, preds: &BlockGraph) -> (res: (Vec<Option<usize>>, Succs))
    requires
        graph.wf(),
        preds.wf(),
        preds.adj@.len() == graph.adj@.len(),
    ensures
        res.1.preds@.len() == graph.adj@.len(),
        res.1.succs@.len() == graph.adj@.len(),
        forall|b: int| 0 <= b < graph.adj@.len() ==> #[trigger] res.1.preds@[b]@.len() == graph.adj@.len(),
        forall|a: int| 0 <= a < graph.adj@.len() ==> #[trigger] res.1.succs@[a]@.len() == graph.adj@.len(),
        forall|b: int, a: int|
            0 <= b < graph.adj@.len() && 0 <= a < graph.adj@.len() ==> (#[trigger] res.1.preds@[b]@[a]
                <==> preds.present@[b] && reaches(preds.present@, adj_rel(preds.adjs()), b, a)),
        forall|a: int, b: int|
            0 <= a < graph.adj@.len() && 0 <= b < graph.adj@.len() ==> (#[trigger] res.1.succs@[a]@[b]
                <==> preds.present@[b] && reaches(preds.present@, adj_rel(preds.adjs()), b, a)),
        res.0@.len() == graph.adj@.len(),
        forall|b: int|
            0 <= b < graph.adj@.len() ==> (#[trigger] res.0@[b] is Some <==> graph.present@[b]
                && has_merge_point(graph.present@, adj_rel(graph.adjs()), rows_of(res.1.succs@), b)),
        forall|b: int|
            0 <= b < graph.adj@.len() && #[trigger] res.0@[b] is Some ==> merge_point(
                graph.present@,
                adj_rel(graph.adjs()),
                rows_of(res.1.succs@),
                b,
                res.0@[b]->0 as int,
            ),
{
    let succs = compute_successors(preds);
    let n = graph.adj.len();
    let ghost present = graph.present@;
    let ghost adj = graph.adjs();
    let ghost rel = adj_rel(adj);
    let ghost srows = rows_of(succs.succs@);
    assert forall|a: int| 0 <= a < n implies #[trigger] srows[a].len() == n by {
        assert(srows[a] == succs.succs@[a]@);
    }
    let mut merges: Vec<Option<usize>> = Vec::new();
    let mut b: usize = 0;
    while b < n
        invariant
            graph.wf(),
            n == graph.adj@.len(),
            present == graph.present@,
            adj == graph.adjs(),
            rel == adj_rel(adj),
            srows == rows_of(succs.succs@),
            succs.succs@.len() == n,
            forall|a: int| 0 <= a < n ==> #[trigger] succs.succs@[a]@.len() == n,
            forall|a: int| 0 <= a < n ==> #[trigger] srows[a].len() == n,
            b <= n,
            merges@.len() == b,
            forall|c: int|
                0 <= c < b ==> (#[trigger] merges@[c] is Some <==> present[c] && has_merge_point(
                    present,
                    rel,
                    srows,
                    c,
                )),
            forall|c: int|
                0 <= c < b && #[trigger] merges@[c] is Some ==> merge_point(
                    present,
                    rel,
                    srows,
                    c,
                    merges@[c]->0 as int,
                ),
        decreases n - b,
    {
        let m = merge_point_of(graph, &succs.succs, b);
        merges.push(m);
        b += 1;
    }
    (merges, succs)
}

/// The merge point of block `b`, given the successor sets `srows`.
fn merge_point_of(graph: &BlockGraph, srows_v: &Vec<Vec<bool>>, b: usize) -> (res: Option<usize>)
    requires
        graph.wf(),
        b < graph.adj@.len(),
        srows_v@.len() == graph.adj@.len(),
        forall|a: int| 0 <= a < graph.adj@.len() ==> #[trigger] srows_v@[a]@.len() == graph.adj@.len(),
    ensures
        res is Some <==> graph.present@[b as int] && has_merge_point(
            graph.present@,
            adj_rel(graph.adjs()),
            rows_of(srows_v@),
            b as int,
        ),
        res is Some ==> merge_point(
            graph.present@,
            adj_rel(graph.adjs()),
            rows_of(srows_v@),
            b as int,
            res->0 as int,
        ),
{
    let n = graph.adj.len();
    let ghost present = graph.present@;
    let ghost adj = graph.adjs();
    let ghost rel = adj_rel(adj);
    let ghost srows = rows_of(srows_v@);
    let ghost bi = b as int;
    if !graph.present[b] || graph.adj[b].len() == 0 {
        proof {
            if has_merge_point(present, rel, srows, bi) {
                let x = choose|x: int|
                    0 <= x < present.len() && #[trigger] common_successor(rel, srows, bi, x) && reaches(
                        present,
                        rel,
                        bi,
                        x,
                    );
                let y = choose|y: int| #[trigger] rel(bi, y);
                assert(adj[bi].contains(y as usize));
            }
        }
        return None;
    }
    let nbrs = &graph.adj[b];
    assert(nbrs@ == adj[bi]);
    assert forall|i: int| 0 <= i < nbrs@.len() implies #[trigger] nbrs@[i] < srows_v@.len() by {
        assert(adj[bi][i] == nbrs@[i]);
    }
    let dist = shortest_path(graph, b);
    proof {
        assert(rel(bi, adj[bi][0] as int)) by {
            assert(adj[bi].contains(adj[bi][0]));
        }
        assert forall|x: int| 0 <= x < n implies (common_successor(rel, srows, bi, x) <==> forall|i: int|
            0 <= i < nbrs@.len() ==> #[trigger] srows_v@[nbrs@[i] as int]@[x]) by {
            if forall|i: int| 0 <= i < nbrs@.len() ==> #[trigger] srows_v@[nbrs@[i] as int]@[x] {
                assert forall|y: int| #[trigger] rel(bi, y) implies srows[y][x] by {
                    let i = choose|i: int| 0 <= i < adj[bi].len() && adj[bi][i] == y as usize;
                    assert(srows_v@[nbrs@[i] as int]@[x]);
                    assert(srows[y] == srows_v@[y]@);
                }
                assert(rel(bi, adj[bi][0] as int));
            }
            if common_successor(rel, srows, bi, x) {
                assert forall|i: int| 0 <= i < nbrs@.len() implies #[trigger] srows_v@[nbrs@[i] as int]@[x] by {
                    let y = nbrs@[i] as int;
                    assert(adj[bi].contains(nbrs@[i]));
                    assert(rel(bi, y));
                    assert(srows[y] == srows_v@[y]@);
                }
            }
        }
    }
    let mut best: Option<(usize, usize)> = None;
    let mut x: usize = 0;
    while x < n
        invariant
            graph.wf(),
            n == graph.adj@.len(),
            present == graph.present@,
            adj == graph.adjs(),
            rel == adj_rel(adj),
            bi == b,
            b < n,
            srows == rows_of(srows_v@),
            srows_v@.len() == n,
            forall|a: int| 0 <= a < n ==> #[trigger] srows_v@[a]@.len() == n,
            nbrs@ == adj[bi],
            forall|i: int| 0 <= i < nbrs@.len() ==> #[trigger] nbrs@[i] < srows_v@.len(),
            forall|x: int| 0 <= x < n ==> (common_successor(rel, srows, bi, x) <==> forall|i: int|
                0 <= i < nbrs@.len() ==> #[trigger] srows_v@[nbrs@[i] as int]@[x]),
            dist@.len() == n,
            forall|y: int| 0 <= y < n ==> (#[trigger] dist@[y] is Some <==> reaches(present, rel, bi, y)),
            forall|y: int|
                0 <= y < n && #[trigger] dist@[y] is Some ==> distance_is(present, rel, bi, y, dist@[y]->0 as int),
            x <= n,
            best is None ==> forall|y: int|
                0 <= y < x ==> !(common_successor(rel, srows, bi, y) && #[trigger] dist@[y] is Some),
            best is Some ==> {
                let (c, dc) = best->0;
                &&& c < x
                &&& common_successor(rel, srows, bi, c as int)
                &&& dist@[c as int] == Some(dc)
                &&& forall|y: int|
                    0 <= y < x && common_successor(rel, srows, bi, y) && #[trigger] dist@[y] is Some ==> dc
                        < dist@[y]->0 || (dc == dist@[y]->0 && c <= y)
            },
        decreases n - x,
    {
        if in_all(srows_v, nbrs, x) {
            match dist[x] {
                Some(dx) => {
                    let better = match best {
                        Some((_, dc)) => dx < dc,
                        None => true,
                    };
                    if better {
                        best = Some((x, dx));
                    }
                },
                None => {},
            }
        }
        x += 1;
    }
    match best {
        Some((c, dc)) => {
            proof {
                assert(reaches(present, rel, bi, c as int));
                assert(has_merge_point(present, rel, srows, bi));
                assert forall|y: int, d1: int, d2: int|
                    0 <= y < present.len() && common_successor(rel, srows, bi, y) && #[trigger] distance_is(
                        present,
                        rel,
                        bi,
                        c as int,
                        d1,
                    ) && #[trigger] distance_is(present, rel, bi, y, d2) implies d1 < d2 || (d1 == d2 && c
                    <= y) by {
                    lemma_distance_unique(present, rel, bi, c as int, d1, dc as int);
                    let c2 = choose|c2: Seq<int>| #[trigger] walk_to(present, rel, bi, y, c2) && c2.len() <= d2 + 1;
                    assert(c2[0] == bi && c2.last() == y);
                    assert(reaches(present, rel, bi, y));
                    assert(dist@[y] is Some);
                    lemma_distance_unique(present, rel, bi, y, d2, dist@[y]->0 as int);
                }
            }
            Some(c)
        },
        None => {
            proof {
                if has_merge_point(present, rel, srows, bi) {
                    let y = choose|y: int|
                        0 <= y < present.len() && #[trigger] common_successor(rel, srows, bi, y) && reaches(
                            present,
                            rel,
                            bi,
                            y,
                        );
                    assert(dist@[y] is Some);
                }
            }
            None
        },
    }
}

/// Computes the continuation of every block of `cfg`: the nearest block that all
/// of its successors lead to (`None` for a block without successors, or whose
/// successors never meet). Also returns the transitive successor sets.
pub fn compute_continuations(cfg: &FlowGraph) -> (res: (Vec<Option<usize>>, Succs))
    requires
        cfg.wf(),
    ensures
        res.0@.len() == cfg.edges@.len(),
        res.1.succs@.len() == cfg.edges@.len(),
        res.1.preds@.len() == cfg.edges@.len(),
        forall|a: int| 0 <= a < cfg.edges@.len() ==> #[trigger] res.1.succs@[a]@.len() == cfg.edges@.len(),
        forall|b: int| 0 <= b < cfg.edges@.len() ==> #[trigger] res.1.preds@[b]@.len() == cfg.edges@.len(),
        forall|a: int, b: int|
            0 <= a < cfg.edges@.len() && 0 <= b < cfg.edges@.len() ==> (#[trigger] res.1.succs@[a]@[b]
                <==> cfg.has_block(b) && reaches(presence(*cfg), pred_rel(*cfg), b, a)),
        forall|b: int, a: int|
            0 <= b < cfg.edges@.len() && 0 <= a < cfg.edges@.len() ==> (#[trigger] res.1.preds@[b]@[a]
                <==> cfg.has_block(b) && reaches(presence(*cfg), pred_rel(*cfg), b, a)),
        forall|b: int|
            0 <= b < cfg.edges@.len() ==> (#[trigger] res.0@[b] is Some <==> cfg.has_block(b)
                && has_merge_point(presence(*cfg), succ_rel(*cfg), rows_of(res.1.succs@), b)),
        forall|b: int|
            0 <= b < cfg.edges@.len() && #[trigger] res.0@[b] is Some ==> merge_point(
                presence(*cfg),
                succ_rel(*cfg),
                rows_of(res.1.succs@),
                b,
                res.0@[b]->0 as int,
            ),
{
    let _n = cfg.edges.len();
    let graph = cfg.successors();
    let preds = cfg.transpose();
    proof {
        lemma_pred_rel(*cfg, preds);
        lemma_succ_rel(*cfg, graph);
    }
    compute_merge_points(&graph, &preds)
}

/// For every block `a` of `cfg`, the block whose continuation in the reversed CFG
/// is `a`: the nearest block that all of `a`'s predecessors come from.
pub fn compute_pretinuations(cfg: &FlowGraph) -> (res: Vec<Option<usize>>)
    requires
        cfg.wf(),
    ensures
        res@.len() == cfg.edges@.len(),
        forall|b: int|
            0 <= b < cfg.edges@.len() ==> (#[trigger] res@[b] is Some <==> cfg.has_block(b)
                && has_merge_point(presence(*cfg), pred_rel(*cfg), succ_reach_rows(*cfg), b)),
        forall|b: int|
            0 <= b < cfg.edges@.len() && #[trigger] res@[b] is Some ==> merge_point(
                presence(*cfg),
                pred_rel(*cfg),
                succ_reach_rows(*cfg),
                b,
                res@[b]->0 as int,
            ),
{
    let n = cfg.edges.len();
    let graph = cfg.successors();
    let preds = cfg.transpose();
    proof {
        lemma_pred_rel(*cfg, preds);
        lemma_succ_rel(*cfg, graph);
    }
    let (merges, succs) = compute_merge_points(&preds, &graph);
    proof {
        assert(rows_of(succs.succs@) =~= succ_reach_rows(*cfg)) by {
            assert forall|a: int| 0 <= a < n implies #[trigger] rows_of(succs.succs@)[a] =~= succ_reach_rows(*cfg)[a] by {
                assert(rows_of(succs.succs@)[a] == succs.succs@[a]@);
            }
        }
    }
    merges
}

/// `rows[a][b]`: `b` exists and reaches `a` along the CFG's edges (so `a` comes
/// before `b` in the reversed CFG).
pub open spec fn succ_reach_rows(cfg: FlowGraph) -> Seq<Seq<bool>> {
    Seq::new(
        cfg.edges@.len(),
        |a: int|
            Seq::new(
                cfg.edges@.len(),
                |b: int| cfg.has_block(b) && reaches(presence(cfg), succ_rel(cfg), b, a),
            ),
    )
}

/// Every existing block reaches itself, so it is among its own successors and
/// predecessors.
pub proof fn law_reaches_reflexive(present: Seq<bool>, rel: spec_fn(int, int) -> bool, b: int)
    requires
        0 <= b < present.len(),
        present[b],
    ensures
        reaches(present, rel, b, b),
{
    let c = seq![b];
    assert(c[0] == b && c.last() == b);
    assert(is_walk(present, rel, c));
}

/// Reaching is transitive: a walk from `a` to `b` and one from `b` to `c` make a
/// walk from `a` to `c`.
pub proof fn law_reaches_transitive(present: Seq<bool>, rel: spec_fn(int, int) -> bool, a: int, b: int, c: int)
    requires
        reaches(present, rel, a, b),
        reaches(present, rel, b, c),
    ensures
        reaches(present, rel, a, c),
{
    let w1 = choose|w: Seq<int>| #![trigger w[0], w.last()] is_walk(present, rel, w) && w[0] == a && w.last() == b;
    let w2 = choose|w: Seq<int>| #![trigger w[0], w.last()] is_walk(present, rel, w) && w[0] == b && w.last() == c;
    let w = w1 + w2.skip(1);
    let n1 = w1.len();
    assert forall|i: int| 0 <= i < w.len() - 1 implies #[trigger] rel(w[i], w[i + 1]) by {
        if i < n1 - 1 {
            assert(w[i] == w1[i] && w[i + 1] == w1[i + 1]);
        } else if i == n1 - 1 {
            assert(w[i] == w1.last());
            assert(w[i + 1] == w2[1]);
            assert(rel(w2[0], w2[0int + 1]));
        } else {
            let j = i - n1 + 1;
            assert(w[i] == w2[j] && w[i + 1] == w2[j + 1]);
        }
    }
    assert forall|i: int| 0 <= i < w.len() implies 0 <= #[trigger] w[i] < present.len() && present[w[i]] by {
        if i < n1 {
            assert(w[i] == w1[i]);
        } else {
            assert(w[i] == w2[i - n1 + 1]);
        }
    }
    if w2.len() == 1 {
        assert(w.last() == w1.last());
    } else {
        assert(w.last() == w2.last());
    }
    assert(w[0] == a);
    assert(is_walk(present, rel, w));
}

} // verus!
