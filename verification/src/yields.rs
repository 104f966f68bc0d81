//! Breaking the cycles of the call graph of the scheduling functions: every call
//! that closes a cycle becomes a yielding call.
use vstd::prelude::*;

use crate::ast::{NestedExpr, Program, SchedExpr, SchedFuncCall, SchedLiteral, SchedStmt, SchedTerm, TopLevel};
use crate::dominators::{count_true, lemma_count_le_len, lemma_count_subset};
use crate::text::{text_lt, text_lt_exec};

verus! {

/// The call graph of the scheduling functions, by node id.
pub struct CallGraph {
    /// The name of each function.
    pub names: Vec<String>,
    /// `adj[u]`: the calls that function `u` makes, in order, each as the callee's
    /// node and the call's edge id.
    pub adj: Vec<Vec<(usize, usize)>>,
    /// The number of calls.
    pub edge_count: usize,
}

impl CallGraph {
    /// Every call leads to a function of the graph and has an edge id below the count.
    pub open spec fn wf(&self) -> bool {
        &&& self.adj@.len() == self.names@.len()
        &&& forall|u: int, i: int|
            0 <= u < self.adj@.len() && 0 <= i < self.adj@[u]@.len() ==> #[trigger] self.adj@[u]@[i].0
                < self.adj@.len() && self.adj@[u]@[i].1 < self.edge_count
    }

    /// Every call not marked in `back` goes to a function of lower rank: the
    /// unmarked calls form no cycle.
    pub open spec fn ranked_without(&self, back: Seq<bool>, rank: Seq<int>) -> bool {
        &&& rank.len() == self.adj@.len()
        &&& forall|u: int, i: int|
            0 <= u < self.adj@.len() && 0 <= i < self.adj@[u]@.len() && !back[
                #[trigger] self.adj@[u]@[i].1 as int] ==> rank[self.adj@[u]@[i].0 as int] < rank[u]
    }

    /// The calls not marked in `back` form no cycle.
    pub open spec fn acyclic_without(&self, back: Seq<bool>) -> bool {
        exists|rank: Seq<int>| #[trigger] self.ranked_without(back, rank)
    }
}

/// Function `a` makes a call to function `b`.
pub open spec fn calls_to(g: CallGraph, a: int, b: int) -> bool {
    exists|i: int| 0 <= i < g.adj@[a]@.len() && #[trigger] g.adj@[a]@[i].0 == b
}

/// `w` is a walk along calls: each function of it calls the next.
pub open spec fn is_call_walk(g: CallGraph, w: Seq<int>) -> bool {
    &&& w.len() > 0
    &&& forall|k: int| 0 <= k < w.len() ==> 0 <= #[trigger] w[k] < g.adj@.len()
    &&& forall|k: int| 0 <= k < w.len() - 1 ==> calls_to(g, #[trigger] w[k], w[k + 1])
}

/// Function `a` reaches function `b` by a (possibly empty) chain of calls.
pub open spec fn reaches(g: CallGraph, a: int, b: int) -> bool {
    exists|w: Seq<int>| #[trigger] is_call_walk(g, w) && w[0] == a && w.last() == b
}

/// The call with edge id `e` closes a cycle: its callee reaches its caller.
pub open spec fn closes_cycle(g: CallGraph, e: int) -> bool {
    exists|u: int, i: int|
        0 <= u < g.adj@.len() && 0 <= i < g.adj@[u]@.len() && #[trigger] g.adj@[u]@[i].1 == e && reaches(
            g,
            g.adj@[u]@[i].0 as int,
            u,
        )
}

/// Every marked call closes a cycle.
pub open spec fn marks_close_cycles(g: CallGraph, back: Seq<bool>) -> bool {
    forall|e: int| 0 <= e < back.len() && #[trigger] back[e] ==> closes_cycle(g, e)
}

/// A function reaches itself.
proof fn lemma_reaches_self(g: CallGraph, a: int)
    requires
        0 <= a < g.adj@.len(),
    ensures
        reaches(g, a, a),
{
    let w = seq![a];
    assert(is_call_walk(g, w));
}

/// Reaching a function and then calling another reaches that one.
proof fn lemma_reaches_step(g: CallGraph, a: int, b: int, i: int)
    requires
        g.wf(),
        reaches(g, a, b),
        0 <= b < g.adj@.len(),
        0 <= i < g.adj@[b]@.len(),
    ensures
        reaches(g, a, g.adj@[b]@[i].0 as int),
{
    let w = choose|w: Seq<int>| #[trigger] is_call_walk(g, w) && w[0] == a && w.last() == b;
    let c = g.adj@[b]@[i].0 as int;
    let w2 = w.push(c);
    assert forall|k: int| 0 <= k < w2.len() implies 0 <= #[trigger] w2[k] < g.adj@.len() by {
        if k < w.len() {
            assert(w2[k] == w[k]);
        }
    }
    assert forall|k: int| 0 <= k < w2.len() - 1 implies calls_to(g, #[trigger] w2[k], w2[k + 1]) by {
        if k < w.len() - 1 {
            assert(w2[k] == w[k] && w2[k + 1] == w[k + 1]);
            assert(calls_to(g, w[k], w[k + 1]));
        } else {
            assert(w2[k] == b && w2[k + 1] == c);
            assert(g.adj@[w2[k]]@[i].0 == w2[k + 1]);
        }
    }
    assert(is_call_walk(g, w2));
}

/// The dfs state: every finished function's calls are marked, or go to finished
/// functions that finished earlier.
pub open spec fn finished_ranked(g: CallGraph, finished: Seq<bool>, rank: Seq<usize>, back: Seq<bool>) -> bool {
    forall|u: int, i: int|
        0 <= u < g.adj@.len() && finished[u] && 0 <= i < g.adj@[u]@.len() ==> back[#[trigger] g.adj@[u]@[i].1 as int]
            || (finished[g.adj@[u]@[i].0 as int] && rank[g.adj@[u]@[i].0 as int] < rank[u])
}

impl CallGraph {
    /// Depth-first search from `node`: marks in `back` every call to a function
    /// on the current search path, and finishes `node` and all it reaches.
    fn dfs(
        &self,
        node: usize,
        visited: &mut Vec<bool>,
        finished: &mut Vec<bool>,
        rank: &mut Vec<usize>,
        clock: &mut usize,
        back: &mut Vec<bool>,
        Ghost(budget): Ghost<int>,
    )
        requires
            budget == self.adj@.len() - count_true(old(visited)@),
            self.wf(),
            node < self.adj@.len(),
            old(visited)@.len() == self.adj@.len(),
            old(finished)@.len() == self.adj@.len(),
            old(rank)@.len() == self.adj@.len(),
            old(back)@.len() == self.edge_count,
            !old(visited)@[node as int],
            !old(finished)@[node as int],
            *old(clock) == count_true(old(finished)@),
            forall|u: int| 0 <= u < self.adj@.len() && old(finished)@[u] ==> #[trigger] old(rank)@[u] < *old(clock),
            finished_ranked(*self, old(finished)@, old(rank)@, old(back)@),
            marks_close_cycles(*self, old(back)@),
            forall|u: int|
                0 <= u < self.adj@.len() && old(visited)@[u] && !old(finished)@[u] ==> reaches(*self, u, node as int),
        ensures
            final(visited)@.len() == self.adj@.len(),
            final(finished)@.len() == self.adj@.len(),
            final(rank)@.len() == self.adj@.len(),
            final(back)@.len() == self.edge_count,
            final(finished)@[node as int],
            forall|u: int| 0 <= u < self.adj@.len() && old(visited)@[u] ==> #[trigger] final(visited)@[u],
            forall|u: int| 0 <= u < self.adj@.len() && old(finished)@[u] ==> #[trigger] final(finished)@[u],
            forall|u: int| 0 <= u < self.adj@.len() && old(finished)@[u] ==> #[trigger] final(rank)@[u] == old(rank)@[u],
            forall|e: int| 0 <= e < self.edge_count && old(back)@[e] ==> #[trigger] final(back)@[e],
            *final(clock) == count_true(final(finished)@),
            *old(clock) <= *final(clock),
            forall|u: int|
                0 <= u < self.adj@.len() && old(visited)@[u] && !old(finished)@[u] ==> !#[trigger] final(finished)@[u],
            forall|u: int| 0 <= u < self.adj@.len() && final(finished)@[u] ==> #[trigger] final(rank)@[u] < *final(clock),
            finished_ranked(*self, final(finished)@, final(rank)@, final(back)@),
            marks_close_cycles(*self, final(back)@),
            forall|u: int|
                0 <= u < self.adj@.len() && final(visited)@[u] && !final(finished)@[u] ==> old(visited)@[u]
                    && !old(finished)@[u],
        decreases budget,
    {
        let n = self.adj.len();
        let ghost v_before = visited@;
        proof {
            lemma_reaches_self(*self, node as int);
        }
        visited.set(node, true);
        proof {
            assert forall|i: int| 0 <= i < n && #[trigger] v_before[i] implies visited@[i] by {}
            assert(v_before[node as int] != visited@[node as int]);
            lemma_count_subset(v_before, visited@);
            lemma_count_le_len(visited@);
            lemma_count_le_len(finished@);
        }
        let ghost v_entry = old(visited)@;
        let ghost f_entry = old(finished)@;
        let ghost r_entry = old(rank)@;
        let ghost b_entry = old(back)@;
        let calls = &self.adj[node];
        let mut i: usize = 0;
        while i < calls.len()
            invariant
                self.wf(),
                n == self.adj@.len(),
                node < n,
                calls@ == self.adj@[node as int]@,
                i <= calls@.len(),
                visited@.len() == n,
                finished@.len() == n,
                rank@.len() == n,
                back@.len() == self.edge_count,
                visited@[node as int],
                !finished@[node as int],
                count_true(visited@) > count_true(v_entry),
                budget == n - count_true(v_entry),
                count_true(visited@) <= n,
                forall|u: int| 0 <= u < n && v_entry[u] ==> #[trigger] visited@[u],
                forall|u: int| 0 <= u < n && v_entry[u] && !f_entry[u] ==> !#[trigger] finished@[u],
                forall|u: int| 0 <= u < n && f_entry[u] ==> #[trigger] finished@[u],
                forall|u: int| 0 <= u < n && f_entry[u] ==> #[trigger] rank@[u] == r_entry[u],
                forall|e: int| 0 <= e < self.edge_count && b_entry[e] ==> #[trigger] back@[e],
                *clock == count_true(finished@),
                *old(clock) <= *clock,
                forall|u: int| 0 <= u < n && finished@[u] ==> #[trigger] rank@[u] < *clock,
                finished_ranked(*self, finished@, rank@, back@),
                marks_close_cycles(*self, back@),
                forall|u: int| 0 <= u < n && visited@[u] && !finished@[u] ==> reaches(*self, u, node as int),
                forall|u: int|
                    0 <= u < n && visited@[u] && !finished@[u] ==> (v_entry[u] && !f_entry[u]) || u == node,
                forall|j: int|
                    0 <= j < i ==> back@[#[trigger] calls@[j].1 as int] || (finished@[calls@[j].0 as int]
                        && rank@[calls@[j].0 as int] < *clock),
            decreases calls@.len() - i,
        {
            let (dest, e) = calls[i];
            assert(dest < n && e < self.edge_count) by {
                assert(self.adj@[node as int]@[i as int] == (dest, e));
            }
            if !finished[dest] {
                if visited[dest] {
                    let ghost bb = back@;
                    proof {
                        assert(reaches(*self, dest as int, node as int));
                        assert(self.adj@[node as int]@[i as int].1 == e);
                        assert(closes_cycle(*self, e as int));
                    }
                    back.set(e, true);
                    proof {
                        assert forall|x: int| 0 <= x < back@.len() && #[trigger] back@[x] implies closes_cycle(
                            *self,
                            x,
                        ) by {
                            if x != e {
                                assert(bb[x]);
                            }
                        }
                    }
                } else {
                    let ghost vb = visited@;
                    proof {
                        assert forall|u: int|
                            0 <= u < n && visited@[u] && !finished@[u] implies reaches(*self, u, dest as int) by {
                            lemma_reaches_step(*self, u, node as int, i as int);
                        }
                    }
                    assert(count_true(visited@) > count_true(v_entry));
                    self.dfs(
                        dest,
                        visited,
                        finished,
                        rank,
                        clock,
                        back,
                        Ghost(self.adj@.len() - count_true(visited@)),
                    );
                    proof {
                        lemma_count_subset(vb, visited@);
                        lemma_count_le_len(visited@);
                    }
                }
            }
            i += 1;
        }
        let ghost f_before = finished@;
        rank.set(node, *clock);
        finished.set(node, true);
        proof {
            assert forall|u: int| 0 <= u < n && #[trigger] f_before[u] implies finished@[u] by {}
            assert(f_before[node as int] != finished@[node as int]);
            lemma_count_set_true(f_before, node as int);
            assert(finished@ == f_before.update(node as int, true));
            lemma_count_le_len(finished@);
        }
        *clock = *clock + 1;
        proof {
            assert forall|u: int, j: int|
                0 <= u < n && finished@[u] && 0 <= j < self.adj@[u]@.len() implies back@[#[trigger] self.adj@[u]@[j].1 as int]
                    || (finished@[self.adj@[u]@[j].0 as int] && rank@[self.adj@[u]@[j].0 as int] < rank@[u]) by {
                if u == node {
                    assert(calls@[j] == self.adj@[u]@[j]);
                } else {
                    assert(f_before[u]);
                }
            }
        }
    }
}

/// Setting one unset entry adds one to the count of set entries.
proof fn lemma_count_set_true(s: Seq<bool>, i: int)
    requires
        0 <= i < s.len(),
        !s[i],
    ensures
        count_true(s.update(i, true)) == count_true(s) + 1,
    decreases s.len(),
{
    let t = s.update(i, true);
    if i == s.len() - 1 {
        assert(t.drop_last() =~= s.drop_last());
    } else {
        lemma_count_set_true(s.drop_last(), i);
        assert(t.drop_last() =~= s.drop_last().update(i, true));
    }
}

impl CallGraph {
    /// Finds calls that close cycles: a depth-first search from every function that
    /// makes calls, in the order of their names, marks each call to a function
    /// on the current search path. The unmarked calls form no cycle, and every
    /// marked call closes one.
    pub fn find_all_backedges(&self) -> (res: Vec<bool>)
        requires
            self.wf(),
        ensures
            res@.len() == self.edge_count,
            self.acyclic_without(res@),
            marks_close_cycles(*self, res@),
    {
        let n = self.adj.len();
        let mut back: Vec<bool> = Vec::new();
        let mut e: usize = 0;
        while e < self.edge_count
            invariant
                e <= self.edge_count,
                back@.len() == e,
                forall|x: int| 0 <= x < e ==> !#[trigger] back@[x],
            decreases self.edge_count - e,
        {
            back.push(false);
            e += 1;
        }
        let mut finished: Vec<bool> = Vec::new();
        let mut picked: Vec<bool> = Vec::new();
        let mut rank: Vec<usize> = Vec::new();
        let mut u: usize = 0;
        while u < n
            invariant
                n == self.adj@.len(),
                u <= n,
                finished@.len() == u,
                picked@.len() == u,
                rank@.len() == u,
                forall|x: int| 0 <= x < u ==> !#[trigger] finished@[x],
                forall|x: int| 0 <= x < u ==> !#[trigger] picked@[x],
            decreases n - u,
        {
            finished.push(false);
            picked.push(false);
            rank.push(0);
            u += 1;
        }
        let mut clock: usize = 0;
        proof {
            assert(finished@ =~= Seq::new(n as nat, |x: int| false));
            lemma_count_none(finished@);
            lemma_count_none(picked@);
        }
        loop
            invariant
                self.wf(),
                n == self.adj@.len(),
                back@.len() == self.edge_count,
                finished@.len() == n,
                picked@.len() == n,
                rank@.len() == n,
                clock == count_true(finished@),
                forall|x: int| 0 <= x < n && finished@[x] ==> #[trigger] rank@[x] < clock,
                forall|x: int| 0 <= x < n && picked@[x] ==> #[trigger] finished@[x],
                finished_ranked(*self, finished@, rank@, back@),
                marks_close_cycles(*self, back@),
            ensures
                back@.len() == self.edge_count,
                rank@.len() == n,
                finished_ranked(*self, finished@, rank@, back@),
                marks_close_cycles(*self, back@),
                forall|x: int| 0 <= x < n && self.adj@[x]@.len() > 0 ==> #[trigger] finished@[x],
            decreases n - count_true(picked@),
        {
            let mut best: usize = n;
            let mut x: usize = 0;
            while x < n
                invariant
                    self.wf(),
                    n == self.adj@.len(),
                    picked@.len() == n,
                    x <= n,
                    best == n || (best < n && self.adj@[best as int]@.len() > 0 && !picked@[best as int]),
                    best == n ==> forall|y: int| 0 <= y < x ==> self.adj@[y]@.len() == 0 || #[trigger] picked@[y],
                decreases n - x,
            {
                if self.adj[x].len() > 0 && !picked[x] {
                    if best == n || text_lt_exec(self.names[x].as_str(), self.names[best].as_str()) {
                        best = x;
                    }
                }
                x += 1;
            }
            if best == n {
                proof {
                    assert forall|y: int| 0 <= y < n && self.adj@[y]@.len() > 0 implies #[trigger] finished@[y] by {
                        assert(picked@[y]);
                    }
                }
                break;
            }
            let ghost p_before = picked@;
            picked.set(best, true);
            proof {
                lemma_count_set_true(p_before, best as int);
                assert(picked@ == p_before.update(best as int, true));
                lemma_count_le_len(picked@);
            }
            if !finished[best] {
                let mut visited: Vec<bool> = Vec::new();
                let mut k: usize = 0;
                while k < n
                    invariant
                        k <= n,
                        visited@.len() == k,
                        forall|y: int| 0 <= y < k ==> !#[trigger] visited@[y],
                    decreases n - k,
                {
                    visited.push(false);
                    k += 1;
                }
                proof {
                    lemma_count_none(visited@);
                }
                assert(marks_close_cycles(*self, back@));
                self.dfs(best, &mut visited, &mut finished, &mut rank, &mut clock, &mut back, Ghost(n as int));
            }
        }
        proof {
            let r = rank@.map_values(|v: usize| v as int);
            assert forall|u: int, i: int|
                0 <= u < self.adj@.len() && 0 <= i < self.adj@[u]@.len() && !back@[
                    #[trigger] self.adj@[u]@[i].1 as int] implies r[self.adj@[u]@[i].0 as int] < r[u] by {
                assert(finished@[u]);
            }
            assert(self.ranked_without(back@, r));
        }
        back
    }
}

/// A sequence with no set entries counts none.
proof fn lemma_count_none(s: Seq<bool>)
    requires
        forall|i: int| 0 <= i < s.len() ==> !#[trigger] s[i],
    ensures
        count_true(s) == 0,
    decreases s.len(),
{
    if s.len() > 0 {
        lemma_count_none(s.drop_last());
    }
}

/// The calls not marked in `back` form no cycle: no walk along them leads from
/// a function back to itself.
pub proof fn law_no_unmarked_cycle(g: CallGraph, back: Seq<bool>, walk: Seq<(int, int)>)
    requires
        g.wf(),
        g.acyclic_without(back),
        walk.len() > 0,
        forall|k: int|
            0 <= k < walk.len() ==> 0 <= #[trigger] walk[k].0 < g.adj@.len() && 0 <= walk[k].1 < g.adj@[walk[k].0]@.len()
                && !back[g.adj@[walk[k].0]@[walk[k].1].1 as int],
        forall|k: int|
            0 <= k < walk.len() - 1 ==> #[trigger] g.adj@[walk[k].0]@[walk[k].1].0 == walk[k + 1].0,
    ensures
        g.adj@[walk.last().0]@[walk.last().1].0 != walk[0].0,
{
    let rank = choose|rank: Seq<int>| #[trigger] g.ranked_without(back, rank);
    lemma_walk_descends(g, back, rank, walk, walk.len() - 1);
}

/// Along unmarked calls the ranks only go down.
proof fn lemma_walk_descends(g: CallGraph, back: Seq<bool>, rank: Seq<int>, walk: Seq<(int, int)>, k: int)
    requires
        g.wf(),
        g.ranked_without(back, rank),
        0 <= k < walk.len(),
        forall|j: int|
            0 <= j < walk.len() ==> 0 <= #[trigger] walk[j].0 < g.adj@.len() && 0 <= walk[j].1 < g.adj@[walk[j].0]@.len()
                && !back[g.adj@[walk[j].0]@[walk[j].1].1 as int],
        forall|j: int|
            0 <= j < walk.len() - 1 ==> #[trigger] g.adj@[walk[j].0]@[walk[j].1].0 == walk[j + 1].0,
    ensures
        rank[g.adj@[walk[k].0]@[walk[k].1].0 as int] < rank[walk[0].0],
    decreases k,
{
    let u = walk[k].0;
    let i = walk[k].1;
    assert(!back[g.adj@[u]@[i].1 as int]);
    assert(rank[g.adj@[u]@[i].0 as int] < rank[u]);
    if k > 0 {
        lemma_walk_descends(g, back, rank, walk, k - 1);
        assert(g.adj@[walk[k - 1].0]@[walk[k - 1].1].0 == walk[k].0);
    }
}

/// The name of the function a call calls (its target is a variable).
pub open spec fn target_name(call: SchedFuncCall) -> Seq<char> {
    match *call.target {
        NestedExpr::Term(SchedTerm::Var { name, .. }) => name@,
        _ => Seq::empty(),
    }
}

/// The call a statement makes directly, if any: a call statement, or a
/// declaration, assignment or return whose value is a call.
pub open spec fn direct_call(st: SchedStmt) -> Option<SchedFuncCall> {
    match st {
        SchedStmt::Call(_, call) => Some(call),
        SchedStmt::Decl { expr: Some(NestedExpr::Term(SchedTerm::Call(_, call))), .. } => Some(call),
        SchedStmt::Assign { rhs: NestedExpr::Term(SchedTerm::Call(_, call)), .. } => Some(call),
        SchedStmt::Return(_, NestedExpr::Term(SchedTerm::Call(_, call))) => Some(call),
        _ => None,
    }
}

/// The functions called by the statements of `s` from index `i` on, in order
/// (inside sequences, blocks and both branches of `if`s).
pub open spec fn calls_from(s: Seq<SchedStmt>, i: int) -> Seq<Seq<char>>
    decreases s, s.len() - i,
{
    if i < 0 || i >= s.len() {
        seq![]
    } else {
        stmt_calls(s[i]) + calls_from(s, i + 1)
    }
}

/// The functions called by the statement `st`, in order.
pub open spec fn stmt_calls(st: SchedStmt) -> Seq<Seq<char>>
    decreases st, 0int,
{
    match direct_call(st) {
        Some(call) => seq![target_name(call)],
        None => match st {
            SchedStmt::Sequence { block, .. } => stmt_calls(*block),
            SchedStmt::Block(_, ss) => calls_from(ss@, 0),
            SchedStmt::If { true_block, false_block, .. } => calls_from(true_block@, 0) + calls_from(
                false_block@,
                0,
            ),
            _ => seq![],
        },
    }
}

/// Every call of the statements of `s` from `i` on calls a variable, and every
/// returned tuple holds variables only (the statements are flattened).
pub open spec fn calls_ok_from(s: Seq<SchedStmt>, i: int) -> bool
    decreases s, s.len() - i,
{
    if i < 0 || i >= s.len() {
        true
    } else {
        stmt_calls_ok(s[i]) && calls_ok_from(s, i + 1)
    }
}

/// The calls of `st` call variables and its returned tuples hold variables.
pub open spec fn stmt_calls_ok(st: SchedStmt) -> bool
    decreases st, 0int,
{
    match direct_call(st) {
        Some(call) => *call.target matches NestedExpr::Term(SchedTerm::Var { .. }),
        None => match st {
            SchedStmt::Return(_, NestedExpr::Term(SchedTerm::Lit { lit: SchedLiteral::Tuple(terms), .. })) => forall|k: int|
                0 <= k < terms@.len() ==> #[trigger] terms@[k] matches NestedExpr::Term(SchedTerm::Var { .. }),
            SchedStmt::Sequence { block, .. } => stmt_calls_ok(*block),
            SchedStmt::Block(_, ss) => calls_ok_from(ss@, 0),
            SchedStmt::If { true_block, false_block, .. } => calls_ok_from(true_block@, 0) && calls_ok_from(
                false_block@,
                0,
            ),
            _ => true,
        },
    }
}

/// The calls of a program, in order, each as (caller, callee).
pub open spec fn program_calls(p: Seq<TopLevel>) -> Seq<(Seq<char>, Seq<char>)>
    decreases p.len(),
{
    if p.len() == 0 {
        seq![]
    } else {
        program_calls(p.drop_last()) + match p.last() {
            TopLevel::SchedulingFunc { name, statements, .. } => calls_from(statements@, 0).map_values(
                |d: Seq<char>| (name@, d),
            ),
            _ => seq![],
        }
    }
}

/// Every scheduling function of the program is flattened as `calls_ok_from` asks.
pub open spec fn program_ok(p: Seq<TopLevel>) -> bool {
    forall|i: int| 0 <= i < p.len() ==> match #[trigger] p[i] {
        TopLevel::SchedulingFunc { statements, .. } => calls_ok_from(statements@, 0),
        _ => true,
    }
}

/// The views of a list of strings.
pub open spec fn views(v: Seq<String>) -> Seq<Seq<char>> {
    v.map_values(|x: String| x@)
}

/// Appends the names of the functions called by `stmts` to `out`, in order.
fn collect_calls(stmts: &Vec<SchedStmt>, out: &mut Vec<String>)
    requires
        calls_ok_from(stmts@, 0),
    ensures
        views(final(out)@) == views(old(out)@) + calls_from(stmts@, 0),
    decreases stmts, 1int,
{
    let mut i: usize = 0;
    while i < stmts.len()
        invariant
            i <= stmts@.len(),
            calls_ok_from(stmts@, i as int),
            views(out@) + calls_from(stmts@, i as int) == views(old(out)@) + calls_from(stmts@, 0),
        decreases stmts@.len() - i,
    {
        proof {
            assert(decreases_to!(stmts => stmts@[i as int]));
        }
        let ghost before = views(out@);
        collect_stmt_calls(&stmts[i], out);
        proof {
            assert(views(out@) == before + stmt_calls(stmts@[i as int]));
            assert(calls_from(stmts@, i as int) == stmt_calls(stmts@[i as int]) + calls_from(stmts@, i + 1));
            assert(views(out@) + calls_from(stmts@, i + 1) =~= before + calls_from(stmts@, i as int));
        }
        i += 1;
    }
    assert(calls_from(stmts@, i as int) =~= Seq::<Seq<char>>::empty());
    assert(views(out@) =~= views(out@) + calls_from(stmts@, i as int));
}

/// Appends the name of the function that `call` calls to `out`.
fn push_target(call: &SchedFuncCall, out: &mut Vec<String>)
    requires
        *call.target matches NestedExpr::Term(SchedTerm::Var { .. }),
    ensures
        views(final(out)@) == views(old(out)@).push(target_name(*call)),
{
    match &*call.target {
        NestedExpr::Term(SchedTerm::Var { name, .. }) => {
            out.push(name.clone());
            assert(views(out@) =~= views(old(out)@).push(target_name(*call)));
        },
        _ => {},
    }
}

/// Appends the names of the functions called by `st` to `out`, in order.
fn collect_stmt_calls(st: &SchedStmt, out: &mut Vec<String>)
    requires
        stmt_calls_ok(*st),
    ensures
        views(final(out)@) == views(old(out)@) + stmt_calls(*st),
    decreases st, 0int,
{
    match st {
        SchedStmt::Call(_, call) => push_target(call, out),
        SchedStmt::Decl { expr: Some(NestedExpr::Term(SchedTerm::Call(_, call))), .. } => push_target(call, out),
        SchedStmt::Assign { rhs: NestedExpr::Term(SchedTerm::Call(_, call)), .. } => push_target(call, out),
        SchedStmt::Return(_, NestedExpr::Term(SchedTerm::Call(_, call))) => push_target(call, out),
        SchedStmt::Sequence { block, .. } => collect_stmt_calls(&**block, out),
        SchedStmt::Block(_, ss) => collect_calls(ss, out),
        SchedStmt::If { true_block, false_block, .. } => {
            collect_calls(true_block, out);
            collect_calls(false_block, out);
        },
        _ => {
            assert(views(out@) =~= views(old(out)@) + stmt_calls(*st));
        },
    }
}

impl CallGraph {
    /// Some call list holds the edge `k`.
    pub open spec fn lists_edge(&self, k: int) -> bool {
        exists|u: int, i: int| 0 <= u < self.adj@.len() && 0 <= i < self.adj@[u]@.len() && #[trigger] self.adj@[u]@[i].1 == k
    }

    /// The graph holds the calls `calls`: its names are distinct, every call is
    /// listed once under its caller, with its callee and its index as edge id,
    /// and each list is in the order of the calls.
    pub open spec fn holds_calls(&self, calls: Seq<(Seq<char>, Seq<char>)>) -> bool {
        &&& self.wf()
        &&& self.edge_count == calls.len()
        &&& forall|i: int, j: int| 0 <= i < j < self.names@.len() ==> self.names@[i]@ != self.names@[j]@
        &&& forall|u: int, i: int|
            0 <= u < self.adj@.len() && 0 <= i < self.adj@[u]@.len() ==> calls[#[trigger] self.adj@[u]@[i].1 as int]
                == (self.names@[u]@, self.names@[self.adj@[u]@[i].0 as int]@)
        &&& forall|k: int| 0 <= k < self.edge_count ==> #[trigger] self.lists_edge(k)
        &&& forall|u: int, i: int, j: int|
            0 <= u < self.adj@.len() && 0 <= i < j < self.adj@[u]@.len() ==> #[trigger] self.adj@[u]@[i].1
                < #[trigger] self.adj@[u]@[j].1
    }

    /// The node of the function `name`, added when it is new.
    fn node_of(&mut self, name: &String, Ghost(calls): Ghost<Seq<(Seq<char>, Seq<char>)>>) -> (res: usize)
        requires
            old(self).holds_calls(calls),
            old(self).names@.len() < usize::MAX,
        ensures
            final(self).holds_calls(calls),
            res < final(self).names@.len(),
            final(self).names@[res as int]@ == name@,
            final(self).names@.len() <= old(self).names@.len() + 1,
            final(self).names@.len() >= old(self).names@.len(),
            final(self).edge_count == old(self).edge_count,
            forall|u: int| 0 <= u < old(self).names@.len() ==> #[trigger] final(self).names@[u] == old(self).names@[u],
            forall|u: int| 0 <= u < old(self).adj@.len() ==> #[trigger] final(self).adj@[u] == old(self).adj@[u],
            forall|u: int| old(self).adj@.len() <= u < final(self).adj@.len() ==> #[trigger] final(self).adj@[u]@.len() == 0,
    {
        let mut i: usize = 0;
        while i < self.names.len()
            invariant
                *self == *old(self),
                self.holds_calls(calls),
                i <= self.names@.len(),
                forall|j: int| 0 <= j < i ==> self.names@[j]@ != name@,
            decreases self.names@.len() - i,
        {
            if self.names[i] == *name {
                return i;
            }
            i += 1;
        }
        self.names.push(name.clone());
        self.adj.push(Vec::new());
        proof {
            let n = old(self).names@.len();
            assert forall|u: int, i: int|
                0 <= u < self.adj@.len() && 0 <= i < self.adj@[u]@.len() implies #[trigger] self.adj@[u]@[i].0
                    < self.adj@.len() && self.adj@[u]@[i].1 < self.edge_count by {
                assert(u < n);
                assert(self.adj@[u] == old(self).adj@[u]);
            }
            assert forall|u: int, i: int|
                0 <= u < self.adj@.len() && 0 <= i < self.adj@[u]@.len() implies calls[#[trigger] self.adj@[u]@[i].1 as int]
                    == (self.names@[u]@, self.names@[self.adj@[u]@[i].0 as int]@) by {
                assert(u < n);
                assert(self.adj@[u] == old(self).adj@[u]);
                assert(self.names@[u] == old(self).names@[u]);
                assert(self.names@[self.adj@[u]@[i].0 as int] == old(self).names@[old(self).adj@[u]@[i].0 as int]);
            }
            assert forall|k: int| 0 <= k < self.edge_count implies #[trigger] self.lists_edge(k) by {
                assert(old(self).lists_edge(k));
                let (u, i) = choose|u: int, i: int|
                    0 <= u < old(self).adj@.len() && 0 <= i < old(self).adj@[u]@.len() && #[trigger] old(self).adj@[u]@[i].1 == k;
                assert(self.adj@[u] == old(self).adj@[u]);
            }
            assert forall|u: int, i: int, j: int|
                0 <= u < self.adj@.len() && 0 <= i < j < self.adj@[u]@.len() implies #[trigger] self.adj@[u]@[i].1
                    < #[trigger] self.adj@[u]@[j].1 by {
                assert(self.adj@[u] == old(self).adj@[u]);
            }
        }
        self.names.len() - 1
    }

    /// Adds the call from node `u` to node `v` as the next edge.
    fn add_call(&mut self, u: usize, v: usize, Ghost(calls): Ghost<Seq<(Seq<char>, Seq<char>)>>)
        requires
            old(self).holds_calls(calls),
            u < old(self).adj@.len(),
            v < old(self).adj@.len(),
            old(self).edge_count < usize::MAX,
        ensures
            final(self).holds_calls(calls.push((old(self).names@[u as int]@, old(self).names@[v as int]@))),
            final(self).names == old(self).names,
            final(self).edge_count == old(self).edge_count + 1,
            final(self).adj@.len() == old(self).adj@.len(),
    {
        let k = self.edge_count;
        let ghost c2 = calls.push((self.names@[u as int]@, self.names@[v as int]@));
        let mut row: Vec<(usize, usize)> = Vec::new();
        std::mem::swap(&mut row, &mut self.adj[u]);
        let ghost old_row = row@;
        assert(old_row == old(self).adj@[u as int]@);
        row.push((v, k));
        std::mem::swap(&mut row, &mut self.adj[u]);
        self.edge_count = k + 1;
        proof {
            assert forall|x: int| 0 <= x < self.adj@.len() && x != u implies #[trigger] self.adj@[x] == old(self).adj@[x] by {}
            assert(self.adj@[u as int]@ == old_row.push((v, k)));
            assert forall|x: int, i: int|
                0 <= x < self.adj@.len() && 0 <= i < self.adj@[x]@.len() implies #[trigger] self.adj@[x]@[i].0
                    < self.adj@.len() && self.adj@[x]@[i].1 < self.edge_count by {
                if x != u || i < old_row.len() {
                    assert(self.adj@[x]@[i] == old(self).adj@[x]@[i]);
                }
            }
            assert forall|x: int, i: int|
                0 <= x < self.adj@.len() && 0 <= i < self.adj@[x]@.len() implies c2[#[trigger] self.adj@[x]@[i].1 as int]
                    == (self.names@[x]@, self.names@[self.adj@[x]@[i].0 as int]@) by {
                if x != u || i < old_row.len() {
                    assert(self.adj@[x]@[i] == old(self).adj@[x]@[i]);
                }
            }
            assert forall|e: int| 0 <= e < self.edge_count implies #[trigger] self.lists_edge(e) by {
                if e == k {
                    assert(self.adj@[u as int]@[old_row.len() as int].1 == e);
                } else {
                    assert(old(self).lists_edge(e));
                    let (x, i) = choose|x: int, i: int|
                        0 <= x < old(self).adj@.len() && 0 <= i < old(self).adj@[x]@.len() && #[trigger] old(self).adj@[x]@[i].1 == e;
                    assert(self.adj@[x]@[i] == old(self).adj@[x]@[i]);
                }
            }
            assert forall|x: int, i: int, j: int|
                0 <= x < self.adj@.len() && 0 <= i < j < self.adj@[x]@.len() implies #[trigger] self.adj@[x]@[i].1
                    < #[trigger] self.adj@[x]@[j].1 by {
                if x != u || j < old_row.len() {
                    assert(self.adj@[x]@[i] == old(self).adj@[x]@[i]);
                    assert(self.adj@[x]@[j] == old(self).adj@[x]@[j]);
                } else {
                    assert(self.adj@[x]@[i] == old(self).adj@[x]@[i]);
                }
            }
        }
    }

    /// The call graph of the scheduling functions of `program`.
    pub fn new(program: &Program) -> (res: Self)
        requires
            program_ok(program@),
            2 * program_calls(program@).len() + 2 < usize::MAX,
        ensures
            res.holds_calls(program_calls(program@)),
    {
        let mut g = CallGraph { names: Vec::new(), adj: Vec::new(), edge_count: 0 };
        let mut d: usize = 0;
        while d < program.len()
            invariant
                d <= program@.len(),
                program_ok(program@),
                2 * program_calls(program@).len() + 2 < usize::MAX,
                g.holds_calls(program_calls(program@.take(d as int))),
                g.names@.len() <= 2 * g.edge_count,
            decreases program@.len() - d,
        {
            let ghost before = program_calls(program@.take(d as int));
            assert(program@.take(d + 1).drop_last() =~= program@.take(d as int));
            assert(program@.take(d + 1).last() == program@[d as int]);
            match &program[d] {
                TopLevel::SchedulingFunc { name, statements, .. } => {
                    assert(calls_ok_from(statements@, 0)) by {
                        assert(match program@[d as int] {
                            TopLevel::SchedulingFunc { statements, .. } => calls_ok_from(statements@, 0),
                            _ => true,
                        });
                    }
                    let mut targets: Vec<String> = Vec::new();
                    collect_calls(statements, &mut targets);
                    let ghost mapped = calls_from(statements@, 0).map_values(|t: Seq<char>| (name@, t));
                    assert(views(targets@) =~= calls_from(statements@, 0));
                    assert(program_calls(program@.take(d + 1)) == before + mapped);
                    let mut j: usize = 0;
                    while j < targets.len()
                        invariant
                            j <= targets@.len(),
                            d < program@.len(),
                            2 * program_calls(program@).len() + 2 < usize::MAX,
                            before == program_calls(program@.take(d as int)),
                            program_calls(program@.take(d + 1)) == before + mapped,
                            g.names@.len() <= 2 * g.edge_count,
                            views(targets@) == calls_from(statements@, 0),
                            mapped == calls_from(statements@, 0).map_values(|t: Seq<char>| (name@, t)),
                            g.holds_calls(before + mapped.take(j as int)),
                        decreases targets@.len() - j,
                    {
                        proof {
                            lemma_program_calls_prefix(program@, d + 1);
                            assert(before.len() + j < program_calls(program@.take(d + 1)).len()) by {
                                assert(program_calls(program@.take(d + 1)) == before + mapped);
                            }
                        }
                        let u = g.node_of(name, Ghost(before + mapped.take(j as int)));
                        let v = g.node_of(&targets[j], Ghost(before + mapped.take(j as int)));
                        g.add_call(u, v, Ghost(before + mapped.take(j as int)));
                        proof {
                            assert(views(targets@)[j as int] == targets@[j as int]@);
                            assert((before + mapped.take(j as int)).push((name@, targets@[j as int]@))
                                =~= before + mapped.take(j + 1));
                        }
                        j += 1;
                    }
                    assert(mapped.take(j as int) =~= mapped);
                },
                _ => {
                    assert(before + Seq::<(Seq<char>, Seq<char>)>::empty() =~= before);
                },
            }
            d += 1;
        }
        assert(program@.take(d as int) =~= program@);
        g
    }
}

/// The calls of a prefix of a program are no more than those of the program.
proof fn lemma_program_calls_prefix(p: Seq<TopLevel>, d: int)
    requires
        0 <= d <= p.len(),
    ensures
        program_calls(p.take(d)).len() <= program_calls(p).len(),
    decreases p.len() - d,
{
    if d < p.len() {
        lemma_program_calls_prefix(p, d + 1);
        assert(p.take(d + 1).drop_last() =~= p.take(d));
    } else {
        assert(p.take(d) =~= p);
    }
}

/// `call`, yielding when it did or when the edge `k` is marked.
pub open spec fn marked_call(call: SchedFuncCall, k: int, back: Seq<bool>) -> SchedFuncCall {
    SchedFuncCall {
        target: call.target,
        templates: call.templates,
        args: call.args,
        tag: call.tag,
        yield_call: call.yield_call || back[k],
    }
}

/// `st2` is `st` with its calls, numbered from `k` on, marked as `back` says.
pub open spec fn marked_stmt(st: SchedStmt, st2: SchedStmt, k: int, back: Seq<bool>) -> bool
    decreases st, 0int,
{
    match st {
        SchedStmt::Call(info, call) => st2 == SchedStmt::Call(info, marked_call(call, k, back)),
        SchedStmt::Decl { info, lhs, is_const, expr: Some(NestedExpr::Term(SchedTerm::Call(i2, call))) } => st2
            == SchedStmt::Decl {
            info,
            lhs,
            is_const,
            expr: Some(NestedExpr::Term(SchedTerm::Call(i2, marked_call(call, k, back)))),
        },
        SchedStmt::Assign { info, lhs, rhs: NestedExpr::Term(SchedTerm::Call(i2, call)), lhs_is_ref } => st2
            == SchedStmt::Assign {
            info,
            lhs,
            rhs: NestedExpr::Term(SchedTerm::Call(i2, marked_call(call, k, back))),
            lhs_is_ref,
        },
        SchedStmt::Return(info, NestedExpr::Term(SchedTerm::Call(i2, call))) => st2 == SchedStmt::Return(
            info,
            NestedExpr::Term(SchedTerm::Call(i2, marked_call(call, k, back))),
        ),
        SchedStmt::Sequence { info, dests, block, is_const } => match st2 {
            SchedStmt::Sequence { info: a, dests: b, block: c, is_const: d } => a == info && b == dests && d
                == is_const && marked_stmt(*block, *c, k, back),
            _ => false,
        },
        SchedStmt::Block(info, ss) => match st2 {
            SchedStmt::Block(a, ss2) => a == info && marked_from(ss@, ss2@, 0, k, back),
            _ => false,
        },
        SchedStmt::If { guard, true_block, false_block, info, tag } => match st2 {
            SchedStmt::If { guard: g, true_block: t, false_block: f, info: i, tag: tg } => g == guard && i
                == info && tg == tag && marked_from(true_block@, t@, 0, k, back) && marked_from(
                false_block@,
                f@,
                0,
                k + calls_from(true_block@, 0).len(),
                back,
            ),
            _ => false,
        },
        _ => st2 == st,
    }
}

/// `out` is `s` with the calls of its statements from index `i` on, numbered
/// from `k` on, marked as `back` says.
pub open spec fn marked_from(s: Seq<SchedStmt>, out: Seq<SchedStmt>, i: int, k: int, back: Seq<bool>) -> bool
    decreases s, s.len() - i,
{
    if i < 0 || i >= s.len() {
        out.len() == s.len()
    } else {
        marked_stmt(s[i], out[i], k, back) && marked_from(s, out, i + 1, k + stmt_calls(s[i]).len(), back)
    }
}

/// `q` is the program `p` with its calls marked as `back` says (calls numbered in
/// program order).
pub open spec fn marked_program(p: Seq<TopLevel>, q: Seq<TopLevel>, back: Seq<bool>) -> bool {
    &&& q.len() == p.len()
    &&& forall|d: int| 0 <= d < p.len() ==> match #[trigger] p[d] {
        TopLevel::SchedulingFunc { info, name, input, output, specs, statements } => match q[d] {
            TopLevel::SchedulingFunc { info: a, name: b, input: c, output: o, specs: e, statements: f } => a
                == info && b == name && c == input && o == output && e == specs && marked_from(
                statements@,
                f@,
                0,
                program_calls(p.take(d)).len() as int,
                back,
            ),
            _ => false,
        },
        _ => q[d] == p[d],
    }
}

/// The offsets work out: pointwise marking with the running call count gives `marked_from`.
proof fn lemma_marked_from(s: Seq<SchedStmt>, out: Seq<SchedStmt>, i: int, base: int, back: Seq<bool>)
    requires
        0 <= i <= s.len(),
        out.len() == s.len(),
        forall|j: int| i <= j < s.len() ==> marked_stmt(s[j], #[trigger] out[j], base - calls_from(s, j).len(), back),
    ensures
        marked_from(s, out, i, base - calls_from(s, i).len(), back),
    decreases s.len() - i,
{
    if i < s.len() {
        lemma_marked_from(s, out, i + 1, base, back);
        assert(calls_from(s, i).len() == stmt_calls(s[i]).len() + calls_from(s, i + 1).len());
    }
}

/// Marks the call `call`, numbered `k`, as `back` says.
fn mark_call(call: SchedFuncCall, k: usize, back: &Vec<bool>) -> (res: SchedFuncCall)
    requires
        k < back@.len(),
    ensures
        res == marked_call(call, k as int, back@),
{
    let SchedFuncCall { target, templates, args, tag, yield_call } = call;
    SchedFuncCall { target, templates, args, tag, yield_call: yield_call || back[k] }
}

/// Marks the calls of `st`, numbered from `k` on, as `back` says.
fn mark_stmt(st: SchedStmt, k: usize, back: &Vec<bool>) -> (res: SchedStmt)
    requires
        k + stmt_calls(st).len() <= back@.len(),
    ensures
        marked_stmt(st, res, k as int, back@),
    decreases st, 0int,
{
    match st {
        SchedStmt::Call(info, call) => SchedStmt::Call(info, mark_call(call, k, back)),
        SchedStmt::Decl { info, lhs, is_const, expr: Some(NestedExpr::Term(SchedTerm::Call(i2, call))) } => SchedStmt::Decl {
            info,
            lhs,
            is_const,
            expr: Some(NestedExpr::Term(SchedTerm::Call(i2, mark_call(call, k, back)))),
        },
        SchedStmt::Assign { info, lhs, rhs: NestedExpr::Term(SchedTerm::Call(i2, call)), lhs_is_ref } => SchedStmt::Assign {
            info,
            lhs,
            rhs: NestedExpr::Term(SchedTerm::Call(i2, mark_call(call, k, back))),
            lhs_is_ref,
        },
        SchedStmt::Return(info, NestedExpr::Term(SchedTerm::Call(i2, call))) => SchedStmt::Return(
            info,
            NestedExpr::Term(SchedTerm::Call(i2, mark_call(call, k, back))),
        ),
        SchedStmt::Sequence { info, dests, block, is_const } => {
            let b = mark_stmt(*block, k, back);
            SchedStmt::Sequence { info, dests, block: Box::new(b), is_const }
        },
        SchedStmt::Block(info, ss) => {
            let ss2 = mark_stmts(ss, k, back);
            SchedStmt::Block(info, ss2)
        },
        SchedStmt::If { guard, true_block, false_block, info, tag } => {
            let ghost tb = true_block@;
            let (t, k2) = mark_stmts_counted(true_block, k, back);
            let f = mark_stmts(false_block, k2, back);
            SchedStmt::If { guard, true_block: t, false_block: f, info, tag }
        },
        st => st,
    }
}

/// Marks the calls of the statements `v`, numbered from `k` on, as `back` says.
fn mark_stmts(v: Vec<SchedStmt>, k: usize, back: &Vec<bool>) -> (res: Vec<SchedStmt>)
    requires
        k + calls_from(v@, 0).len() <= back@.len(),
    ensures
        marked_from(v@, res@, 0, k as int, back@),
    decreases v, 2int,
{
    let (res, _) = mark_stmts_counted(v, k, back);
    res
}

/// Marks the calls of the statements `v`, numbered from `k` on, as `back` says;
/// also gives the number after the last call.
fn mark_stmts_counted(v: Vec<SchedStmt>, k: usize, back: &Vec<bool>) -> (res: (Vec<SchedStmt>, usize))
    requires
        k + calls_from(v@, 0).len() <= back@.len(),
    ensures
        marked_from(v@, res.0@, 0, k as int, back@),
        res.1 == k + calls_from(v@, 0).len(),
    decreases v, 1int,
{
    let ghost v0 = v;
    let ghost orig = v@;
    let ghost base = k + calls_from(orig, 0).len();
    let _n = v.len();
    let _m = back.len();
    let mut rest = v;
    let mut out: Vec<SchedStmt> = Vec::new();
    let mut kk: usize = k;
    let mut idx: usize = 0;
    while rest.len() > 0
        invariant
            v0 == v,
            orig == v0@,
            orig == v@,
            orig.len() <= usize::MAX,
            base == k + calls_from(orig, 0).len(),
            base <= back@.len(),
            idx + rest@.len() == orig.len(),
            rest@ == orig.skip(idx as int),
            out@.len() == idx,
            kk == base - calls_from(orig, idx as int).len(),
            kk >= k,
            back@.len() <= usize::MAX,
            forall|j: int| 0 <= j < idx ==> marked_stmt(orig[j], #[trigger] out@[j], base - calls_from(orig, j).len(), back@),
        decreases rest@.len(),
    {
        let st = rest.remove(0);
        assert(st == orig[idx as int]);
        proof {
            assert(decreases_to!(v0 => v0@[idx as int]));
            assert(calls_from(orig, idx as int).len() == stmt_calls(st).len() + calls_from(orig, idx + 1).len());
        }
        let n = stmt_call_count(&st);
        let st2 = mark_stmt(st, kk, back);
        out.push(st2);
        kk = kk + n;
        idx += 1;
    }
    proof {
        assert(calls_from(orig, idx as int).len() == 0);
        lemma_marked_from(orig, out@, 0, base, back@);
    }
    (out, kk)
}

/// The number of calls of `st`.
fn stmt_call_count(st: &SchedStmt) -> (res: usize)
    requires
        stmt_calls(*st).len() <= usize::MAX,
    ensures
        res == stmt_calls(*st).len(),
    decreases st, 0int,
{
    match st {
        SchedStmt::Call(..) => 1,
        SchedStmt::Decl { expr: Some(NestedExpr::Term(SchedTerm::Call(..))), .. } => 1,
        SchedStmt::Assign { rhs: NestedExpr::Term(SchedTerm::Call(..)), .. } => 1,
        SchedStmt::Return(_, NestedExpr::Term(SchedTerm::Call(..))) => 1,
        SchedStmt::Sequence { block, .. } => stmt_call_count(&**block),
        SchedStmt::Block(_, ss) => calls_count(ss),
        SchedStmt::If { true_block, false_block, .. } => {
            let a = calls_count(true_block);
            let b = calls_count(false_block);
            a + b
        },
        _ => 0,
    }
}

/// The number of calls of the statements `v`.
fn calls_count(v: &Vec<SchedStmt>) -> (res: usize)
    requires
        calls_from(v@, 0).len() <= usize::MAX,
    ensures
        res == calls_from(v@, 0).len(),
    decreases v, 1int,
{
    let mut total: usize = 0;
    let mut i: usize = 0;
    while i < v.len()
        invariant
            i <= v@.len(),
            calls_from(v@, 0).len() <= usize::MAX,
            total + calls_from(v@, i as int).len() == calls_from(v@, 0).len(),
        decreases v@.len() - i,
    {
        proof {
            assert(decreases_to!(v => v@[i as int]));
            assert(calls_from(v@, i as int).len() == stmt_calls(v@[i as int]).len() + calls_from(v@, i + 1).len());
        }
        let c = stmt_call_count(&v[i]);
        total = total + c;
        i += 1;
    }
    total
}

/// `q[d]` is the declaration `p[d]` with its calls marked as `back` says.
pub open spec fn marked_decl(p: Seq<TopLevel>, q: Seq<TopLevel>, d: int, back: Seq<bool>) -> bool {
    match p[d] {
        TopLevel::SchedulingFunc { info, name, input, output, specs, statements } => match q[d] {
            TopLevel::SchedulingFunc { info: a, name: b, input: c, output: o, specs: e, statements: f } => a
                == info && b == name && c == input && o == output && e == specs && marked_from(
                statements@,
                f@,
                0,
                program_calls(p.take(d)).len() as int,
                back,
            ),
            _ => false,
        },
        _ => q[d] == p[d],
    }
}

impl CallGraph {
    /// Makes every call that closes a cycle of the call graph a yielding call, so
    /// that the calls that do not yield form no cycle; returns which calls (by
    /// number in program order) were marked. The graph must be that of `program`.
    pub fn insert_yields(&self, program: &mut Program) -> (back: Vec<bool>)
        requires
            self.holds_calls(program_calls(old(program)@)),
        ensures
            back@.len() == self.edge_count,
            self.acyclic_without(back@),
            marks_close_cycles(*self, back@),
            marked_program(old(program)@, final(program)@, back@),
    {
        let back = self.find_all_backedges();
        let mut p: Program = Vec::new();
        std::mem::swap(&mut p, program);
        let ghost orig = p@;
        let _n = p.len();
        let mut out: Program = Vec::new();
        let mut k: usize = 0;
        let mut d: usize = 0;
        while p.len() > 0
            invariant
                orig == old(program)@,
                orig.len() <= usize::MAX,
                back@.len() == program_calls(orig).len(),
                back@.len() <= usize::MAX,
                d + p@.len() == orig.len(),
                p@ == orig.skip(d as int),
                out@.len() == d,
                k == program_calls(orig.take(d as int)).len(),
                forall|j: int| 0 <= j < d ==> #[trigger] marked_decl(orig, out@ + orig.skip(d as int), j, back@),
            decreases p@.len(),
        {
            let decl = p.remove(0);
            assert(decl == orig[d as int]);
            assert(orig.take(d + 1).drop_last() =~= orig.take(d as int));
            assert(orig.take(d + 1).last() == decl);
            proof {
                lemma_program_calls_prefix(orig, d + 1);
            }
            let ghost out_before = out@;
            match decl {
                TopLevel::SchedulingFunc { info, name, input, output, specs, statements } => {
                    let ghost sts = statements@;
                    assert(program_calls(orig.take(d + 1)).len() == k + calls_from(sts, 0).len());
                    let (marked, k2) = mark_stmts_counted(statements, k, &back);
                    out.push(TopLevel::SchedulingFunc { info, name, input, output, specs, statements: marked });
                    k = k2;
                },
                other => {
                    out.push(other);
                },
            }
            proof {
                assert forall|j: int| 0 <= j < d + 1 implies #[trigger] marked_decl(orig, out@ + orig.skip(d + 1), j, back@) by {
                    let q_old = out_before + orig.skip(d as int);
                    let q_new = out@ + orig.skip(d + 1);
                    assert(q_new[j] == out@[j]);
                    if j < d {
                        assert(q_old[j] == out_before[j]);
                        assert(marked_decl(orig, q_old, j, back@));
                    }
                }
            }
            d += 1;
        }
        proof {
            assert(out@ + orig.skip(d as int) =~= out@);
            assert forall|j: int| 0 <= j < orig.len() implies match #[trigger] orig[j] {
                TopLevel::SchedulingFunc { info, name, input, output, specs, statements } => match out@[j] {
                    TopLevel::SchedulingFunc { info: a, name: b, input: c, output: o, specs: e, statements: f } => a
                        == info && b == name && c == input && o == output && e == specs && marked_from(
                        statements@,
                        f@,
                        0,
                        program_calls(orig.take(j)).len() as int,
                        back@,
                    ),
                    _ => false,
                },
                _ => out@[j] == orig[j],
            } by {
                assert(marked_decl(orig, out@ + orig.skip(d as int), j, back@));
            }
        }
        *program = out;
        back
    }
}

} // verus!
