//! Dataflow facts over the high-level IR: live variables (a backwards
//! analysis) and reaching definitions (a forwards analysis), each with its meet
//! and its transfer through one instruction.
use vstd::prelude::*;

use crate::ast::DataType;
use crate::cfg::{edge_targets, BlockGraph, FlowGraph, FINAL_BLOCK_ID, START_BLOCK_ID};
use crate::hir::{
    body_defs, body_ok, body_uses, dest_list, dest_names, filled_args, instr_defs, instr_ok, instr_uses, name_views, tail_defs,
    tail_uses, BasicBlock, HirBody, HirInstr, Terminator,
};
use crate::name_set::{
    contains_name, sorted_names, insert_name, insert_names, lemma_names_prefix, names_of,
    remove_name,
};

verus! {

/// The names held by `v` are the elements of its name sequence.
pub proof fn lemma_names_views(v: Seq<String>)
    ensures
        names_of(v) == name_views(v).to_set(),
{
    assert forall|s: Seq<char>| names_of(v).contains(s) implies name_views(v).to_set().contains(s) by {
        let k = choose|k: int| 0 <= k < v.len() && #[trigger] v[k]@ == s;
        assert(name_views(v)[k] == s);
    }
    assert forall|s: Seq<char>| name_views(v).to_set().contains(s) implies names_of(v).contains(s) by {
        let k = choose|k: int| 0 <= k < name_views(v).len() && #[trigger] name_views(v)[k] == s;
        assert(v[k]@ == s);
    }
    assert(names_of(v) =~= name_views(v).to_set());
}

/// The names an optional definition list defines.
pub open spec fn def_set(d: Option<Seq<Seq<char>>>) -> Set<Seq<char>> {
    match d {
        Some(x) => x.to_set(),
        None => Set::empty(),
    }
}

/// The variables live before an instruction, given those live after it: the
/// instruction's definitions are no longer live, and what it reads is.
pub open spec fn live_step(live: Set<Seq<char>>, stmt: HirInstr) -> Set<Seq<char>> {
    live.difference(def_set(instr_defs(stmt))).union(instr_uses(stmt))
}

/// The liveness step is monotone: more variables live after an instruction
/// never makes fewer live before it.
pub proof fn law_live_step_monotone(l1: Set<Seq<char>>, l2: Set<Seq<char>>, stmt: HirInstr)
    requires
        l1.subset_of(l2),
    ensures
        live_step(l1, stmt).subset_of(live_step(l2, stmt)),
{
}

/// The set of the elements of a one-element sequence.
proof fn lemma_single_to_set(x: Seq<char>)
    ensures
        seq![x].to_set() == set![x],
{
    assert forall|y: Seq<char>| seq![x].to_set().contains(y) <==> set![x].contains(y) by {
        if y == x {
            assert(seq![x][0] == y);
        }
    }
    assert(seq![x].to_set() =~= set![x]);
}

/// Across a load `dest = *src`, the source is live before the load, and the
/// destination is not (unless it is the source): the live set before is the
/// set after without `dest` and with `src`.
pub proof fn law_live_across_load(l: Set<Seq<char>>, b: HirBody)
    requires
        b is RefLoad,
    ensures
        live_step(l, HirInstr::Stmt(&b)) == l.remove(b->RefLoad_dest@).insert(b->RefLoad_src@),
        live_step(l, HirInstr::Stmt(&b)).contains(b->RefLoad_src@),
{
    lemma_single_to_set(b->RefLoad_dest@);
    assert(live_step(l, HirInstr::Stmt(&b)) =~= l.remove(b->RefLoad_dest@).insert(b->RefLoad_src@));
}

/// What an instruction reads is live before it, whatever is live after it;
/// and a variable it defines but does not read is not live before it.
pub proof fn law_live_step_reads(l: Set<Seq<char>>, stmt: HirInstr)
    ensures
        instr_uses(stmt).subset_of(live_step(l, stmt)),
        forall|v: Seq<char>|
            instr_defs(stmt) is Some && instr_defs(stmt)->0.contains(v) && !instr_uses(stmt).contains(v) ==> !#[trigger] live_step(
                l,
                stmt,
            ).contains(v),
{
}

/// A load defines its destination: after it, the destination is available,
/// and so is everything that was available (or pending at the block) before.
pub proof fn law_load_defines(avail: Set<Seq<char>>, b: HirBody)
    requires
        b is RefLoad,
    ensures
        avail_step(avail, HirInstr::Stmt(&b)) == avail.insert(b->RefLoad_dest@),
{
    lemma_single_to_set(b->RefLoad_dest@);
    assert(avail_step(avail, HirInstr::Stmt(&b)) =~= avail.insert(b->RefLoad_dest@));
}

/// Every variable an instruction defines is available after it.
pub proof fn law_defined_is_available(avail: Set<Seq<char>>, stmt: HirInstr)
    ensures
        instr_defs(stmt) matches Some(d) ==> forall|i: int| 0 <= i < d.len() ==> avail_step(avail, stmt).contains(
            #[trigger] d[i],
        ),
{
    if let Some(d) = instr_defs(stmt) {
        assert forall|i: int| 0 <= i < d.len() implies avail_step(avail, stmt).contains(#[trigger] d[i]) by {
            assert(d.to_set().contains(d[i]));
        }
    }
}

/// The reaching-definitions step only adds: what was available stays
/// available, and what was killed stays killed.
pub proof fn law_reaching_step_grows(
    avail: Set<Seq<char>>,
    kill: Set<Seq<char>>,
    refs: Set<Seq<char>>,
    vars: Set<Seq<char>>,
    stmt: HirInstr,
)
    ensures
        avail.subset_of(avail_step(avail, stmt)),
        kill.subset_of(kill_step(kill, avail, refs, vars, stmt)),
{
}

/// The liveness step over a statement.
pub open spec fn live_body(live: Set<Seq<char>>, b: HirBody) -> Set<Seq<char>> {
    live.difference(def_set(body_defs(b))).union(body_uses(b))
}

/// The variables live before the statements `stmts`, given those live after
/// them: the statements are taken from the last to the first.
pub open spec fn live_stmts(live: Set<Seq<char>>, stmts: Seq<HirBody>) -> Set<Seq<char>>
    decreases stmts.len(),
{
    if stmts.len() == 0 {
        live
    } else {
        live_stmts(live_body(live, stmts.last()), stmts.drop_last())
    }
}

/// The variables live on entry to a block, given those live on its exit.
pub open spec fn live_block(live: Set<Seq<char>>, b: BasicBlock) -> Set<Seq<char>> {
    live_stmts(live.difference(def_set(tail_defs(b.terminator))).union(tail_uses(b.terminator)), b.stmts@)
}

/// Every statement of the block holds no call term.
pub open spec fn block_ok(b: BasicBlock) -> bool {
    forall|i: int| 0 <= i < b.stmts@.len() ==> body_ok(#[trigger] b.stmts@[i])
}

/// Removes every name of `defs` from the set held by `v`.
fn remove_names(v: &mut Vec<String>, defs: &Vec<String>)
    requires
        sorted_names(old(v)@),
    ensures
        sorted_names(final(v)@),
        names_of(final(v)@) == names_of(old(v)@).difference(names_of(defs@)),
{
    let ghost start = v@;
    let mut i: usize = 0;
    assert(names_of(defs@.subrange(0, 0)) =~= Set::empty());
    assert(names_of(start).difference(Set::empty()) =~= names_of(start));
    while i < defs.len()
        invariant
            i <= defs@.len(),
            sorted_names(v@),
            names_of(v@) == names_of(start).difference(names_of(defs@.subrange(0, i as int))),
        decreases defs@.len() - i,
    {
        proof {
            lemma_names_prefix(defs@, i as int);
        }
        remove_name(v, &defs[i]);
        assert(names_of(v@) =~= names_of(start).difference(names_of(defs@.subrange(0, i + 1))));
        i += 1;
    }
    assert(defs@.subrange(0, defs@.len() as int) =~= defs@);
}

/// The variables that are live at a program point.
pub struct LiveVars {
    pub live_set: Vec<String>,
}

impl View for LiveVars {
    type V = Set<Seq<char>>;

    open spec fn view(&self) -> Set<Seq<char>> {
        names_of(self.live_set@)
    }
}

impl LiveVars {
    /// No variable is listed twice.
    pub open spec fn wf(&self) -> bool {
        sorted_names(self.live_set@)
    }

    /// The fact at the end of the function: nothing is live.
    pub fn top() -> (res: Self)
        ensures
            res.wf(),
            res@ == Set::<Seq<char>>::empty(),
    {
        let res = LiveVars { live_set: Vec::new() };
        assert(res@ =~= Set::<Seq<char>>::empty());
        res
    }

    /// A copy of this fact.
    pub fn copy(&self) -> (res: LiveVars)
        ensures
            res.wf(),
            res@ == self@,
    {
        let mut v: Vec<String> = Vec::new();
        insert_names(&mut v, &self.live_set);
        assert(names_of(Seq::<String>::empty()) =~= Set::<Seq<char>>::empty());
        assert(names_of(v@) =~= self@);
        LiveVars { live_set: v }
    }

    /// The live variables.
    pub fn live_set(&self) -> (res: &Vec<String>)
        ensures
            res@ == self.live_set@,
    {
        &self.live_set
    }

    /// A variable is live where a successor needs it: the union of both facts.
    pub fn meet(self, other: &Self) -> (res: Self)
        requires
            self.wf(),
        ensures
            res.wf(),
            res@ == self@.union(other@),
    {
        let mut res = self;
        insert_names(&mut res.live_set, &other.live_set);
        res
    }

    /// Moves the fact backwards over one instruction.
    pub fn transfer_instr(&mut self, stmt: HirInstr, block_id: usize, cont_id: Option<usize>)
        requires
            old(self).wf(),
            instr_ok(stmt),
        ensures
            final(self).wf(),
            final(self)@ == live_step(old(self)@, stmt),
    {
        let ghost start = self@;
        if let Some(defs) = stmt.get_defs() {
            proof {
                lemma_names_views(defs@);
            }
            remove_names(&mut self.live_set, &defs);
        } else {
            assert(start.difference(Set::empty()) =~= start);
        }
        stmt.get_uses(&mut self.live_set);
    }

    /// The fact on entry to `block` given this fact on its exit: the
    /// terminator, then the statements from the last to the first.
    pub fn analyze_basic_block(self, block: &BasicBlock) -> (res: LiveVars)
        requires
            self.wf(),
            block_ok(*block),
        ensures
            res.wf(),
            res@ == live_block(self@, *block),
    {
        let mut fact = self;
        let cont_id = block.ret_block;
        fact.transfer_instr(HirInstr::Tail(&block.terminator), block.id, cont_id);
        let mut i = block.stmts.len();
        assert(block.stmts@.subrange(0, i as int) =~= block.stmts@);
        while i > 0
            invariant
                i <= block.stmts@.len(),
                block_ok(*block),
                fact.wf(),
                live_block(self@, *block) == live_stmts(fact@, block.stmts@.subrange(0, i as int)),
            decreases i,
        {
            let ghost before = fact@;
            proof {
                let pre = block.stmts@.subrange(0, i as int);
                assert(pre.drop_last() =~= block.stmts@.subrange(0, i - 1));
                assert(pre.last() == block.stmts@[i - 1]);
            }
            fact.transfer_instr(HirInstr::Stmt(&block.stmts[i - 1]), block.id, cont_id);
            i -= 1;
        }
        fact
    }
}

/// The names a list of names holds where the list is stored with a block id.
pub open spec fn pending_names(entries: Seq<(usize, Vec<String>)>, b: usize) -> Set<Seq<char>> {
    Set::new(
        |s: Seq<char>|
            exists|i: int|
                0 <= i < entries.len() && #[trigger] entries[i].0 == b && names_of(entries[i].1@).contains(s),
    )
}

/// Whether `s` is declared with a reference type.
pub open spec fn is_ref_var(dt: Seq<(String, DataType)>, s: Seq<char>) -> bool {
    exists|i: int| 0 <= i < dt.len() && #[trigger] dt[i].0@ == s && dt[i].1 is Ref
}

/// Whether a call passes a hole (`?`) as an argument.
pub open spec fn has_hole_arg(args: Seq<Option<String>>) -> bool {
    exists|i: int| 0 <= i < args.len() && #[trigger] args[i] is None
}

/// The definitions available after an instruction, given `avail`, those
/// available before it (including those that become available at its block):
/// what it defines becomes available.
pub open spec fn avail_step(avail: Set<Seq<char>>, stmt: HirInstr) -> Set<Seq<char>> {
    avail.union(def_set(instr_defs(stmt)))
}

/// The definitions killed after an instruction, given `kill` and `avail`,
/// those killed and available before it. A call kills every available
/// reference (references cannot be captured over a call), every argument that
/// is not a mutable variable (it is consumed), and everything available when
/// an argument is a hole; a return kills what it returns.
pub open spec fn kill_step(
    kill: Set<Seq<char>>,
    avail: Set<Seq<char>>,
    refs: Set<Seq<char>>,
    vars: Set<Seq<char>>,
    stmt: HirInstr,
) -> Set<Seq<char>> {
    match stmt {
        HirInstr::Tail(t) => kill_tail(kill, avail, refs, vars, *t),
        HirInstr::Stmt(_) => kill,
    }
}

/// The definitions killed after a terminator (see `kill_step`).
pub open spec fn kill_tail(
    kill: Set<Seq<char>>,
    avail: Set<Seq<char>>,
    refs: Set<Seq<char>>,
    vars: Set<Seq<char>>,
    t: Terminator,
) -> Set<Seq<char>> {
    match t {
        Terminator::Call(_, call) => kill.union(ref_vars(avail, refs)).union(
            if has_hole_arg(call.args@) {
                avail
            } else {
                Set::empty()
            },
        ).union(filled_args(call.args@).difference(vars)),
        Terminator::Return { rets, .. } => kill.union(names_of(rets@)),
        _ => kill,
    }
}

/// The members of `avail` that are references (members of `refs`).
pub open spec fn ref_vars(avail: Set<Seq<char>>, refs: Set<Seq<char>>) -> Set<Seq<char>> {
    avail.intersect(refs)
}

/// The definitions that become available at block `b` after an instruction: a
/// select makes its destinations available at its continuation `cont`.
pub open spec fn pending_step(
    pending: Set<Seq<char>>,
    stmt: HirInstr,
    cont: Option<usize>,
    b: usize,
) -> Set<Seq<char>> {
    match stmt {
        HirInstr::Tail(t) => pending_tail(pending, *t, cont, b),
        HirInstr::Stmt(_) => pending,
    }
}

/// The definitions that become available at block `b` after a terminator (see
/// `pending_step`).
pub open spec fn pending_tail(pending: Set<Seq<char>>, t: Terminator, cont: Option<usize>, b: usize) -> Set<
    Seq<char>,
> {
    match t {
        Terminator::Select { dests, .. } => if cont == Some(b) {
            pending.union(names_of(dest_names(dests@)))
        } else {
            pending
        },
        _ => pending,
    }
}

/// The definitions available after the statements `stmts` of a block, given
/// `avail` before them and `pending`, those that become available at the
/// block: the statements are taken from the first to the last.
pub open spec fn avail_stmts(avail: Set<Seq<char>>, pending: Set<Seq<char>>, stmts: Seq<HirBody>) -> Set<
    Seq<char>,
>
    decreases stmts.len(),
{
    if stmts.len() == 0 {
        avail
    } else {
        avail_stmts(avail, pending, stmts.drop_last()).union(pending).union(def_set(body_defs(stmts.last())))
    }
}

/// Adds to `dst` every name of `src` that `other` does not hold.
fn insert_missing(dst: &mut Vec<String>, src: &Vec<String>, other: &Vec<String>)
    requires
        sorted_names(old(dst)@),
    ensures
        sorted_names(final(dst)@),
        names_of(final(dst)@) == names_of(old(dst)@).union(names_of(src@).difference(names_of(other@))),
{
    let ghost start = dst@;
    let mut i: usize = 0;
    assert(names_of(start).union(names_of(src@.subrange(0, 0)).difference(names_of(other@))) =~= names_of(start));
    while i < src.len()
        invariant
            i <= src@.len(),
            sorted_names(dst@),
            names_of(dst@) == names_of(start).union(names_of(src@.subrange(0, i as int)).difference(names_of(other@))),
        decreases src@.len() - i,
    {
        proof {
            lemma_names_prefix(src@, i as int);
        }
        if !contains_name(other, &src[i]) {
            insert_name(dst, src[i].clone());
        }
        assert(names_of(dst@) =~= names_of(start).union(names_of(src@.subrange(0, i + 1)).difference(names_of(other@))));
        i += 1;
    }
    assert(src@.subrange(0, src@.len() as int) =~= src@);
}

/// Kills every member of `avail` that is a reference.
fn kill_refs(kill: &mut Vec<String>, avail: &Vec<String>, refs: &Vec<String>)
    requires
        sorted_names(old(kill)@),
    ensures
        sorted_names(final(kill)@),
        names_of(final(kill)@) == names_of(old(kill)@).union(ref_vars(names_of(avail@), names_of(refs@))),
{
    let ghost start = kill@;
    let mut i: usize = 0;
    assert(names_of(start).union(ref_vars(names_of(avail@.subrange(0, 0)), names_of(refs@))) =~= names_of(start));
    while i < avail.len()
        invariant
            i <= avail@.len(),
            sorted_names(kill@),
            names_of(kill@) == names_of(start).union(ref_vars(names_of(avail@.subrange(0, i as int)), names_of(refs@))),
        decreases avail@.len() - i,
    {
        proof {
            lemma_names_prefix(avail@, i as int);
        }
        if contains_name(refs, &avail[i]) {
            insert_name(kill, avail[i].clone());
        }
        assert(names_of(kill@) =~= names_of(start).union(ref_vars(names_of(avail@.subrange(0, i + 1)), names_of(refs@))));
        i += 1;
    }
    assert(avail@.subrange(0, avail@.len() as int) =~= avail@);
}

/// Kills the arguments of a call that are consumed: every filled argument that
/// is not a mutable variable, and everything available when one is a hole.
fn kill_args(kill: &mut Vec<String>, avail: &Vec<String>, args: &Vec<Option<String>>, variables: &Vec<String>)
    requires
        sorted_names(old(kill)@),
    ensures
        sorted_names(final(kill)@),
        names_of(final(kill)@) == names_of(old(kill)@).union(
            if has_hole_arg(args@) {
                names_of(avail@)
            } else {
                Set::empty()
            },
        ).union(filled_args(args@).difference(names_of(variables@))),
{
    let ghost start = kill@;
    let mut i: usize = 0;
    assert(names_of(start).union(Set::empty()).union(filled_args(args@.subrange(0, 0)).difference(names_of(variables@))) =~= names_of(start));
    while i < args.len()
        invariant
            i <= args@.len(),
            sorted_names(kill@),
            names_of(kill@) == names_of(start).union(
                if has_hole_arg(args@.subrange(0, i as int)) {
                    names_of(avail@)
                } else {
                    Set::empty()
                },
            ).union(filled_args(args@.subrange(0, i as int)).difference(names_of(variables@))),
        decreases args@.len() - i,
    {
        let ghost lo = args@.subrange(0, i as int);
        let ghost hi = args@.subrange(0, i + 1);
        proof {
            assert(has_hole_arg(hi) <==> (has_hole_arg(lo) || args@[i as int] is None)) by {
                if has_hole_arg(hi) {
                    let k = choose|k: int| 0 <= k < hi.len() && #[trigger] hi[k] is None;
                    if k < i {
                        assert(lo[k] is None);
                    }
                }
                if has_hole_arg(lo) {
                    let k = choose|k: int| 0 <= k < lo.len() && #[trigger] lo[k] is None;
                    assert(hi[k] is None);
                }
                assert(hi[i as int] == args@[i as int]);
            }
            assert forall|s: Seq<char>| filled_args(hi).contains(s) <==> (filled_args(lo).contains(s)
                || (args@[i as int] is Some && args@[i as int]->0@ == s)) by {
                if filled_args(hi).contains(s) {
                    let k = choose|k: int| 0 <= k < hi.len() && #[trigger] hi[k] is Some && hi[k]->0@ == s;
                    if k < i {
                        assert(lo[k] is Some);
                    }
                }
                if filled_args(lo).contains(s) {
                    let k = choose|k: int| 0 <= k < lo.len() && #[trigger] lo[k] is Some && lo[k]->0@ == s;
                    assert(hi[k] is Some);
                }
                if args@[i as int] is Some && args@[i as int]->0@ == s {
                    assert(hi[i as int] is Some);
                }
            }
        }
        match &args[i] {
            Some(a) => {
                if !contains_name(variables, a) {
                    insert_name(kill, a.clone());
                }
            },
            None => {
                insert_names(kill, avail);
            },
        }
        assert(names_of(kill@) =~= names_of(start).union(
            if has_hole_arg(hi) {
                names_of(avail@)
            } else {
                Set::empty()
            },
        ).union(filled_args(hi).difference(names_of(variables@))));
        i += 1;
    }
    assert(args@.subrange(0, args@.len() as int) =~= args@);
}

/// The definitions available before the terminator of `blk`, from the fact
/// `i` on entry to the block.
pub open spec fn rd_avail_tail(i: ReachingDefs, blk: BasicBlock) -> Set<Seq<char>> {
    avail_stmts(i.available(), i.pending(blk.id), blk.stmts@).union(i.pending(blk.id))
}

/// The definitions available on exit from `blk`, from the fact `i` on entry.
pub open spec fn rd_avail_out(i: ReachingDefs, blk: BasicBlock) -> Set<Seq<char>> {
    rd_avail_tail(i, blk).union(def_set(tail_defs(blk.terminator)))
}

/// The definitions killed on exit from `blk`, from the fact `i` on entry.
pub open spec fn rd_kill_out(i: ReachingDefs, blk: BasicBlock) -> Set<Seq<char>> {
    kill_tail(i.killed(), rd_avail_tail(i, blk), i.references(), i.variables(), blk.terminator)
}

/// The definitions that become available at block `b`, on exit from `blk`,
/// from the fact `i` on entry.
pub open spec fn rd_pending_out(i: ReachingDefs, blk: BasicBlock, b: usize) -> Set<Seq<char>> {
    pending_tail(i.pending(b), blk.terminator, blk.ret_block, b)
}

/// The names held by any of the lists of `entries`.
pub open spec fn entry_names(entries: Seq<(usize, Vec<String>)>) -> Set<Seq<char>> {
    Set::new(|s: Seq<char>| exists|k: int| 0 <= k < entries.len() && #[trigger] names_of(entries[k].1@).contains(s))
}

/// Computes reaching definitions: the definitions that are available, and
/// those that were killed (consumed, or not available on every path).
pub struct ReachingDefs {
    available_set: Vec<String>,
    kill_set: Vec<String>,
    /// The variables declared with a reference type.
    references: Vec<String>,
    variables: Vec<String>,
    /// The definitions that become available at each block id.
    becomes_available: Vec<(usize, Vec<String>)>,
}

impl ReachingDefs {
    /// No name is listed twice in any of the sets.
    pub closed spec fn wf(&self) -> bool {
        &&& sorted_names(self.available_set@)
        &&& sorted_names(self.kill_set@)
    }

    /// The available definitions.
    pub closed spec fn available(&self) -> Set<Seq<char>> {
        names_of(self.available_set@)
    }

    /// The killed definitions.
    pub closed spec fn killed(&self) -> Set<Seq<char>> {
        names_of(self.kill_set@)
    }

    /// The definitions that become available at block `b`.
    pub closed spec fn pending(&self, b: usize) -> Set<Seq<char>> {
        pending_names(self.becomes_available@, b)
    }

    /// The variables declared with a reference type.
    pub closed spec fn references(&self) -> Set<Seq<char>> {
        names_of(self.references@)
    }

    /// The names of the mutable variables.
    pub closed spec fn variables(&self) -> Set<Seq<char>> {
        names_of(self.variables@)
    }

    /// The fact at the entry of the function: the inputs are available.
    /// `dt` gives the declared data type of each variable and `variables` the
    /// mutable variables.
    pub fn top(inputs: &Vec<String>, dt: &Vec<(String, DataType)>, variables: &Vec<String>) -> (res: Self)
        ensures
            res.wf(),
            res.available() == names_of(inputs@),
            res.killed() == Set::<Seq<char>>::empty(),
            forall|b: usize| #[trigger] res.pending(b) == Set::<Seq<char>>::empty(),
            forall|s: Seq<char>| #[trigger] res.references().contains(s) == is_ref_var(dt@, s),
            res.variables() == names_of(variables@),
    {
        let mut avail: Vec<String> = Vec::new();
        insert_names(&mut avail, inputs);
        let mut vars: Vec<String> = Vec::new();
        insert_names(&mut vars, variables);
        let mut refs: Vec<String> = Vec::new();
        let mut i: usize = 0;
        assert(names_of(Seq::<String>::empty()) =~= Set::<Seq<char>>::empty());
        while i < dt.len()
            invariant
                i <= dt@.len(),
                sorted_names(refs@),
                forall|s: Seq<char>| #[trigger] names_of(refs@).contains(s) == exists|j: int|
                    0 <= j < i && #[trigger] dt@[j].0@ == s && dt@[j].1 is Ref,
            decreases dt@.len() - i,
        {
            let ghost before = refs@;
            let is_ref_type = match &dt[i].1 {
                DataType::Ref(_) => true,
                _ => false,
            };
            if is_ref_type {
                insert_name(&mut refs, dt[i].0.clone());
            }
            assert forall|s: Seq<char>| #[trigger] names_of(refs@).contains(s) == exists|j: int|
                0 <= j < i + 1 && #[trigger] dt@[j].0@ == s && dt@[j].1 is Ref by {
                if exists|j: int| 0 <= j < i + 1 && #[trigger] dt@[j].0@ == s && dt@[j].1 is Ref {
                    let j = choose|j: int| 0 <= j < i + 1 && #[trigger] dt@[j].0@ == s && dt@[j].1 is Ref;
                    if j < i {
                        assert(names_of(before).contains(s));
                    }
                }
                if names_of(before).contains(s) {
                    let j = choose|j: int| 0 <= j < i && #[trigger] dt@[j].0@ == s && dt@[j].1 is Ref;
                    assert(dt@[j].0@ == s && dt@[j].1 is Ref);
                }
                if is_ref_type && s == dt@[i as int].0@ {
                    assert(dt@[i as int].0@ == s && dt@[i as int].1 is Ref);
                }
            }
            i += 1;
        }
        let res = ReachingDefs {
            available_set: avail,
            kill_set: Vec::new(),
            references: refs,
            variables: vars,
            becomes_available: Vec::new(),
        };
        assert(names_of(res.kill_set@) =~= Set::<Seq<char>>::empty());
        assert forall|b: usize| #[trigger] res.pending(b) == Set::<Seq<char>>::empty() by {
            assert(res.pending(b) =~= Set::<Seq<char>>::empty());
        }
        res
    }

    /// A copy of this fact.
    pub fn copy(&self) -> (res: ReachingDefs)
        requires
            self.wf(),
        ensures
            res.wf(),
            res.available() == self.available(),
            res.killed() == self.killed(),
            forall|b: usize| #[trigger] res.pending(b) == self.pending(b),
            res.references() == self.references(),
            res.variables() == self.variables(),
    {
        let mut avail: Vec<String> = Vec::new();
        insert_names(&mut avail, &self.available_set);
        let mut kill: Vec<String> = Vec::new();
        insert_names(&mut kill, &self.kill_set);
        let mut refs: Vec<String> = Vec::new();
        insert_names(&mut refs, &self.references);
        let mut vars: Vec<String> = Vec::new();
        insert_names(&mut vars, &self.variables);
        assert(names_of(Seq::<String>::empty()) =~= Set::<Seq<char>>::empty());
        let mut entries: Vec<(usize, Vec<String>)> = Vec::new();
        let mut i: usize = 0;
        while i < self.becomes_available.len()
            invariant
                i <= self.becomes_available@.len(),
                entries@.len() == i,
                forall|j: int| 0 <= j < i ==> (#[trigger] entries@[j]).0 == self.becomes_available@[j].0
                    && names_of(entries@[j].1@) == names_of(self.becomes_available@[j].1@),
            decreases self.becomes_available@.len() - i,
        {
            let mut l: Vec<String> = Vec::new();
            insert_names(&mut l, &self.becomes_available[i].1);
            assert(names_of(Seq::<String>::empty()) =~= Set::<Seq<char>>::empty());
            entries.push((self.becomes_available[i].0, l));
            i += 1;
        }
        let res = ReachingDefs {
            available_set: avail,
            kill_set: kill,
            references: refs,
            variables: vars,
            becomes_available: entries,
        };
        assert(res.available() =~= self.available());
        assert(res.killed() =~= self.killed());
        assert(res.references() =~= self.references());
        assert(res.variables() =~= self.variables());
        assert forall|b: usize| #[trigger] res.pending(b) == self.pending(b) by {
            assert forall|s: Seq<char>| res.pending(b).contains(s) <==> self.pending(b).contains(s) by {
                if res.pending(b).contains(s) {
                    let k = choose|k: int| 0 <= k < res.becomes_available@.len() && #[trigger] res.becomes_available@[k].0 == b
                        && names_of(res.becomes_available@[k].1@).contains(s);
                    assert(self.becomes_available@[k].0 == b);
                }
                if self.pending(b).contains(s) {
                    let k = choose|k: int| 0 <= k < self.becomes_available@.len() && #[trigger] self.becomes_available@[k].0 == b
                        && names_of(self.becomes_available@[k].1@).contains(s);
                    assert(res.becomes_available@[k].0 == b);
                }
            }
            assert(res.pending(b) =~= self.pending(b));
        }
        res
    }

    /// Whether both facts have the same available and the same killed definitions.
    pub(crate) fn same_sets(&self, other: &Self) -> (res: bool)
        ensures
            res == (self.available() == other.available() && self.killed() == other.killed()),
    {
        crate::analysis::same_names(&self.available_set, &other.available_set)
            && crate::analysis::same_names(&self.kill_set, &other.kill_set)
    }

    /// Every name this fact mentions: available, killed, or pending at some block.
    pub closed spec fn all_names(&self) -> Set<Seq<char>> {
        self.available().union(self.killed()).union(entry_names(self.becomes_available@))
    }

    /// The available and killed definitions are among the names of the fact.
    pub proof fn lemma_all_names(&self)
        ensures
            self.available().subset_of(self.all_names()),
            self.killed().subset_of(self.all_names()),
    {
    }

    /// The pending definitions of every block are among the names of the fact.
    pub proof fn lemma_pending_in_names(&self, b: usize)
        ensures
            self.pending(b).subset_of(self.all_names()),
    {
        assert forall|s: Seq<char>| self.pending(b).contains(s) implies self.all_names().contains(s) by {
            let k = choose|k: int| 0 <= k < self.becomes_available@.len() && #[trigger] self.becomes_available@[k].0 == b
                && names_of(self.becomes_available@[k].1@).contains(s);
            assert(names_of(self.becomes_available@[k].1@).contains(s));
            assert(entry_names(self.becomes_available@).contains(s));
        }
    }

    /// Adds every name this fact mentions to `out`.
    pub(crate) fn collect_names(&self, out: &mut Vec<String>)
        requires
            sorted_names(old(out)@),
        ensures
            sorted_names(final(out)@),
            names_of(final(out)@) == names_of(old(out)@).union(self.all_names()),
    {
        let ghost start = out@;
        insert_names(out, &self.available_set);
        insert_names(out, &self.kill_set);
        let ghost mid = out@;
        let mut i: usize = 0;
        assert(entry_names(self.becomes_available@.subrange(0, 0)) =~= Set::<Seq<char>>::empty());
        assert(names_of(mid).union(Set::<Seq<char>>::empty()) =~= names_of(mid));
        while i < self.becomes_available.len()
            invariant
                i <= self.becomes_available@.len(),
                sorted_names(out@),
                names_of(out@) == names_of(mid).union(entry_names(self.becomes_available@.subrange(0, i as int))),
            decreases self.becomes_available@.len() - i,
        {
            insert_names(out, &self.becomes_available[i].1);
            proof {
                let lo = self.becomes_available@.subrange(0, i as int);
                let hi = self.becomes_available@.subrange(0, i + 1);
                assert forall|s: Seq<char>| entry_names(hi).contains(s) <==> (entry_names(lo).contains(s)
                    || names_of(self.becomes_available@[i as int].1@).contains(s)) by {
                    if entry_names(hi).contains(s) {
                        let k = choose|k: int| 0 <= k < hi.len() && #[trigger] names_of(hi[k].1@).contains(s);
                        if k < i {
                            assert(names_of(lo[k].1@).contains(s));
                        }
                    }
                    if entry_names(lo).contains(s) {
                        let k = choose|k: int| 0 <= k < lo.len() && #[trigger] names_of(lo[k].1@).contains(s);
                        assert(names_of(hi[k].1@).contains(s));
                    }
                    if names_of(self.becomes_available@[i as int].1@).contains(s) {
                        assert(names_of(hi[i as int].1@).contains(s));
                    }
                }
                assert(names_of(out@) =~= names_of(mid).union(entry_names(hi)));
            }
            i += 1;
        }
        assert(self.becomes_available@.subrange(0, self.becomes_available@.len() as int) =~= self.becomes_available@);
        assert(names_of(out@) =~= names_of(start).union(self.all_names()));
    }

    /// The definitions that reach this point: available and not killed.
    pub fn reaching_defs(&self) -> (res: Vec<String>)
        requires
            self.wf(),
        ensures
            sorted_names(res@),
            names_of(res@) == self.available().difference(self.killed()),
    {
        let mut res: Vec<String> = Vec::new();
        let mut i: usize = 0;
        while i < self.available_set.len()
            invariant
                i <= self.available_set@.len(),
                sorted_names(res@),
                names_of(res@) == names_of(self.available_set@.subrange(0, i as int)).difference(
                    names_of(self.kill_set@),
                ),
            decreases self.available_set@.len() - i,
        {
            proof {
                lemma_names_prefix(self.available_set@, i as int);
            }
            if !contains_name(&self.kill_set, &self.available_set[i]) {
                insert_name(&mut res, self.available_set[i].clone());
            }
            assert(names_of(res@) =~= names_of(self.available_set@.subrange(0, i + 1)).difference(
                names_of(self.kill_set@),
            ));
            i += 1;
        }
        assert(self.available_set@.subrange(0, self.available_set@.len() as int) =~= self.available_set@);
        res
    }

    /// The names of the definitions that become available at block `b`.
    fn pending_list(&self, b: usize) -> (res: Vec<String>)
        requires
            self.wf(),
        ensures
            sorted_names(res@),
            names_of(res@) == self.pending(b),
    {
        let mut res: Vec<String> = Vec::new();
        let mut i: usize = 0;
        while i < self.becomes_available.len()
            invariant
                i <= self.becomes_available@.len(),
                sorted_names(res@),
                names_of(res@) == pending_names(self.becomes_available@.subrange(0, i as int), b),
            decreases self.becomes_available@.len() - i,
        {
            let ghost lo = self.becomes_available@.subrange(0, i as int);
            let ghost hi = self.becomes_available@.subrange(0, i + 1);
            if self.becomes_available[i].0 == b {
                insert_names(&mut res, &self.becomes_available[i].1);
                proof {
                    assert forall|s: Seq<char>| pending_names(hi, b).contains(s) <==> (pending_names(lo, b).contains(s)
                        || names_of(self.becomes_available@[i as int].1@).contains(s)) by {
                        if pending_names(hi, b).contains(s) {
                            let k = choose|k: int| 0 <= k < hi.len() && #[trigger] hi[k].0 == b && names_of(hi[k].1@).contains(s);
                            if k < i {
                                assert(lo[k].0 == b);
                            }
                        }
                        if pending_names(lo, b).contains(s) {
                            let k = choose|k: int| 0 <= k < lo.len() && #[trigger] lo[k].0 == b && names_of(lo[k].1@).contains(s);
                            assert(hi[k].0 == b);
                        }
                        if names_of(self.becomes_available@[i as int].1@).contains(s) {
                            assert(hi[i as int].0 == b);
                        }
                    }
                    assert(names_of(res@) =~= pending_names(hi, b));
                }
            } else {
                proof {
                    assert forall|s: Seq<char>| pending_names(hi, b).contains(s) <==> pending_names(lo, b).contains(s) by {
                        if pending_names(hi, b).contains(s) {
                            let k = choose|k: int| 0 <= k < hi.len() && #[trigger] hi[k].0 == b && names_of(hi[k].1@).contains(s);
                            assert(lo[k].0 == b);
                        }
                        if pending_names(lo, b).contains(s) {
                            let k = choose|k: int| 0 <= k < lo.len() && #[trigger] lo[k].0 == b && names_of(lo[k].1@).contains(s);
                            assert(hi[k].0 == b);
                        }
                    }
                    assert(names_of(res@) =~= pending_names(hi, b));
                }
            }
            i += 1;
        }
        assert(self.becomes_available@.subrange(0, self.becomes_available@.len() as int) =~= self.becomes_available@);
        res
    }

    /// Joins the facts of two predecessors: a definition available on only one
    /// path is killed.
    pub fn meet(self, other: &Self) -> (res: Self)
        requires
            self.wf(),
            other.wf(),
        ensures
            res.wf(),
            res.available() == self.available().union(other.available()),
            res.killed() == self.killed().union(other.killed()).union(
                self.available().difference(other.available()),
            ).union(other.available().difference(self.available())),
            forall|b: usize| #[trigger] res.pending(b) == self.pending(b),
            res.references() == self.references(),
            res.variables() == self.variables(),
            res.available().difference(res.killed()) == self.available().difference(self.killed()).intersect(
                other.available().difference(other.killed()),
            ),
    {
        let mut res = self;
        insert_names(&mut res.kill_set, &other.kill_set);
        insert_missing(&mut res.kill_set, &res.available_set, &other.available_set);
        insert_missing(&mut res.kill_set, &other.available_set, &res.available_set);
        insert_names(&mut res.available_set, &other.available_set);
        assert(res.available().difference(res.killed()) =~= self.available().difference(self.killed()).intersect(
            other.available().difference(other.killed()),
        ));
        res
    }

    /// Records that `dests` become available at block `b`.
    fn add_pending(&mut self, b: usize, dests: &Vec<String>)
        ensures
            forall|c: usize| #[trigger] final(self).pending(c) == if c == b {
                old(self).pending(c).union(names_of(dests@))
            } else {
                old(self).pending(c)
            },
            final(self).available_set@ == old(self).available_set@,
            final(self).kill_set@ == old(self).kill_set@,
            final(self).references@ == old(self).references@,
            final(self).variables@ == old(self).variables@,
    {
        let mut l: Vec<String> = Vec::new();
        insert_names(&mut l, dests);
        let ghost old_entries = self.becomes_available@;
        self.becomes_available.push((b, l));
        proof {
            let e = self.becomes_available@;
            assert forall|c: usize| #[trigger] pending_names(e, c) == if c == b {
                pending_names(old_entries, c).union(names_of(dests@))
            } else {
                pending_names(old_entries, c)
            } by {
                assert forall|s: Seq<char>| pending_names(e, c).contains(s) <==> (pending_names(old_entries, c).contains(s)
                    || (c == b && names_of(dests@).contains(s))) by {
                    if pending_names(e, c).contains(s) {
                        let k = choose|k: int| 0 <= k < e.len() && #[trigger] e[k].0 == c && names_of(e[k].1@).contains(s);
                        if k < old_entries.len() {
                            assert(old_entries[k].0 == c);
                        } else {
                            assert(names_of(l@).contains(s));
                        }
                    }
                    if pending_names(old_entries, c).contains(s) {
                        let k = choose|k: int| 0 <= k < old_entries.len() && #[trigger] old_entries[k].0 == c
                            && names_of(old_entries[k].1@).contains(s);
                        assert(e[k].0 == c);
                    }
                    if c == b && names_of(dests@).contains(s) {
                        assert(e[old_entries.len() as int].0 == c);
                    }
                }
                if c == b {
                    assert(pending_names(e, c) =~= pending_names(old_entries, c).union(names_of(dests@)));
                } else {
                    assert(pending_names(e, c) =~= pending_names(old_entries, c));
                }
            }
        }
    }

    /// Moves the fact forwards over one instruction of block `block_id`, whose
    /// continuation (for a select) is `cont_id`.
    pub fn transfer_instr(&mut self, stmt: HirInstr, block_id: usize, cont_id: Option<usize>)
        requires
            old(self).wf(),
            !(stmt matches HirInstr::Tail(t) && *t is CaptureCall),
            (stmt matches HirInstr::Tail(t) && *t is Select) ==> cont_id is Some,
        ensures
            final(self).wf(),
            final(self).available() == avail_step(
                old(self).available().union(old(self).pending(block_id)),
                stmt,
            ),
            final(self).killed() == kill_step(
                old(self).killed(),
                old(self).available().union(old(self).pending(block_id)),
                old(self).references(),
                old(self).variables(),
                stmt,
            ),
            forall|b: usize| #[trigger] final(self).pending(b) == pending_step(old(self).pending(b), stmt, cont_id, b),
            final(self).references() == old(self).references(),
            final(self).variables() == old(self).variables(),
    {
        let newly = self.pending_list(block_id);
        insert_names(&mut self.available_set, &newly);
        let ghost a0 = self.available();
        let ghost k0 = self.killed();
        match stmt {
            HirInstr::Stmt(b) => {
                if let Some(d) = b.get_defs() {
                    proof {
                        lemma_names_views(d@);
                    }
                    insert_names(&mut self.available_set, &d);
                } else {
                    assert(a0.union(Set::empty()) =~= a0);
                }
            },
            HirInstr::Tail(t) => {
                match t {
                    Terminator::Call(dests, call) => {
                        kill_refs(&mut self.kill_set, &self.available_set, &self.references);
                        kill_args(&mut self.kill_set, &self.available_set, &call.args, &self.variables);
                        let dn = dest_list(dests);
                        proof {
                            lemma_names_views(dn@);
                        }
                        insert_names(&mut self.available_set, &dn);
                    },
                    Terminator::Return { dests, rets } => {
                        let dn = dest_list(dests);
                        proof {
                            lemma_names_views(dn@);
                        }
                        insert_names(&mut self.available_set, &dn);
                        insert_names(&mut self.kill_set, rets);
                    },
                    Terminator::Select { dests, .. } => {
                        let c = cont_id.unwrap();
                        self.add_pending(c, &dest_list(dests));
                        assert(a0.union(Set::empty()) =~= a0);
                    },
                    _ => {
                        assert(a0.union(Set::empty()) =~= a0);
                    },
                }
            },
        }
    }

    /// The fact on exit from `block` given this fact on its entry: the
    /// statements from the first to the last, then the terminator.
    pub fn analyze_basic_block(self, block: &BasicBlock) -> (res: ReachingDefs)
        requires
            self.wf(),
            !(block.terminator is CaptureCall),
            block.terminator is Select ==> block.ret_block is Some,
        ensures
            res.wf(),
            res.available() == rd_avail_out(self, *block),
            res.killed() == rd_kill_out(self, *block),
            forall|b: usize| #[trigger] res.pending(b) == rd_pending_out(self, *block, b),
            res.references() == self.references(),
            res.variables() == self.variables(),
    {
        let mut fact = self;
        let cont_id = block.ret_block;
        let mut i: usize = 0;
        assert(block.stmts@.subrange(0, 0) =~= Seq::<HirBody>::empty());
        while i < block.stmts.len()
            invariant
                i <= block.stmts@.len(),
                fact.wf(),
                fact.available() == avail_stmts(self.available(), self.pending(block.id), block.stmts@.subrange(0, i as int)),
                fact.killed() == self.killed(),
                forall|b: usize| #[trigger] fact.pending(b) == self.pending(b),
                fact.references() == self.references(),
                fact.variables() == self.variables(),
                cont_id == block.ret_block,
            decreases block.stmts@.len() - i,
        {
            proof {
                let pre = block.stmts@.subrange(0, i + 1);
                assert(pre.drop_last() =~= block.stmts@.subrange(0, i as int));
                assert(pre.last() == block.stmts@[i as int]);
            }
            fact.transfer_instr(HirInstr::Stmt(&block.stmts[i]), block.id, cont_id);
            i += 1;
        }
        assert(block.stmts@.subrange(0, block.stmts@.len() as int) =~= block.stmts@);
        fact.transfer_instr(HirInstr::Tail(&block.terminator), block.id, cont_id);
        fact
    }
}

/// The names of `src` that `other` also holds.
fn common_names(src: &Vec<String>, other: &Vec<String>) -> (res: Vec<String>)
    ensures
        sorted_names(res@),
        names_of(res@) == names_of(src@).intersect(names_of(other@)),
{
    let mut res: Vec<String> = Vec::new();
    let mut i: usize = 0;
    assert(names_of(src@.subrange(0, 0)) =~= Set::<Seq<char>>::empty());
    assert(names_of(res@) =~= names_of(src@.subrange(0, 0)).intersect(names_of(other@)));
    while i < src.len()
        invariant
            i <= src@.len(),
            sorted_names(res@),
            names_of(res@) == names_of(src@.subrange(0, i as int)).intersect(names_of(other@)),
        decreases src@.len() - i,
    {
        proof {
            lemma_names_prefix(src@, i as int);
        }
        if contains_name(other, &src[i]) {
            insert_name(&mut res, src[i].clone());
        }
        assert(names_of(res@) =~= names_of(src@.subrange(0, i + 1)).intersect(names_of(other@)));
        i += 1;
    }
    assert(src@.subrange(0, src@.len() as int) =~= src@);
    res
}

/// The fences that are active (submitted and not yet synchronized) at a
/// program point.
pub struct ActiveFences {
    pub active_fences: Vec<String>,
}

impl View for ActiveFences {
    type V = Set<Seq<char>>;

    open spec fn view(&self) -> Set<Seq<char>> {
        names_of(self.active_fences@)
    }
}

impl ActiveFences {
    /// No fence is listed twice.
    pub open spec fn wf(&self) -> bool {
        sorted_names(self.active_fences@)
    }

    /// The fact at the entry of the function: the given fences are active.
    pub fn top(fences: &Vec<String>) -> (res: Self)
        ensures
            res.wf(),
            res@ == names_of(fences@),
    {
        let mut v: Vec<String> = Vec::new();
        insert_names(&mut v, fences);
        assert(names_of(Seq::<String>::empty()) =~= Set::<Seq<char>>::empty());
        assert(names_of(v@) =~= names_of(fences@));
        ActiveFences { active_fences: v }
    }

    /// A fence is active at a join point only if it is active on both paths.
    pub fn meet(self, other: &Self) -> (res: Self)
        ensures
            res.wf(),
            res@ == self@.intersect(other@),
    {
        ActiveFences { active_fences: common_names(&self.active_fences, &other.active_fences) }
    }

    /// Moves the fact forwards over one instruction. No instruction of this IR
    /// submits or synchronizes a fence, so the fact is unchanged.
    pub fn transfer_instr(&mut self, stmt: HirInstr, block_id: usize, cont_id: Option<usize>)
        ensures
            final(self)@ == old(self)@,
            final(self).wf() == old(self).wf(),
    {
    }
}

/// The direction of a backwards analysis: from the final block, against the edges.
pub struct Backwards {}

impl Backwards {
    /// The blocks an analysis in this direction passes a block's fact to: its
    /// predecessors.
    pub fn get_adj_list(cfg: &FlowGraph) -> (res: BlockGraph)
        requires
            cfg.wf(),
        ensures
            res.wf(),
            res.adj@.len() == cfg.edges@.len(),
            forall|t: int, p: usize|
                0 <= t < cfg.edges@.len() ==> (#[trigger] res.adj@[t]@.contains(p) <==> (cfg.has_block(p as int)
                    && edge_targets(cfg.edges@[p as int]->0).contains(t as usize))),
    {
        cfg.transpose()
    }

    /// Where a backwards analysis starts: the final block.
    pub fn root_id() -> (res: usize)
        ensures
            res == FINAL_BLOCK_ID,
    {
        FINAL_BLOCK_ID
    }
}

/// The direction of a forwards analysis: from the start block, along the edges.
pub struct Forwards {}

impl Forwards {
    /// The blocks an analysis in this direction passes a block's fact to: its
    /// successors, in the order of its edge.
    pub fn get_adj_list(cfg: &FlowGraph) -> (res: BlockGraph)
        requires
            cfg.wf(),
        ensures
            res.wf(),
            res.adj@.len() == cfg.edges@.len(),
            forall|b: int|
                0 <= b < cfg.edges@.len() ==> #[trigger] res.adj@[b]@ == (match cfg.edges@[b] {
                    Some(e) => edge_targets(e),
                    None => seq![],
                }),
    {
        cfg.successors()
    }

    /// Where a forwards analysis starts: the start block.
    pub fn root_id() -> (res: usize)
        ensures
            res == START_BLOCK_ID,
    {
        START_BLOCK_ID
    }
}

} // verus!
