//! The high-level IR of a scheduling function's basic blocks: flattened
//! statements and block terminators, with the variables each one defines and
//! uses.
use vstd::prelude::*;

use crate::ast::{DataType, Name, SchedTerm};
use crate::error::Info;
use crate::lower::HirOp;
use crate::name_set::{sorted_names, insert_name, insert_names, names_of};
use crate::tags::TripleTag;
use crate::text::{decimal, text_of, usize_to_text};

verus! {

/// A statement of a basic block.
#[derive(Debug)]
pub enum HirBody {
    /// A data movement into a mutable variable
    RefStore { info: Info, lhs_tags: TripleTag, lhs: Name, rhs: SchedTerm },
    /// Load from a reference into a new variable
    RefLoad { dest: Name, typ: DataType, src: Name },
    /// Declaration of an immutable variable
    ConstDecl { info: Info, lhs: Name, lhs_tag: TripleTag, rhs: SchedTerm },
    /// Declaration of a mutable variable (reference)
    VarDecl { info: Info, lhs: Name, lhs_tag: TripleTag, rhs: Option<SchedTerm> },
    Hole(Info),
    /// Built-in operation (performs a const decl)
    Op { info: Info, dest: Name, dest_tag: TripleTag, op: HirOp, args: Vec<SchedTerm> },
    /// The tags of variables annotated on entry to the block
    InAnnotation(Info, Vec<(Name, TripleTag)>),
    /// The tags of variables annotated on exit from the block
    OutAnnotation(Info, Vec<(Name, TripleTag)>),
    /// A merge of the incoming definitions of `original`: each input is the id of
    /// an incoming block and the name the variable has there
    Phi { dest: Name, inputs: Vec<(usize, Name)>, original: Name },
}

/// An internal function call. An argument is `None` where it is a hole (`?`).
#[derive(Debug)]
pub struct HirFuncCall {
    pub target: Name,
    pub args: Vec<Option<Name>>,
    pub tag: TripleTag,
}

/// A terminator of a basic block.
#[derive(Debug)]
pub enum Terminator {
    /// A call whose results are stored in the (new) destination variables.
    Call(Vec<(Name, TripleTag)>, HirFuncCall),
    /// A call that also captures the listed variables.
    CaptureCall { dests: Vec<(Name, TripleTag)>, call: HirFuncCall, captures: Vec<Name> },
    /// A branch on `guard`; `dests` are defined by the two arms.
    Select { dests: Vec<(Name, TripleTag)>, guard: Name, tag: TripleTag },
    /// A return to the parent scope, assigning `rets` to `dests`.
    Return { dests: Vec<(Name, TripleTag)>, rets: Vec<Name> },
    /// The return of the final block of the function, of this many values
    /// (`_out0` to `_out{n-1}`).
    FinalReturn(usize),
    /// Continue to the next block; its outputs are not known yet.
    Pending,
    /// Continue to the next block with these outputs.
    Next(Vec<Name>),
}

/// An instruction of a basic block: a statement or its terminator.
#[derive(Debug)]
pub enum HirInstr<'a> {
    Stmt(&'a HirBody),
    Tail(&'a Terminator),
}

/// A basic block: straight-line statements ended by a terminator.
#[derive(Debug)]
pub struct BasicBlock {
    pub id: usize,
    /// The statements; none of them is a tail edge.
    pub stmts: Vec<HirBody>,
    pub terminator: Terminator,
    /// The next block at the same level as this block (its continuation), if any.
    pub ret_block: Option<usize>,
    /// The source location of the block.
    pub src_loc: Info,
}

/// The names of a list of destinations with their tags.
pub open spec fn dest_names(d: Seq<(String, TripleTag)>) -> Seq<String> {
    d.map_values(|p: (String, TripleTag)| p.0)
}

/// The names of a list of destinations, as a new list.
pub fn dest_list(d: &Vec<(String, TripleTag)>) -> (res: Vec<String>)
    ensures
        res@ == dest_names(d@),
{
    let mut r: Vec<String> = Vec::new();
    let mut i: usize = 0;
    while i < d.len()
        invariant
            i <= d@.len(),
            r@ == dest_names(d@.subrange(0, i as int)),
        decreases d@.len() - i,
    {
        r.push(d[i].0.clone());
        assert(r@ =~= dest_names(d@.subrange(0, i + 1)));
        i += 1;
    }
    assert(d@.subrange(0, d@.len() as int) =~= d@);
    r
}

/// The names of a list of names.
pub open spec fn name_views(v: Seq<String>) -> Seq<Seq<char>> {
    v.map_values(|x: String| x@)
}

/// The variable a term reads, if any.
pub open spec fn term_uses(t: SchedTerm) -> Set<Seq<char>> {
    match t {
        SchedTerm::Var { name, .. } => set![name@],
        _ => Set::empty(),
    }
}

/// The variables a list of terms reads.
pub open spec fn terms_uses(ts: Seq<SchedTerm>) -> Set<Seq<char>> {
    Set::new(|s: Seq<char>| exists|i: int| 0 <= i < ts.len() && #[trigger] term_uses(ts[i]).contains(s))
}

/// The name of the `i`-th return value of a function.
pub open spec fn ret_var(i: nat) -> Seq<char> {
    "_out"@ + decimal(i)
}

/// The names of the first `n` return values of a function.
pub open spec fn ret_vars(n: nat) -> Set<Seq<char>>
    decreases n,
{
    if n == 0 {
        Set::empty()
    } else {
        ret_vars((n - 1) as nat).insert(ret_var((n - 1) as nat))
    }
}

/// The names read by a statement.
pub open spec fn body_uses(b: HirBody) -> Set<Seq<char>> {
    match b {
        HirBody::ConstDecl { rhs, .. } => term_uses(rhs),
        HirBody::VarDecl { rhs, .. } => match rhs {
            Some(r) => term_uses(r),
            None => Set::empty(),
        },
        HirBody::RefStore { lhs, rhs, .. } => term_uses(rhs).insert(lhs@),
        HirBody::RefLoad { src, .. } => set![src@],
        HirBody::Op { args, .. } => terms_uses(args@),
        HirBody::Phi { inputs, .. } => names_of(input_names(inputs@)),
        _ => Set::empty(),
    }
}

/// The incoming names of a phi node.
pub open spec fn input_names(inputs: Seq<(usize, String)>) -> Seq<String> {
    inputs.map_values(|p: (usize, String)| p.1)
}

/// The new variables a statement defines, if it defines any.
pub open spec fn body_defs(b: HirBody) -> Option<Seq<Seq<char>>> {
    match b {
        HirBody::ConstDecl { lhs, .. } => Some(seq![lhs@]),
        HirBody::VarDecl { lhs, .. } => Some(seq![lhs@]),
        HirBody::RefLoad { dest, .. } => Some(seq![dest@]),
        HirBody::Op { dest, .. } => Some(seq![dest@]),
        HirBody::Phi { dest, .. } => Some(seq![dest@]),
        _ => None,
    }
}

/// The terms of a statement contain no call (a call term is not lowered here).
pub open spec fn body_ok(b: HirBody) -> bool {
    match b {
        HirBody::ConstDecl { rhs, .. } => !(rhs is Call),
        HirBody::VarDecl { rhs, .. } => rhs matches Some(r) ==> !(r is Call),
        HirBody::RefStore { rhs, .. } => !(rhs is Call),
        HirBody::Op { args, .. } => forall|i: int| 0 <= i < args@.len() ==> !(#[trigger] args@[i] is Call),
        _ => true,
    }
}

/// The names read by a terminator.
pub open spec fn tail_uses(t: Terminator) -> Set<Seq<char>> {
    match t {
        Terminator::Call(_, call) => filled_args(call.args@),
        Terminator::CaptureCall { call, .. } => filled_args(call.args@),
        Terminator::Select { guard, .. } => set![guard@],
        Terminator::Return { rets, .. } => names_of(rets@),
        Terminator::Next(rets) => names_of(rets@),
        Terminator::FinalReturn(n) => ret_vars(n as nat),
        Terminator::Pending => Set::empty(),
    }
}

/// The names of the filled arguments.
pub open spec fn filled_args(args: Seq<Option<String>>) -> Set<Seq<char>> {
    Set::new(|s: Seq<char>| exists|i: int| 0 <= i < args.len() && #[trigger] args[i] is Some && args[i]->0@ == s)
}

/// The new variables a terminator defines, if it defines any. The destinations of
/// a select are defined by its two arms, not by the select.
pub open spec fn tail_defs(t: Terminator) -> Option<Seq<Seq<char>>> {
    match t {
        Terminator::Call(dests, _) => Some(name_views(dest_names(dests@))),
        Terminator::CaptureCall { dests, .. } => Some(name_views(dest_names(dests@))),
        Terminator::Return { dests, .. } => Some(name_views(dest_names(dests@))),
        _ => None,
    }
}

/// The names read by an instruction.
pub open spec fn instr_uses(i: HirInstr) -> Set<Seq<char>> {
    match i {
        HirInstr::Stmt(b) => body_uses(*b),
        HirInstr::Tail(t) => tail_uses(*t),
    }
}

/// The new variables an instruction defines, if it defines any.
pub open spec fn instr_defs(i: HirInstr) -> Option<Seq<Seq<char>>> {
    match i {
        HirInstr::Stmt(b) => body_defs(*b),
        HirInstr::Tail(t) => tail_defs(*t),
    }
}

/// The instruction holds no call term.
pub open spec fn instr_ok(i: HirInstr) -> bool {
    match i {
        HirInstr::Stmt(b) => body_ok(*b),
        HirInstr::Tail(_) => true,
    }
}

/// Adds the variable a term reads to `res`.
fn term_get_uses(t: &SchedTerm, res: &mut Vec<String>)
    requires
        sorted_names(old(res)@),
        !(*t is Call),
    ensures
        sorted_names(final(res)@),
        names_of(final(res)@) == names_of(old(res)@).union(term_uses(*t)),
{
    match t {
        SchedTerm::Var { name, .. } => {
            insert_name(res, name.clone());
            assert(names_of(old(res)@).insert(name@) =~= names_of(old(res)@).union(set![name@]));
        },
        _ => {
            assert(names_of(res@).union(Set::empty()) =~= names_of(res@));
        },
    }
}

/// The name of the `i`-th return value of a function.
pub fn ret_var_name(i: usize) -> (res: String)
    ensures
        res@ == ret_var(i as nat),
{
    let mut s = text_of("_out");
    let d = usize_to_text(i);
    s.append(d.as_str());
    s
}

impl HirBody {
    /// The new variables this statement defines, if it defines any.
    pub fn get_defs(&self) -> (res: Option<Vec<String>>)
        ensures
            res is Some <==> body_defs(*self) is Some,
            res matches Some(v) ==> name_views(v@) == body_defs(*self)->0,
    {
        let lhs = match self {
            HirBody::ConstDecl { lhs, .. } => lhs,
            HirBody::VarDecl { lhs, .. } => lhs,
            HirBody::RefLoad { dest, .. } => dest,
            HirBody::Op { dest, .. } => dest,
            HirBody::Phi { dest, .. } => dest,
            _ => {
                return None;
            },
        };
        let mut v = Vec::new();
        v.push(lhs.clone());
        assert(name_views(v@) =~= seq![lhs@]);
        Some(v)
    }

    /// Adds the variables this statement reads to `res`.
    pub fn get_uses(&self, res: &mut Vec<String>)
        requires
            sorted_names(old(res)@),
            body_ok(*self),
        ensures
            sorted_names(final(res)@),
            names_of(final(res)@) == names_of(old(res)@).union(body_uses(*self)),
    {
        match self {
            HirBody::ConstDecl { rhs, .. } => term_get_uses(rhs, res),
            HirBody::VarDecl { rhs, .. } => {
                match rhs {
                    Some(r) => term_get_uses(r, res),
                    None => {
                        assert(names_of(res@).union(Set::empty()) =~= names_of(res@));
                    },
                }
            },
            HirBody::RefStore { lhs, rhs, .. } => {
                term_get_uses(rhs, res);
                insert_name(res, lhs.clone());
                assert(names_of(res@) =~= names_of(old(res)@).union(term_uses(*rhs).insert(lhs@)));
            },
            HirBody::RefLoad { src, .. } => {
                insert_name(res, src.clone());
                assert(names_of(res@) =~= names_of(old(res)@).union(set![src@]));
            },
            HirBody::Op { args, .. } => {
                let ghost start = res@;
                let mut i: usize = 0;
                while i < args.len()
                    invariant
                        i <= args@.len(),
                        body_ok(*self),
                        *self matches HirBody::Op { args: a, .. } && a == args,
                        sorted_names(res@),
                        names_of(res@) == names_of(start).union(terms_uses(args@.subrange(0, i as int))),
                    decreases args@.len() - i,
                {
                    let ghost before = res@;
                    term_get_uses(&args[i], res);
                    proof {
                        let lo = args@.subrange(0, i as int);
                        let hi = args@.subrange(0, i + 1);
                        assert forall|s: Seq<char>| terms_uses(hi).contains(s) <==> (terms_uses(lo).contains(s) || term_uses(args@[i as int]).contains(s)) by {
                            if terms_uses(hi).contains(s) {
                                let k = choose|k: int| 0 <= k < hi.len() && #[trigger] term_uses(hi[k]).contains(s);
                                if k < i {
                                    assert(term_uses(lo[k]).contains(s));
                                }
                            }
                            if terms_uses(lo).contains(s) {
                                let k = choose|k: int| 0 <= k < lo.len() && #[trigger] term_uses(lo[k]).contains(s);
                                assert(term_uses(hi[k]).contains(s));
                            }
                            if term_uses(args@[i as int]).contains(s) {
                                assert(term_uses(hi[i as int]).contains(s));
                            }
                        }
                        assert(names_of(res@) =~= names_of(start).union(terms_uses(hi)));
                    }
                    i += 1;
                }
                assert(args@.subrange(0, args@.len() as int) =~= args@);
            },
            HirBody::Phi { inputs, .. } => {
                let mut ns: Vec<String> = Vec::new();
                let mut i: usize = 0;
                while i < inputs.len()
                    invariant
                        i <= inputs@.len(),
                        ns@ == input_names(inputs@.subrange(0, i as int)),
                    decreases inputs@.len() - i,
                {
                    ns.push(inputs[i].1.clone());
                    assert(ns@ =~= input_names(inputs@.subrange(0, i + 1)));
                    i += 1;
                }
                assert(inputs@.subrange(0, inputs@.len() as int) =~= inputs@);
                insert_names(res, &ns);
            },
            _ => {
                assert(names_of(res@).union(Set::empty()) =~= names_of(res@));
            },
        }
    }
}

/// Adds the filled arguments of a call to `res`.
fn call_get_uses(args: &Vec<Option<String>>, res: &mut Vec<String>)
    requires
        sorted_names(old(res)@),
    ensures
        sorted_names(final(res)@),
        names_of(final(res)@) == names_of(old(res)@).union(filled_args(args@)),
{
    let ghost start = res@;
    let mut i: usize = 0;
    while i < args.len()
        invariant
            i <= args@.len(),
            sorted_names(res@),
            names_of(res@) == names_of(start).union(filled_args(args@.subrange(0, i as int))),
        decreases args@.len() - i,
    {
        let ghost lo = args@.subrange(0, i as int);
        let ghost hi = args@.subrange(0, i + 1);
        match &args[i] {
            Some(a) => {
                insert_name(res, a.clone());
                proof {
                    assert forall|s: Seq<char>| filled_args(hi).contains(s) <==> (filled_args(lo).contains(s) || s == a@) by {
                        if filled_args(hi).contains(s) {
                            let k = choose|k: int| 0 <= k < hi.len() && #[trigger] hi[k] is Some && hi[k]->0@ == s;
                            if k < i {
                                assert(lo[k] is Some);
                            }
                        }
                        if filled_args(lo).contains(s) {
                            let k = choose|k: int| 0 <= k < lo.len() && #[trigger] lo[k] is Some && lo[k]->0@ == s;
                            assert(hi[k] is Some);
                        }
                        if s == a@ {
                            assert(hi[i as int] is Some);
                        }
                    }
                    assert(names_of(res@) =~= names_of(start).union(filled_args(hi)));
                }
            },
            None => {
                proof {
                    assert forall|s: Seq<char>| filled_args(hi).contains(s) <==> filled_args(lo).contains(s) by {
                        if filled_args(hi).contains(s) {
                            let k = choose|k: int| 0 <= k < hi.len() && #[trigger] hi[k] is Some && hi[k]->0@ == s;
                            assert(lo[k] is Some);
                        }
                        if filled_args(lo).contains(s) {
                            let k = choose|k: int| 0 <= k < lo.len() && #[trigger] lo[k] is Some && lo[k]->0@ == s;
                            assert(hi[k] is Some);
                        }
                    }
                    assert(filled_args(hi) =~= filled_args(lo));
                }
            },
        }
        i += 1;
    }
    assert(args@.subrange(0, args@.len() as int) =~= args@);
}

/// The names of a list of names, as a new list.
fn clone_names(v: &Vec<String>) -> (res: Vec<String>)
    ensures
        name_views(res@) == name_views(v@),
{
    let mut r: Vec<String> = Vec::new();
    let mut i: usize = 0;
    while i < v.len()
        invariant
            i <= v@.len(),
            name_views(r@) == name_views(v@.subrange(0, i as int)),
        decreases v@.len() - i,
    {
        let ghost before = r@;
        let c = v[i].clone();
        r.push(c);
        assert(name_views(r@) =~= name_views(before).push(c@));
        assert(name_views(v@.subrange(0, i + 1)) =~= name_views(v@.subrange(0, i as int)).push(v@[i as int]@));
        assert(name_views(r@) =~= name_views(v@.subrange(0, i + 1)));
        i += 1;
    }
    assert(v@.subrange(0, v@.len() as int) =~= v@);
    r
}

impl Terminator {
    /// The new variables this terminator defines, if it defines any.
    pub fn get_defs(&self) -> (res: Option<Vec<String>>)
        ensures
            res is Some <==> tail_defs(*self) is Some,
            res matches Some(v) ==> name_views(v@) == tail_defs(*self)->0,
    {
        match self {
            Terminator::Call(dests, _) => Some(dest_list(dests)),
            Terminator::CaptureCall { dests, .. } => Some(dest_list(dests)),
            Terminator::Return { dests, .. } => Some(dest_list(dests)),
            _ => None,
        }
    }

    /// Adds the variables this terminator reads to `res`.
    pub fn get_uses(&self, res: &mut Vec<String>)
        requires
            sorted_names(old(res)@),
        ensures
            sorted_names(final(res)@),
            names_of(final(res)@) == names_of(old(res)@).union(tail_uses(*self)),
    {
        match self {
            Terminator::Call(_, call) => call_get_uses(&call.args, res),
            Terminator::CaptureCall { call, .. } => call_get_uses(&call.args, res),
            Terminator::Select { guard, .. } => {
                insert_name(res, guard.clone());
                assert(names_of(res@) =~= names_of(old(res)@).union(set![guard@]));
            },
            Terminator::Return { rets, .. } => insert_names(res, rets),
            Terminator::Next(rets) => insert_names(res, rets),
            Terminator::FinalReturn(n) => {
                let ghost start = res@;
                let mut i: usize = 0;
                assert(names_of(start).union(ret_vars(0)) =~= names_of(start));
                while i < *n
                    invariant
                        i <= *n,
                        sorted_names(res@),
                        names_of(res@) == names_of(start).union(ret_vars(i as nat)),
                    decreases *n - i,
                {
                    let name = ret_var_name(i);
                    insert_name(res, name);
                    assert(names_of(res@) =~= names_of(start).union(ret_vars((i + 1) as nat)));
                    i += 1;
                }
                assert(names_of(res@) =~= names_of(old(res)@).union(tail_uses(*self)));
            },
            Terminator::Pending => {
                assert(names_of(res@).union(Set::empty()) =~= names_of(res@));
            },
        }
    }
}

impl<'a> HirInstr<'a> {
    /// The new variables this instruction defines, if it defines any.
    pub fn get_defs(&self) -> (res: Option<Vec<String>>)
        ensures
            res is Some <==> instr_defs(*self) is Some,
            res matches Some(v) ==> name_views(v@) == instr_defs(*self)->0,
    {
        match self {
            HirInstr::Stmt(b) => b.get_defs(),
            HirInstr::Tail(t) => t.get_defs(),
        }
    }

    /// Adds the variables this instruction reads to `res`.
    pub fn get_uses(&self, res: &mut Vec<String>)
        requires
            sorted_names(old(res)@),
            instr_ok(*self),
        ensures
            sorted_names(final(res)@),
            names_of(final(res)@) == names_of(old(res)@).union(instr_uses(*self)),
    {
        match self {
            HirInstr::Stmt(b) => b.get_uses(res),
            HirInstr::Tail(t) => t.get_uses(res),
        }
    }
}

/// A statement reads every variable that occurs in it as an operand: the source
/// of a load, the target and the stored variable of a store, the variable a
/// declaration is initialized from, the variable arguments of an operation,
/// and the incoming names of a phi node.
pub proof fn law_stmt_reads_operands(b: HirBody)
    ensures
        b matches HirBody::RefLoad { src, .. } ==> body_uses(b).contains(src@),
        b matches HirBody::RefStore { lhs, .. } ==> body_uses(b).contains(lhs@),
        b matches HirBody::RefStore { rhs: SchedTerm::Var { name, .. }, .. } ==> body_uses(b).contains(name@),
        b matches HirBody::ConstDecl { rhs: SchedTerm::Var { name, .. }, .. } ==> body_uses(b).contains(name@),
        b matches HirBody::VarDecl { rhs: Some(SchedTerm::Var { name, .. }), .. } ==> body_uses(b).contains(name@),
        b matches HirBody::Op { args, .. } ==> forall|i: int|
            0 <= i < args@.len() && (#[trigger] args@[i]) is Var ==> body_uses(b).contains(args@[i]->Var_name@),
        b matches HirBody::Phi { inputs, .. } ==> forall|i: int| 0 <= i < inputs@.len() ==> body_uses(b).contains(
            (#[trigger] inputs@[i]).1@,
        ),
{
    match b {
        HirBody::Op { args, .. } => {
            assert forall|i: int|
                0 <= i < args@.len() && (#[trigger] args@[i]) is Var implies body_uses(b).contains(args@[i]->Var_name@) by {
                assert(term_uses(args@[i]).contains(args@[i]->Var_name@));
            }
        },
        HirBody::Phi { inputs, .. } => {
            assert forall|i: int| 0 <= i < inputs@.len() implies body_uses(b).contains((#[trigger] inputs@[i]).1@) by {
                assert(input_names(inputs@)[i] == inputs@[i].1);
            }
        },
        _ => {},
    }
}

/// A statement reads nothing but its operands: a load reads exactly its source,
/// a declaration initialized from a variable reads exactly that variable, a
/// store reads its target and its stored variable only, and an operation or a
/// phi node reads only names that occur among its arguments or inputs.
pub proof fn law_stmt_reads_only_operands(b: HirBody, s: Seq<char>)
    ensures
        b matches HirBody::RefLoad { src, .. } ==> body_uses(b) == set![src@],
        b matches HirBody::ConstDecl { rhs: SchedTerm::Var { name, .. }, .. } ==> body_uses(b) == set![name@],
        b matches HirBody::VarDecl { rhs: Some(SchedTerm::Var { name, .. }), .. } ==> body_uses(b) == set![name@],
        b matches HirBody::VarDecl { rhs: None, .. } ==> body_uses(b) == Set::<Seq<char>>::empty(),
        b matches HirBody::RefStore { lhs, rhs, .. } ==> (body_uses(b).contains(s) ==> s == lhs@ || (rhs matches SchedTerm::Var { name, .. } && s == name@)),
        b matches HirBody::Op { args, .. } ==> (body_uses(b).contains(s) ==> exists|i: int|
            0 <= i < args@.len() && (#[trigger] args@[i]) is Var && args@[i]->Var_name@ == s),
        b matches HirBody::Phi { inputs, .. } ==> (body_uses(b).contains(s) ==> exists|i: int|
            0 <= i < inputs@.len() && (#[trigger] inputs@[i]).1@ == s),
        b is Hole || b is InAnnotation || b is OutAnnotation ==> body_uses(b) == Set::<Seq<char>>::empty(),
{
    match b {
        HirBody::Op { args, .. } => {
            if body_uses(b).contains(s) {
                let i = choose|i: int| 0 <= i < args@.len() && #[trigger] term_uses(args@[i]).contains(s);
                assert(args@[i] is Var && args@[i]->Var_name@ == s);
            }
        },
        HirBody::Phi { inputs, .. } => {
            if body_uses(b).contains(s) {
                let ns = input_names(inputs@);
                let i = choose|i: int| 0 <= i < ns.len() && ns[i]@ == s;
                assert(inputs@[i].1@ == s);
            }
        },
        _ => {},
    }
}

/// A statement that writes a fresh destination defines exactly that
/// destination; the other statements define nothing.
pub proof fn law_stmt_defines_destination(b: HirBody)
    ensures
        b matches HirBody::ConstDecl { lhs, .. } ==> body_defs(b) == Some(seq![lhs@]),
        b matches HirBody::VarDecl { lhs, .. } ==> body_defs(b) == Some(seq![lhs@]),
        b matches HirBody::RefLoad { dest, .. } ==> body_defs(b) == Some(seq![dest@]),
        b matches HirBody::Op { dest, .. } ==> body_defs(b) == Some(seq![dest@]),
        b matches HirBody::Phi { dest, .. } ==> body_defs(b) == Some(seq![dest@]),
        b is RefStore || b is Hole || b is InAnnotation || b is OutAnnotation ==> body_defs(b) is None,
{
}

/// A terminator reads its guard, the variables it returns or passes on, and
/// the filled arguments of a call; a call or return defines exactly its
/// destinations, and a select defines nothing itself.
pub proof fn law_tail_reads_and_defines(t: Terminator)
    ensures
        t matches Terminator::Select { guard, .. } ==> tail_uses(t) == set![guard@] && tail_defs(t) is None,
        t matches Terminator::Return { rets, dests } ==> (forall|i: int| 0 <= i < rets@.len() ==> tail_uses(t).contains(
            (#[trigger] rets@[i])@,
        )) && tail_defs(t) == Some(dests@.map_values(|p: (String, TripleTag)| p.0@)),
        t matches Terminator::Next(rets) ==> forall|i: int| 0 <= i < rets@.len() ==> tail_uses(t).contains(
            (#[trigger] rets@[i])@,
        ),
        t matches Terminator::Call(dests, call) ==> (forall|i: int|
            0 <= i < call.args@.len() && (#[trigger] call.args@[i]) is Some ==> tail_uses(t).contains(call.args@[i]->0@))
            && tail_defs(t) == Some(dests@.map_values(|p: (String, TripleTag)| p.0@)),
        t matches Terminator::CaptureCall { dests, call, .. } ==> (forall|i: int|
            0 <= i < call.args@.len() && (#[trigger] call.args@[i]) is Some ==> tail_uses(t).contains(call.args@[i]->0@))
            && tail_defs(t) == Some(dests@.map_values(|p: (String, TripleTag)| p.0@)),
        t is Next || t is FinalReturn ==> tail_defs(t) is None,
        t matches Terminator::FinalReturn(n) ==> forall|i: nat| i < n ==> tail_uses(t).contains(#[trigger] ret_var(i)),
        t is Pending ==> tail_uses(t) == Set::<Seq<char>>::empty() && tail_defs(t) is None,
{
    match t {
        Terminator::Return { rets, dests } => {
            assert forall|i: int| 0 <= i < rets@.len() implies tail_uses(t).contains((#[trigger] rets@[i])@) by {
                assert(rets@[i]@ == rets@[i]@);
            }
            assert(name_views(dest_names(dests@)) =~= dests@.map_values(|p: (String, TripleTag)| p.0@));
        },
        Terminator::Next(rets) => {
            assert forall|i: int| 0 <= i < rets@.len() implies tail_uses(t).contains((#[trigger] rets@[i])@) by {
                assert(rets@[i]@ == rets@[i]@);
            }
        },
        Terminator::Call(dests, call) => {
            assert(name_views(dest_names(dests@)) =~= dests@.map_values(|p: (String, TripleTag)| p.0@));
        },
        Terminator::CaptureCall { dests, .. } => {
            assert(name_views(dest_names(dests@)) =~= dests@.map_values(|p: (String, TripleTag)| p.0@));
        },
        Terminator::FinalReturn(n) => {
            assert forall|i: nat| i < n implies tail_uses(t).contains(#[trigger] ret_var(i)) by {
                lemma_ret_vars_contains(n as nat, i);
            }
        },
        _ => {},
    }
}

/// The first `n` return values include the `i`-th for each `i < n`.
proof fn lemma_ret_vars_contains(n: nat, i: nat)
    requires
        i < n,
    ensures
        ret_vars(n).contains(ret_var(i)),
    decreases n,
{
    if i < n - 1 {
        lemma_ret_vars_contains((n - 1) as nat, i);
    }
}

} // verus!
