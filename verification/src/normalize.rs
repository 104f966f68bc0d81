//! Normalization of a whole program: in each scheduling function, returning
//! `if`s become sequences, nested expressions are flattened and variables are
//! renamed; value funclets are flattened; then yields are inserted into the
//! calls that close a cycle of the call graph.
use vstd::prelude::*;

use crate::ast::{ClassMembers, Program, SchedStmt, TopLevel};
use crate::error::{Info, LocalError};
use crate::flatten::{flat_stmts, flatten_schedule, flatten_spec, list_flat_ok, list_temps, sflat_stmts, slist_temps};
use crate::if_to_seq::{block_err_from, block_out_from, final_if_to_seq, is_type_error, list_ok_from};
use crate::sched_rename::{declare, decl_names, list_decls, list_ok, ren_list, rename_vars, renamed_decls};
use crate::yields::{CallGraph, marked_program, marks_close_cycles, program_calls, program_ok};

verus! {

/// The first type error that normalizing the declarations of `p` from index
/// `i` on meets: that of the first scheduling function whose returning `if`s
/// cannot become sequences.
pub open spec fn first_norm_error(p: Seq<TopLevel>, i: int) -> Option<(Info, Seq<char>)>
    decreases p.len() - i,
{
    if i < 0 || i >= p.len() {
        None
    } else {
        match p[i] {
            TopLevel::SchedulingFunc { statements, .. } => match block_err_from(statements@, 0) {
                Some(e) => Some(e),
                None => first_norm_error(p, i + 1),
            },
            _ => first_norm_error(p, i + 1),
        }
    }
}

/// The statements of a scheduling function with the inputs `input` can go
/// through every stage: sequences, flattening and renaming.
pub open spec fn sched_normalizable(input: Seq<(String, Option<crate::ast::FullType>)>, s: Seq<SchedStmt>) -> bool {
    &&& list_ok_from(s, 0)
    &&& forall|mid: Seq<SchedStmt>|
        #[trigger] block_out_from(s, 0, mid) ==> {
            &&& list_flat_ok(mid)
            &&& list_temps(mid) <= usize::MAX
            &&& forall|mid2: Seq<SchedStmt>|
                #[trigger] flat_stmts(mid, 0, mid2) ==> list_ok(mid2) && input.len() + list_decls(mid2) <= u64::MAX
        }
}

/// `m2` is the class member `m` normalized: a value funclet has its statements
/// flattened.
pub open spec fn norm_member(m: ClassMembers, m2: ClassMembers) -> bool {
    match m {
        ClassMembers::ValueFunclet { info, name, input, output, statements } => match m2 {
            ClassMembers::ValueFunclet { info: i, name: n, input: a, output: o, statements: s } => {
                &&& i == info
                &&& n == name
                &&& a == input
                &&& o == output
                &&& sflat_stmts(statements@, 0, s@)
            },
            _ => false,
        },
        _ => m2 == m,
    }
}

/// `d2` is the declaration `d` normalized, before yields are inserted.
pub open spec fn norm_decl(d: TopLevel, d2: TopLevel) -> bool {
    match d {
        TopLevel::SchedulingFunc { info, name, input, output, specs, statements } => match d2 {
            TopLevel::SchedulingFunc { info: i, name: n, input: in2, output: o, specs: sp, statements: s2 } => {
                &&& i == info
                &&& n == name
                &&& o == output
                &&& sp == specs
                &&& exists|mid: Seq<SchedStmt>, mid2: Seq<SchedStmt>|
                    #[trigger] block_out_from(statements@, 0, mid) && #[trigger] flat_stmts(mid, 0, mid2) && {
                        let (l, c, names) = declare(decl_names(input@), Map::empty(), Map::empty());
                        renamed_decls(input@, in2@, names) && ren_list(mid2, s2@, l, c)
                    }
            },
            _ => false,
        },
        TopLevel::FunctionClass { info, name, members } => match d2 {
            TopLevel::FunctionClass { info: i, name: n, members: m2 } => {
                &&& i == info
                &&& n == name
                &&& m2@.len() == members@.len()
                &&& forall|k: int| 0 <= k < members@.len() ==> #[trigger] norm_member(members@[k], m2@[k])
            },
            _ => false,
        },
        _ => d2 == d,
    }
}

/// `q` is the program `p` with each declaration normalized, before yields.
pub open spec fn norm_prog(p: Seq<TopLevel>, q: Seq<TopLevel>) -> bool {
    &&& q.len() == p.len()
    &&& forall|i: int| 0 <= i < p.len() ==> #[trigger] norm_decl(p[i], q[i])
}

/// The program can be normalized without a failure of any stage: each scheduling
/// function can go through every stage, each value funclet can be flattened,
/// and the calls of the normalized program call functions by name and fit the
/// call graph.
pub open spec fn normalizable(p: Seq<TopLevel>) -> bool {
    &&& forall|i: int|
        0 <= i < p.len() ==> match #[trigger] p[i] {
            TopLevel::SchedulingFunc { input, statements, .. } => sched_normalizable(input@, statements@),
            TopLevel::FunctionClass { members, .. } => forall|k: int|
                0 <= k < members@.len() ==> match #[trigger] members@[k] {
                    ClassMembers::ValueFunclet { statements, .. } => slist_temps(statements@) <= usize::MAX,
                    _ => true,
                },
            _ => true,
        }
    &&& forall|q: Seq<TopLevel>|
        #[trigger] norm_prog(p, q) ==> program_ok(q) && 2 * program_calls(q).len() + 2 < usize::MAX
}

/// Normalizes the statements of a scheduling function.
fn normalize_sched(input: &mut Vec<(String, Option<crate::ast::FullType>)>, statements: Vec<SchedStmt>) -> (res: Result<
    Vec<SchedStmt>,
    LocalError,
>)
    requires
        sched_normalizable(old(input)@, statements@),
    ensures
        res is Err <==> block_err_from(statements@, 0) is Some,
        res matches Err(e) ==> is_type_error(e, block_err_from(statements@, 0)->0) && final(input)@ == old(input)@,
        res matches Ok(s2) ==> exists|mid: Seq<SchedStmt>, mid2: Seq<SchedStmt>|
            #[trigger] block_out_from(statements@, 0, mid) && #[trigger] flat_stmts(mid, 0, mid2) && {
                let (l, c, names) = declare(decl_names(old(input)@), Map::empty(), Map::empty());
                renamed_decls(old(input)@, final(input)@, names) && ren_list(mid2, s2@, l, c)
            },
{
    let ghost s0 = statements@;
    let ghost in0 = input@;
    let mid = match final_if_to_seq(statements) {
        Err(e) => {
            return Err(e);
        },
        Ok(m) => m,
    };
    let ghost gm = mid@;
    assert(block_out_from(s0, 0, gm));
    let mut mid2 = flatten_schedule(mid);
    let ghost gm2 = mid2@;
    assert(flat_stmts(gm, 0, gm2));
    rename_vars(&mut mid2, input);
    Ok(mid2)
}

/// Flattens the value funclets among the members of a function class.
fn normalize_members(members: Vec<ClassMembers>) -> (res: Vec<ClassMembers>)
    requires
        forall|k: int|
            0 <= k < members@.len() ==> match #[trigger] members@[k] {
                ClassMembers::ValueFunclet { statements, .. } => slist_temps(statements@) <= usize::MAX,
                _ => true,
            },
    ensures
        res@.len() == members@.len(),
        forall|k: int| 0 <= k < members@.len() ==> #[trigger] norm_member(members@[k], res@[k]),
{
    let ghost orig = members@;
    let len = members.len();
    let mut rest = members;
    let mut out: Vec<ClassMembers> = Vec::new();
    let mut i: usize = 0;
    while rest.len() > 0
        invariant
            len == orig.len(),
            i + rest@.len() == orig.len(),
            rest@ == orig.skip(i as int),
            out@.len() == i,
            forall|k: int|
                0 <= k < orig.len() ==> match #[trigger] orig[k] {
                    ClassMembers::ValueFunclet { statements, .. } => slist_temps(statements@) <= usize::MAX,
                    _ => true,
                },
            forall|k: int| 0 <= k < i ==> #[trigger] norm_member(orig[k], out@[k]),
        decreases rest@.len(),
    {
        let m = rest.remove(0);
        assert(m == orig[i as int]);
        let m2 = match m {
            ClassMembers::ValueFunclet { info, name, input, output, statements } => {
                let s2 = flatten_spec(statements);
                ClassMembers::ValueFunclet { info, name, input, output, statements: s2 }
            },
            other => other,
        };
        out.push(m2);
        i += 1;
    }
    out
}

/// Normalizes a program: in each scheduling function, returning `if`s become
/// sequences, nested expressions are flattened and variables get internal
/// names; value funclets are flattened; then the calls that close a cycle of
/// the call graph are marked as yields.
/// # Errors
/// The type error of the first scheduling function whose returning `if`s cannot
/// become sequences.
pub fn normalize_ast(p: Program) -> (res: Result<Program, LocalError>)
    requires
        normalizable(p@),
    ensures
        res is Err <==> first_norm_error(p@, 0) is Some,
        res matches Err(e) ==> is_type_error(e, first_norm_error(p@, 0)->0),
        res matches Ok(q) ==> exists|mid: Seq<TopLevel>, g: CallGraph, back: Seq<bool>|
            #![trigger norm_prog(p@, mid), marked_program(mid, q@, back), g.acyclic_without(back)]
            norm_prog(p@, mid) && marked_program(mid, q@, back) && g.holds_calls(program_calls(mid))
                && g.acyclic_without(back) && marks_close_cycles(g, back),
{
    let ghost orig = p@;
    let len = p.len();
    let mut rest = p;
    let mut out: Program = Vec::new();
    let mut i: usize = 0;
    while rest.len() > 0
        invariant
            orig == p@,
            len == orig.len(),
            i + rest@.len() == orig.len(),
            rest@ == orig.skip(i as int),
            out@.len() == i,
            normalizable(orig),
            first_norm_error(orig, 0) == first_norm_error(orig, i as int),
            forall|j: int| 0 <= j < i ==> #[trigger] norm_decl(orig[j], out@[j]),
        decreases rest@.len(),
    {
        let d = rest.remove(0);
        assert(d == orig[i as int]);
        let ghost d0 = d;
        let d2 = match d {
            TopLevel::SchedulingFunc { info, name, input, output, specs, statements } => {
                let mut input = input;
                let s2 = match normalize_sched(&mut input, statements) {
                    Err(e) => {
                        proof {
                            assert(first_norm_error(orig, i as int) == block_err_from(
                                d0->SchedulingFunc_statements@,
                                0,
                            ));
                        }
                        return Err(e);
                    },
                    Ok(s) => s,
                };
                TopLevel::SchedulingFunc { info, name, input, output, specs, statements: s2 }
            },
            TopLevel::FunctionClass { info, name, members } => {
                let m2 = normalize_members(members);
                TopLevel::FunctionClass { info, name, members: m2 }
            },
            other => other,
        };
        assert(norm_decl(d0, d2));
        out.push(d2);
        i += 1;
    }
    let ghost mid = out@;
    assert(norm_prog(orig, mid));
    let mut q = out;
    let cg = CallGraph::new(&q);
    let back = cg.insert_yields(&mut q);
    assert(marked_program(mid, q@, back@));
    assert(cg.acyclic_without(back@));
    assert(marks_close_cycles(cg, back@));
    let res: Result<Program, LocalError> = Ok(q);
    assert(res matches Ok(q2) ==> exists|m: Seq<TopLevel>, g: CallGraph, b: Seq<bool>|
        #![trigger norm_prog(p@, m), marked_program(m, q2@, b), g.acyclic_without(b)]
        norm_prog(p@, m) && marked_program(m, q2@, b) && g.holds_calls(program_calls(m)) && g.acyclic_without(b)
            && marks_close_cycles(g, b))
        by {
        assert(norm_prog(p@, mid) && marked_program(mid, res->Ok_0@, back@) && cg.acyclic_without(back@)
            && marks_close_cycles(cg, back@));
    }
    res
}

} // verus!
