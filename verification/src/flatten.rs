//! Flattens nested expressions into sequences of declarations of temporaries.
//! A nested operand `a + b * c` becomes `let _f0 = b * c; let _f1 = a + _f0;`
//! and the operand is replaced by `_f1`. Temporaries are numbered in order of
//! creation: the `k`-th one is `_f{k}`.
use vstd::prelude::*;

use crate::ast::{
    ArgsOrEnc, EncodedStmt, FullType, NestedExpr, SchedExpr, SchedFuncCall, SchedLiteral, SchedStmt, SchedTerm,
    SpecExpr, SpecLiteral, SpecStmt, SpecTerm, Tag, Tags, TemplateArgs, same_tag,
};
use crate::ast_factory::{converts, converts_from, to_spec_error, to_spec_error_from};
use crate::ast::{same_spec_expr, same_spec_exprs};
use crate::error::Info;
use crate::text::{decimal, text_of, usize_to_text};

verus! {

/// The name of the `n`-th temporary: `_f{n}`.
pub open spec fn temp_text(n: int) -> Seq<char> {
    "_f"@ + decimal(n as nat)
}

/// Two optional tag lists with the same tags.
pub open spec fn same_tags(a: Option<Tags>, b: Option<Tags>) -> bool {
    match (a, b) {
        (Some(x), Some(y)) => x@.len() == y@.len() && forall|i: int|
            0 <= i < x@.len() ==> #[trigger] same_tag(x@[i], y@[i]),
        (None, None) => true,
        _ => false,
    }
}

// ---------------------------------------------------------------------------
// Counts and sizes.
// ---------------------------------------------------------------------------

/// The number of declarations that flattening `e` into a variable emits (one
/// temporary each).
pub open spec fn rec_len(e: SchedExpr) -> nat
    decreases e, 0int,
{
    match e {
        NestedExpr::Binop { lhs, rhs, .. } => rec_len(*lhs) + rec_len(*rhs) + 1,
        NestedExpr::Uop { expr, .. } => rec_len(*expr) + 1,
        NestedExpr::Conditional { if_true, guard, if_false, .. } => rec_len(*guard) + rec_len(*if_true) + rec_len(
            *if_false,
        ) + 1,
        NestedExpr::Term(t) => match t {
            SchedTerm::Call(_, call) => children_len(call) + 1,
            SchedTerm::Lit { lit: SchedLiteral::Tuple(v), .. } => rec_lens(v@),
            SchedTerm::Lit { .. } => 1,
            _ => 0,
        },
    }
}

/// The declarations that flattening the expressions of `s` emits.
pub open spec fn rec_lens(s: Seq<SchedExpr>) -> nat
    decreases s, 1int,
{
    if s.len() == 0 {
        0
    } else {
        rec_lens(s.drop_last()) + rec_len(s.last())
    }
}

/// The declarations that flattening the arguments and value template
/// arguments of a call emits.
pub open spec fn children_len(call: SchedFuncCall) -> nat
    decreases call, 0int,
{
    tmpl_lens(call) + match *call.args {
        ArgsOrEnc::Args(v) => rec_lens(v@),
        ArgsOrEnc::Encode(EncodedStmt::Move { rhs, .. }) => rec_len(rhs),
    }
}

/// The declarations that flattening the value template arguments of a call emits.
pub open spec fn tmpl_lens(call: SchedFuncCall) -> nat {
    match call.templates {
        Some(TemplateArgs::Vals(vs)) => spec_conv_lens(vs@),
        _ => 0,
    }
}

/// The declarations that flattening the scheduling form of the template
/// expression `x` emits.
pub open spec fn spec_conv_len(x: SpecExpr) -> nat
    decreases x, 0int,
{
    match x {
        NestedExpr::Binop { lhs, rhs, .. } => spec_conv_len(*lhs) + spec_conv_len(*rhs) + 1,
        NestedExpr::Uop { expr, .. } => spec_conv_len(*expr) + 1,
        NestedExpr::Conditional { if_true, guard, if_false, .. } => spec_conv_len(*guard) + spec_conv_len(*if_true)
            + spec_conv_len(*if_false) + 1,
        NestedExpr::Term(t) => match t {
            SpecTerm::Lit { lit: SpecLiteral::Tuple(v), .. } => spec_conv_lens(v@),
            SpecTerm::Lit { .. } => 1,
            _ => 0,
        },
    }
}

/// The declarations for the template expressions of `s`.
pub open spec fn spec_conv_lens(s: Seq<SpecExpr>) -> nat
    decreases s, 1int,
{
    if s.len() == 0 {
        0
    } else {
        spec_conv_lens(s.drop_last()) + spec_conv_len(s.last())
    }
}

/// The size of an expression: a measure that every part of it is below.
pub open spec fn sz(e: SchedExpr) -> nat
    decreases e, 0int,
{
    match e {
        NestedExpr::Binop { lhs, rhs, .. } => sz(*lhs) + sz(*rhs) + 1,
        NestedExpr::Uop { expr, .. } => sz(*expr) + 1,
        NestedExpr::Conditional { if_true, guard, if_false, .. } => sz(*guard) + sz(*if_true) + sz(*if_false) + 1,
        NestedExpr::Term(t) => term_sz(t) + 1,
    }
}

/// The size of a term.
pub open spec fn term_sz(t: SchedTerm) -> nat
    decreases t, 0int,
{
    match t {
        SchedTerm::Call(_, call) => call_sz(call) + 2,
        SchedTerm::Lit { lit: SchedLiteral::Tuple(v), .. } => szs(v@) + 2,
        SchedTerm::Lit { lit: SchedLiteral::Array(v), .. } => szs(v@) + 2,
        _ => 1,
    }
}

/// The size of a call.
pub open spec fn call_sz(call: SchedFuncCall) -> nat
    decreases call, 0int,
{
    2 + match call.templates {
        Some(TemplateArgs::Vals(vs)) => spec_szs(vs@),
        _ => 0,
    } + match *call.args {
        ArgsOrEnc::Args(v) => szs(v@),
        ArgsOrEnc::Encode(EncodedStmt::Move { rhs, .. }) => sz(rhs),
    }
}

/// The sizes of the expressions of `s`.
pub open spec fn szs(s: Seq<SchedExpr>) -> nat
    decreases s, 1int,
{
    if s.len() == 0 {
        0
    } else {
        szs(s.drop_last()) + sz(s.last())
    }
}

/// The size of the scheduling form of the template expression `x`.
pub open spec fn spec_sz(x: SpecExpr) -> nat
    decreases x, 0int,
{
    match x {
        NestedExpr::Binop { lhs, rhs, .. } => spec_sz(*lhs) + spec_sz(*rhs) + 1,
        NestedExpr::Uop { expr, .. } => spec_sz(*expr) + 1,
        NestedExpr::Conditional { if_true, guard, if_false, .. } => spec_sz(*guard) + spec_sz(*if_true) + spec_sz(
            *if_false,
        ) + 1,
        NestedExpr::Term(t) => match t {
            SpecTerm::Lit { lit: SpecLiteral::Tuple(v), .. } => spec_szs(v@) + 3,
            SpecTerm::Lit { lit: SpecLiteral::Array(v), .. } => spec_szs(v@) + 3,
            _ => 2,
        },
    }
}

/// The sizes of the template expressions of `s`.
pub open spec fn spec_szs(s: Seq<SpecExpr>) -> nat
    decreases s, 1int,
{
    if s.len() == 0 {
        0
    } else {
        spec_szs(s.drop_last()) + spec_sz(s.last())
    }
}

// ---------------------------------------------------------------------------
// Template expressions in the scheduling language.
// ---------------------------------------------------------------------------

/// `y` is the template expression `x` written as a scheduling expression,
/// without tags.
pub open spec fn sched_of(x: SpecExpr, y: SchedExpr) -> bool
    decreases x, 0int,
{
    match x {
        NestedExpr::Binop { info, op, lhs, rhs } => match y {
            NestedExpr::Binop { info: i, op: o, lhs: l, rhs: r } => i == info && o == op && sched_of(*lhs, *l)
                && sched_of(*rhs, *r),
            _ => false,
        },
        NestedExpr::Uop { info, op, expr } => match y {
            NestedExpr::Uop { info: i, op: o, expr: e } => i == info && o == op && sched_of(*expr, *e),
            _ => false,
        },
        NestedExpr::Conditional { info, if_true, guard, if_false } => match y {
            NestedExpr::Conditional { info: i, if_true: t, guard: g, if_false: f } => i == info && sched_of(
                *if_true,
                *t,
            ) && sched_of(*guard, *g) && sched_of(*if_false, *f),
            _ => false,
        },
        NestedExpr::Term(SpecTerm::Var { info, name }) => y == NestedExpr::Term(
            SchedTerm::Var { info, name, tag: None },
        ),
        NestedExpr::Term(SpecTerm::Lit { info, lit }) => match y {
            NestedExpr::Term(SchedTerm::Lit { info: i, lit: l, tag: None }) => i == info && match lit {
                SpecLiteral::Int(s) => l == SchedLiteral::Int(s),
                SpecLiteral::Float(s) => l == SchedLiteral::Float(s),
                SpecLiteral::Bool(b) => l == SchedLiteral::Bool(b),
                SpecLiteral::Tuple(v) => l matches SchedLiteral::Tuple(w) && sched_of_list(v@, w@),
                SpecLiteral::Array(v) => l matches SchedLiteral::Array(w) && sched_of_list(v@, w@),
            },
            _ => false,
        },
        NestedExpr::Term(SpecTerm::Call { .. }) => false,
    }
}

/// `w` is `v` written in the scheduling language.
pub open spec fn sched_of_list(v: Seq<SpecExpr>, w: Seq<SchedExpr>) -> bool
    decreases v, 1int,
{
    if v.len() == 0 {
        w.len() == 0
    } else {
        w.len() == v.len() && sched_of_list(v.drop_last(), w.drop_last()) && sched_of(v.last(), w.last())
    }
}

/// The template expression has no calls.
pub open spec fn no_calls(x: SpecExpr) -> bool
    decreases x, 0int,
{
    match x {
        NestedExpr::Binop { lhs, rhs, .. } => no_calls(*lhs) && no_calls(*rhs),
        NestedExpr::Uop { expr, .. } => no_calls(*expr),
        NestedExpr::Conditional { if_true, guard, if_false, .. } => no_calls(*if_true) && no_calls(*guard)
            && no_calls(*if_false),
        NestedExpr::Term(SpecTerm::Lit { lit: SpecLiteral::Tuple(v), .. }) => no_calls_from(v@),
        NestedExpr::Term(SpecTerm::Lit { lit: SpecLiteral::Array(v), .. }) => no_calls_from(v@),
        NestedExpr::Term(SpecTerm::Call { .. }) => false,
        _ => true,
    }
}

/// The template expressions of `s` have no calls.
pub open spec fn no_calls_from(s: Seq<SpecExpr>) -> bool
    decreases s, 1int,
{
    if s.len() == 0 {
        true
    } else {
        no_calls_from(s.drop_last()) && no_calls(s.last())
    }
}

/// A value template argument can be flattened: it has no calls and is no tuple.
pub open spec fn tmpl_ok(x: SpecExpr) -> bool {
    no_calls(x) && !(x matches NestedExpr::Term(SpecTerm::Lit { lit: SpecLiteral::Tuple(_), .. }))
}

/// The value template arguments of `s` can be flattened.
pub open spec fn tmpls_ok(s: Seq<SpecExpr>) -> bool
    decreases s.len(),
{
    if s.len() == 0 {
        true
    } else {
        tmpls_ok(s.drop_last()) && tmpl_ok(s.last())
    }
}

/// Every call in the expression has value template arguments that can be flattened.
pub open spec fn flat_ok(e: SchedExpr) -> bool
    decreases e, 0int,
{
    match e {
        NestedExpr::Binop { lhs, rhs, .. } => flat_ok(*lhs) && flat_ok(*rhs),
        NestedExpr::Uop { expr, .. } => flat_ok(*expr),
        NestedExpr::Conditional { if_true, guard, if_false, .. } => flat_ok(*if_true) && flat_ok(*guard) && flat_ok(
            *if_false,
        ),
        NestedExpr::Term(SchedTerm::Call(_, call)) => call_flat_ok(call),
        NestedExpr::Term(SchedTerm::Lit { lit: SchedLiteral::Tuple(v), .. }) => flat_oks(v@),
        _ => true,
    }
}

/// The expressions of `s` can be flattened.
pub open spec fn flat_oks(s: Seq<SchedExpr>) -> bool
    decreases s, 1int,
{
    if s.len() == 0 {
        true
    } else {
        flat_oks(s.drop_last()) && flat_ok(s.last())
    }
}

/// The arguments and template arguments of a call can be flattened.
pub open spec fn call_flat_ok(call: SchedFuncCall) -> bool
    decreases call, 0int,
{
    &&& match call.templates {
        Some(TemplateArgs::Vals(vs)) => tmpls_ok(vs@),
        _ => true,
    }
    &&& match *call.args {
        ArgsOrEnc::Args(v) => flat_oks(v@),
        ArgsOrEnc::Encode(EncodedStmt::Move { rhs, .. }) => flat_ok(rhs),
    }
}

// ---------------------------------------------------------------------------
// What flattening an expression gives.
// ---------------------------------------------------------------------------

/// The declared names of a declaration of the `n`-th temporary.
pub open spec fn temp_lhs(l: Seq<(String, Option<FullType>)>, n: int) -> bool {
    l.len() == 1 && l[0].0@ == temp_text(n) && l[0].1 is None
}

/// `s` declares the `n`-th temporary, at `info`, with the value `e`.
pub open spec fn is_temp_decl(s: SchedStmt, info: Info, n: int, e: SchedExpr) -> bool {
    s matches SchedStmt::Decl { info: i, lhs, is_const, expr: Some(x) } && i == info && is_const && temp_lhs(
        lhs@,
        n,
    ) && x == e
}

/// `r` is the `n`-th temporary used at `info` with the tags `tag`.
pub open spec fn is_temp_var(r: SchedExpr, info: Info, n: int, tag: Option<Tags>) -> bool {
    r matches NestedExpr::Term(SchedTerm::Var { info: i, name, tag: t }) && i == info && name@ == temp_text(n)
        && t == tag
}

/// Flattening `e` into a variable, with temporaries from the `n`-th on declared
/// at `fi`, emits the declarations `ins` and leaves `r` in place of `e`.
pub open spec fn flat_rec(e: SchedExpr, fi: Info, n: int, ins: Seq<SchedStmt>, r: SchedExpr) -> bool
    decreases e, 0int,
{
    match e {
        NestedExpr::Binop { info, op, lhs, rhs } => {
            let a = rec_len(*lhs) as int;
            let b = rec_len(*rhs) as int;
            &&& ins.len() == a + b + 1
            &&& ins[a + b] matches SchedStmt::Decl { expr: Some(NestedExpr::Binop { lhs: l2, rhs: r2, .. }), .. }
            &&& is_temp_decl(ins[a + b], fi, n + a + b, NestedExpr::Binop { info, op, lhs: l2, rhs: r2 })
            &&& flat_rec(*lhs, fi, n, ins.take(a), *l2)
            &&& flat_rec(*rhs, fi, n + a, ins.subrange(a, a + b), *r2)
            &&& is_temp_var(r, fi, n + a + b, None)
        },
        NestedExpr::Uop { info, op, expr } => {
            let a = rec_len(*expr) as int;
            &&& ins.len() == a + 1
            &&& ins[a] matches SchedStmt::Decl { expr: Some(NestedExpr::Uop { expr: x2, .. }), .. }
            &&& is_temp_decl(ins[a], fi, n + a, NestedExpr::Uop { info, op, expr: x2 })
            &&& flat_rec(*expr, fi, n, ins.take(a), *x2)
            &&& is_temp_var(r, fi, n + a, None)
        },
        NestedExpr::Conditional { info, if_true, guard, if_false } => {
            let g = rec_len(*guard) as int;
            let t = rec_len(*if_true) as int;
            let f = rec_len(*if_false) as int;
            &&& ins.len() == g + t + f + 1
            &&& ins[g + t + f] matches SchedStmt::Decl {
                expr: Some(NestedExpr::Conditional { if_true: t2, guard: g2, if_false: f2, .. }),
                ..
            }
            &&& is_temp_decl(
                ins[g + t + f],
                fi,
                n + g + t + f,
                NestedExpr::Conditional { info, if_true: t2, guard: g2, if_false: f2 },
            )
            &&& flat_rec(*guard, fi, n, ins.take(g), *g2)
            &&& flat_rec(*if_true, fi, n + g, ins.subrange(g, g + t), *t2)
            &&& flat_rec(*if_false, fi, n + g + t, ins.subrange(g + t, g + t + f), *f2)
            &&& is_temp_var(r, fi, n + g + t + f, None)
        },
        NestedExpr::Term(t) => flat_term(t, n, ins, r),
    }
}

/// Flattening the term `t` into a variable (its temporaries declared at its own
/// location).
pub open spec fn flat_term(t: SchedTerm, n: int, ins: Seq<SchedStmt>, r: SchedExpr) -> bool
    decreases t, 0int,
{
    match t {
        SchedTerm::Call(info, call) => {
            let c = children_len(call) as int;
            &&& ins.len() == c + 1
            &&& ins[c] matches SchedStmt::Decl { expr: Some(x), .. }
            &&& is_temp_decl(ins[c], info, n + c, x)
            &&& flat_children(info, call, n, ins.take(c), x)
            &&& is_temp_var(r, info, n + c, None)
        },
        SchedTerm::Lit { info, lit: SchedLiteral::Tuple(v), tag } => {
            &&& r matches NestedExpr::Term(SchedTerm::Lit { info: i, lit: SchedLiteral::Tuple(w), tag: g })
            &&& i == info
            &&& g == tag
            &&& flat_list(v@, info, n, ins, w@)
        },
        SchedTerm::Lit { info, lit, tag } => {
            &&& ins.len() == 1
            &&& ins[0] matches SchedStmt::Decl { expr: Some(NestedExpr::Term(SchedTerm::Lit { tag: t2, .. })), .. }
            &&& is_temp_decl(ins[0], info, n, NestedExpr::Term(SchedTerm::Lit { info, lit, tag: t2 }))
            &&& same_tags(tag, t2)
            &&& is_temp_var(r, info, n, tag)
        },
        _ => ins.len() == 0 && r == NestedExpr::Term(t),
    }
}

/// Flattening the expressions of `v` one after the other, with temporaries
/// from the `n`-th on declared at `fi`, gives the declarations `ins` and the
/// expressions `w`.
pub open spec fn flat_list(v: Seq<SchedExpr>, fi: Info, n: int, ins: Seq<SchedStmt>, w: Seq<SchedExpr>) -> bool
    decreases v, 1int,
{
    if v.len() == 0 {
        ins.len() == 0 && w.len() == 0
    } else {
        let p = rec_lens(v.drop_last()) as int;
        &&& ins.len() == p + rec_len(v.last())
        &&& w.len() == v.len()
        &&& flat_list(v.drop_last(), fi, n, ins.take(p), w.drop_last())
        &&& flat_rec(v.last(), fi, n + p, ins.skip(p), w.last())
    }
}

/// Flattening the arguments and value template arguments of the call `call` at
/// `info` gives the declarations `ins` and the term `x` with flat arguments.
pub open spec fn flat_children(info: Info, call: SchedFuncCall, n: int, ins: Seq<SchedStmt>, x: SchedExpr) -> bool
    decreases call, 0int,
{
    let tl = tmpl_lens(call) as int;
    &&& x matches NestedExpr::Term(SchedTerm::Call(i, c2))
    &&& i == info
    &&& c2.target == call.target
    &&& c2.tag == call.tag
    &&& c2.yield_call == call.yield_call
    &&& tl <= ins.len()
    &&& match call.templates {
        Some(TemplateArgs::Vals(vs)) => c2.templates matches Some(TemplateArgs::Vals(ws)) && flat_tmpls(
            vs@,
            info,
            n,
            ins.take(tl),
            ws@,
        ),
        _ => c2.templates == call.templates,
    }
    &&& match *call.args {
        ArgsOrEnc::Args(v) => *c2.args matches ArgsOrEnc::Args(w) && flat_list(
            v@,
            info,
            n + tl,
            ins.skip(tl),
            w@,
        ),
        ArgsOrEnc::Encode(EncodedStmt::Move { info: mi, lhs, rhs }) => *c2.args matches ArgsOrEnc::Encode(
            EncodedStmt::Move { info: i3, lhs: l3, rhs: r3 },
        ) && i3 == mi && l3 == lhs && flat_rec(rhs, info, n + tl, ins.skip(tl), r3),
    }
}

/// The location of the variable that flattening the template expression `x`
/// leaves: its own for a variable or literal, `fi` for a temporary of an operation.
pub open spec fn conv_info(x: SpecExpr, fi: Info) -> Info {
    match x {
        NestedExpr::Term(SpecTerm::Var { info, .. }) => info,
        NestedExpr::Term(SpecTerm::Lit { info, .. }) => info,
        _ => fi,
    }
}

/// `l` is the literal `lit` written in the scheduling language.
pub open spec fn lit_conv(lit: SpecLiteral, l: SchedLiteral) -> bool {
    match lit {
        SpecLiteral::Int(s) => l == SchedLiteral::Int(s),
        SpecLiteral::Float(s) => l == SchedLiteral::Float(s),
        SpecLiteral::Bool(b) => l == SchedLiteral::Bool(b),
        SpecLiteral::Tuple(v) => l matches SchedLiteral::Tuple(w) && sched_of_list(v@, w@),
        SpecLiteral::Array(v) => l matches SchedLiteral::Array(w) && sched_of_list(v@, w@),
    }
}

/// Flattening the scheduling form of the template expression `x` into a
/// variable, with temporaries from the `n`-th on declared at `fi`, emits `ins`
/// and leaves `r`.
pub open spec fn flat_conv(x: SpecExpr, fi: Info, n: int, ins: Seq<SchedStmt>, r: SchedExpr) -> bool
    decreases x, 0int,
{
    match x {
        NestedExpr::Binop { info, op, lhs, rhs } => {
            let a = spec_conv_len(*lhs) as int;
            let b = spec_conv_len(*rhs) as int;
            &&& ins.len() == a + b + 1
            &&& ins[a + b] matches SchedStmt::Decl { expr: Some(NestedExpr::Binop { lhs: l2, rhs: r2, .. }), .. }
            &&& is_temp_decl(ins[a + b], fi, n + a + b, NestedExpr::Binop { info, op, lhs: l2, rhs: r2 })
            &&& flat_conv(*lhs, fi, n, ins.take(a), *l2)
            &&& flat_conv(*rhs, fi, n + a, ins.subrange(a, a + b), *r2)
            &&& is_temp_var(r, fi, n + a + b, None)
        },
        NestedExpr::Uop { info, op, expr } => {
            let a = spec_conv_len(*expr) as int;
            &&& ins.len() == a + 1
            &&& ins[a] matches SchedStmt::Decl { expr: Some(NestedExpr::Uop { expr: x2, .. }), .. }
            &&& is_temp_decl(ins[a], fi, n + a, NestedExpr::Uop { info, op, expr: x2 })
            &&& flat_conv(*expr, fi, n, ins.take(a), *x2)
            &&& is_temp_var(r, fi, n + a, None)
        },
        NestedExpr::Conditional { info, if_true, guard, if_false } => {
            let g = spec_conv_len(*guard) as int;
            let t = spec_conv_len(*if_true) as int;
            let f = spec_conv_len(*if_false) as int;
            &&& ins.len() == g + t + f + 1
            &&& ins[g + t + f] matches SchedStmt::Decl {
                expr: Some(NestedExpr::Conditional { if_true: t2, guard: g2, if_false: f2, .. }),
                ..
            }
            &&& is_temp_decl(
                ins[g + t + f],
                fi,
                n + g + t + f,
                NestedExpr::Conditional { info, if_true: t2, guard: g2, if_false: f2 },
            )
            &&& flat_conv(*guard, fi, n, ins.take(g), *g2)
            &&& flat_conv(*if_true, fi, n + g, ins.subrange(g, g + t), *t2)
            &&& flat_conv(*if_false, fi, n + g + t, ins.subrange(g + t, g + t + f), *f2)
            &&& is_temp_var(r, fi, n + g + t + f, None)
        },
        NestedExpr::Term(SpecTerm::Var { info, name }) => ins.len() == 0 && r == NestedExpr::Term(
            SchedTerm::Var { info, name, tag: None },
        ),
        NestedExpr::Term(SpecTerm::Lit { info, lit: SpecLiteral::Tuple(v) }) => {
            &&& r matches NestedExpr::Term(SchedTerm::Lit { info: i, lit: SchedLiteral::Tuple(w), tag: None })
            &&& i == info
            &&& flat_conv_list(v@, info, n, ins, w@)
        },
        NestedExpr::Term(SpecTerm::Lit { info, lit }) => {
            &&& ins.len() == 1
            &&& ins[0] matches SchedStmt::Decl {
                expr: Some(NestedExpr::Term(SchedTerm::Lit { lit: l2, tag: None, .. })),
                ..
            }
            &&& is_temp_decl(ins[0], info, n, NestedExpr::Term(SchedTerm::Lit { info, lit: l2, tag: None }))
            &&& lit_conv(lit, l2)
            &&& is_temp_var(r, info, n, None)
        },
        NestedExpr::Term(SpecTerm::Call { .. }) => false,
    }
}

/// Flattening the scheduling forms of the template expressions of `v`.
pub open spec fn flat_conv_list(v: Seq<SpecExpr>, fi: Info, n: int, ins: Seq<SchedStmt>, w: Seq<SchedExpr>) -> bool
    decreases v, 1int,
{
    if v.len() == 0 {
        ins.len() == 0 && w.len() == 0
    } else {
        let p = spec_conv_lens(v.drop_last()) as int;
        &&& ins.len() == p + spec_conv_len(v.last())
        &&& w.len() == v.len()
        &&& flat_conv_list(v.drop_last(), fi, n, ins.take(p), w.drop_last())
        &&& flat_conv(v.last(), fi, n + p, ins.skip(p), w.last())
    }
}

/// Flattening the value template argument `x` (in its scheduling form, at `fi`)
/// gives the declarations `ins` and leaves the variable `w`, at `fi`.
pub open spec fn flat_tmpl(x: SpecExpr, fi: Info, n: int, ins: Seq<SchedStmt>, w: SpecExpr) -> bool {
    &&& w matches NestedExpr::Term(SpecTerm::Var { info: i, name })
    &&& i == fi
    &&& flat_conv(x, fi, n, ins, NestedExpr::Term(SchedTerm::Var { info: conv_info(x, fi), name, tag: None }))
}

/// Flattening the value template arguments of `v` one after the other.
pub open spec fn flat_tmpls(v: Seq<SpecExpr>, fi: Info, n: int, ins: Seq<SchedStmt>, w: Seq<SpecExpr>) -> bool
    decreases v.len(),
{
    if v.len() == 0 {
        ins.len() == 0 && w.len() == 0
    } else {
        let p = spec_conv_lens(v.drop_last()) as int;
        &&& ins.len() == p + spec_conv_len(v.last())
        &&& w.len() == v.len()
        &&& flat_tmpls(v.drop_last(), fi, n, ins.take(p), w.drop_last())
        &&& flat_tmpl(v.last(), fi, n + p, ins.skip(p), w.last())
    }
}

// ---------------------------------------------------------------------------
// Facts about lists.
// ---------------------------------------------------------------------------

/// Each expression of a list is no larger than the whole list.
proof fn lemma_szs_elem(s: Seq<SchedExpr>, j: int)
    requires
        0 <= j < s.len(),
    ensures
        sz(s[j]) <= szs(s),
    decreases s.len(),
{
    if j < s.len() - 1 {
        lemma_szs_elem(s.drop_last(), j);
        assert(s.drop_last()[j] == s[j]);
    }
}

/// Each template expression of a list is no larger than the whole list.
proof fn lemma_spec_szs_elem(s: Seq<SpecExpr>, j: int)
    requires
        0 <= j < s.len(),
    ensures
        spec_sz(s[j]) <= spec_szs(s),
    decreases s.len(),
{
    if j < s.len() - 1 {
        lemma_spec_szs_elem(s.drop_last(), j);
        assert(s.drop_last()[j] == s[j]);
    }
}

/// Each expression of a list that can be flattened can be flattened.
proof fn lemma_flat_oks_elem(s: Seq<SchedExpr>)
    requires
        flat_oks(s),
    ensures
        forall|j: int| 0 <= j < s.len() ==> flat_ok(#[trigger] s[j]),
    decreases s.len(),
{
    if s.len() > 0 {
        lemma_flat_oks_elem(s.drop_last());
        assert forall|j: int| 0 <= j < s.len() implies flat_ok(#[trigger] s[j]) by {
            if j < s.len() - 1 {
                assert(s.drop_last()[j] == s[j]);
            }
        }
    }
}

/// Each template argument of a list that can be flattened can be flattened.
proof fn lemma_tmpls_ok_elem(s: Seq<SpecExpr>)
    requires
        tmpls_ok(s),
    ensures
        forall|j: int| 0 <= j < s.len() ==> tmpl_ok(#[trigger] s[j]),
    decreases s.len(),
{
    if s.len() > 0 {
        lemma_tmpls_ok_elem(s.drop_last());
        assert forall|j: int| 0 <= j < s.len() implies tmpl_ok(#[trigger] s[j]) by {
            if j < s.len() - 1 {
                assert(s.drop_last()[j] == s[j]);
            }
        }
    }
}

/// Each template expression of a list without calls has no calls.
proof fn lemma_no_calls_elem(s: Seq<SpecExpr>)
    requires
        no_calls_from(s),
    ensures
        forall|j: int| 0 <= j < s.len() ==> no_calls(#[trigger] s[j]),
    decreases s.len(),
{
    if s.len() > 0 {
        lemma_no_calls_elem(s.drop_last());
        assert forall|j: int| 0 <= j < s.len() implies no_calls(#[trigger] s[j]) by {
            if j < s.len() - 1 {
                assert(s.drop_last()[j] == s[j]);
            }
        }
    }
}

/// A prefix of a list emits no more declarations than the list.
proof fn lemma_rec_lens_prefix(s: Seq<SchedExpr>, i: int)
    requires
        0 <= i <= s.len(),
    ensures
        rec_lens(s.take(i)) <= rec_lens(s),
    decreases s.len(),
{
    if i < s.len() {
        lemma_rec_lens_prefix(s.drop_last(), i);
        assert(s.drop_last().take(i) =~= s.take(i));
    } else {
        assert(s.take(i) =~= s);
    }
}

/// A prefix of a list of template expressions emits no more declarations than the list.
proof fn lemma_spec_conv_lens_prefix(s: Seq<SpecExpr>, i: int)
    requires
        0 <= i <= s.len(),
    ensures
        spec_conv_lens(s.take(i)) <= spec_conv_lens(s),
    decreases s.len(),
{
    if i < s.len() {
        lemma_spec_conv_lens_prefix(s.drop_last(), i);
        assert(s.drop_last().take(i) =~= s.take(i));
    } else {
        assert(s.take(i) =~= s);
    }
}

// ---------------------------------------------------------------------------
// Template expressions in the scheduling language.
// ---------------------------------------------------------------------------

/// The scheduling form of a template expression has the same size and count
/// of declarations, and can be flattened.
proof fn lemma_sched_of(x: SpecExpr, y: SchedExpr)
    requires
        sched_of(x, y),
    ensures
        sz(y) == spec_sz(x),
        rec_len(y) == spec_conv_len(x),
        flat_ok(y),
    decreases x, 0int,
{
    match x {
        NestedExpr::Binop { lhs, rhs, .. } => {
            lemma_sched_of(*lhs, *y->Binop_lhs);
            lemma_sched_of(*rhs, *y->Binop_rhs);
        },
        NestedExpr::Uop { expr, .. } => {
            lemma_sched_of(*expr, *y->Uop_expr);
        },
        NestedExpr::Conditional { if_true, guard, if_false, .. } => {
            lemma_sched_of(*if_true, *y->Conditional_if_true);
            lemma_sched_of(*guard, *y->Conditional_guard);
            lemma_sched_of(*if_false, *y->Conditional_if_false);
        },
        NestedExpr::Term(SpecTerm::Lit { lit: SpecLiteral::Tuple(v), .. }) => {
            let w = y->Term_0->Lit_lit->Tuple_0;
            lemma_sched_of_list(v@, w@);
            assert(term_sz(y->Term_0) == szs(w@) + 2);
        },
        NestedExpr::Term(SpecTerm::Lit { lit: SpecLiteral::Array(v), .. }) => {
            let w = y->Term_0->Lit_lit->Array_0;
            lemma_sched_of_list(v@, w@);
            assert(term_sz(y->Term_0) == szs(w@) + 2);
        },
        NestedExpr::Term(SpecTerm::Lit { .. }) => {
            assert(term_sz(y->Term_0) == 1);
        },
        NestedExpr::Term(SpecTerm::Var { .. }) => {
            assert(term_sz(y->Term_0) == 1);
        },
        _ => {},
    }
}

/// The list form of `lemma_sched_of`.
proof fn lemma_sched_of_list(v: Seq<SpecExpr>, w: Seq<SchedExpr>)
    requires
        sched_of_list(v, w),
    ensures
        szs(w) == spec_szs(v),
        rec_lens(w) == spec_conv_lens(v),
        flat_oks(w),
    decreases v, 1int,
{
    if v.len() > 0 {
        lemma_sched_of_list(v.drop_last(), w.drop_last());
        lemma_sched_of(v.last(), w.last());
    }
}

/// Flattening the scheduling form of a template expression is flattening the
/// template expression; unless it is a tuple, what it leaves is a variable.
proof fn lemma_conv_flat(x: SpecExpr, y: SchedExpr, fi: Info, n: int, ins: Seq<SchedStmt>, r: SchedExpr)
    requires
        sched_of(x, y),
        flat_rec(y, fi, n, ins, r),
    ensures
        flat_conv(x, fi, n, ins, r),
        !(x matches NestedExpr::Term(SpecTerm::Lit { lit: SpecLiteral::Tuple(_), .. })) ==> (r matches NestedExpr::Term(
            SchedTerm::Var { info, tag: None, .. },
        ) && info == conv_info(x, fi)),
    decreases x, 0int,
{
    match x {
        NestedExpr::Binop { lhs, rhs, .. } => {
            let ly = *y->Binop_lhs;
            let ry = *y->Binop_rhs;
            lemma_sched_of(*lhs, ly);
            lemma_sched_of(*rhs, ry);
            let a = rec_len(ly) as int;
            let b = rec_len(ry) as int;
            let d = ins[a + b]->Decl_expr->Some_0;
            lemma_conv_flat(*lhs, ly, fi, n, ins.take(a), *d->Binop_lhs);
            lemma_conv_flat(*rhs, ry, fi, n + a, ins.subrange(a, a + b), *d->Binop_rhs);
            assert(flat_conv(x, fi, n, ins, r));
        },
        NestedExpr::Uop { expr, .. } => {
            let ey = *y->Uop_expr;
            lemma_sched_of(*expr, ey);
            let a = rec_len(ey) as int;
            let d = ins[a]->Decl_expr->Some_0;
            lemma_conv_flat(*expr, ey, fi, n, ins.take(a), *d->Uop_expr);
        },
        NestedExpr::Conditional { if_true, guard, if_false, .. } => {
            let ty = *y->Conditional_if_true;
            let gy = *y->Conditional_guard;
            let fy = *y->Conditional_if_false;
            lemma_sched_of(*if_true, ty);
            lemma_sched_of(*guard, gy);
            lemma_sched_of(*if_false, fy);
            let g = rec_len(gy) as int;
            let t = rec_len(ty) as int;
            let f = rec_len(fy) as int;
            let d = ins[g + t + f]->Decl_expr->Some_0;
            lemma_conv_flat(*guard, gy, fi, n, ins.take(g), *d->Conditional_guard);
            lemma_conv_flat(*if_true, ty, fi, n + g, ins.subrange(g, g + t), *d->Conditional_if_true);
            lemma_conv_flat(*if_false, fy, fi, n + g + t, ins.subrange(g + t, g + t + f), *d->Conditional_if_false);
        },
        NestedExpr::Term(SpecTerm::Lit { lit: SpecLiteral::Tuple(v), info }) => {
            assert(flat_term(y->Term_0, n, ins, r));
            let w = y->Term_0->Lit_lit->Tuple_0;
            let w2 = r->Term_0->Lit_lit->Tuple_0;
            lemma_conv_flat_list(v@, w@, fi, n, ins, w2@, info);
        },
        NestedExpr::Term(SpecTerm::Lit { lit, .. }) => {
            assert(flat_term(y->Term_0, n, ins, r));
            let t2 = ins[0]->Decl_expr->Some_0->Term_0->Lit_tag;
            assert(same_tags(None, t2));
        },
        NestedExpr::Term(SpecTerm::Var { .. }) => {
            assert(flat_term(y->Term_0, n, ins, r));
        },
        _ => {},
    }
}

/// The list form of `lemma_conv_flat`.
proof fn lemma_conv_flat_list(
    v: Seq<SpecExpr>,
    w: Seq<SchedExpr>,
    fi: Info,
    n: int,
    ins: Seq<SchedStmt>,
    w2: Seq<SchedExpr>,
    li: Info,
)
    requires
        sched_of_list(v, w),
        flat_list(w, li, n, ins, w2),
    ensures
        flat_conv_list(v, li, n, ins, w2),
    decreases v, 1int,
{
    if v.len() > 0 {
        lemma_sched_of_list(v.drop_last(), w.drop_last());
        let p = rec_lens(w.drop_last()) as int;
        lemma_conv_flat_list(v.drop_last(), w.drop_last(), fi, n, ins.take(p), w2.drop_last(), li);
        lemma_conv_flat(v.last(), w.last(), li, n + p, ins.skip(p), w2.last());
        lemma_sched_of(v.last(), w.last());
    }
}

// ---------------------------------------------------------------------------
// Flattening scheduling expressions.
// ---------------------------------------------------------------------------

/// The name of the `n`-th temporary.
fn temp_name(n: usize) -> (res: String)
    ensures
        res@ == temp_text(n as int),
{
    let mut s = text_of("_f");
    let d = usize_to_text(n);
    s.append(d.as_str());
    proof {
        reveal_strlit("_f");
        assert(s@ =~= temp_text(n as int));
    }
    s
}

/// The declaration of the `n`-th temporary with the value `e`.
fn temp_decl(info: Info, n: usize, e: SchedExpr) -> (res: SchedStmt)
    ensures
        is_temp_decl(res, info, n as int, e),
{
    let mut lhs: Vec<(String, Option<FullType>)> = Vec::new();
    lhs.push((temp_name(n), None));
    SchedStmt::Decl { info, lhs, is_const: true, expr: Some(e) }
}

/// A use of the `n`-th temporary.
fn temp_var(info: Info, n: usize, tag: Option<Tags>) -> (res: SchedExpr)
    ensures
        is_temp_var(res, info, n as int, tag),
{
    NestedExpr::Term(SchedTerm::Var { info, name: temp_name(n), tag })
}

/// A copy of a tag.
fn dup_tag(t: &Tag) -> (res: Tag)
    ensures
        same_tag(*t, res),
{
    let spec_var = match &t.quot_var.spec_var {
        Some(v) => Some(v.clone()),
        None => None,
    };
    Tag {
        quot: t.quot,
        quot_var: crate::ast::QuotientReference { spec_type: t.quot_var.spec_type, spec_var },
        flow: t.flow,
    }
}

/// A copy of an optional list of tags.
fn dup_tags(t: &Option<Tags>) -> (res: Option<Tags>)
    ensures
        same_tags(*t, res),
{
    match t {
        None => None,
        Some(v) => {
            let mut out: Vec<Tag> = Vec::new();
            let mut i: usize = 0;
            while i < v.len()
                invariant
                    i <= v@.len(),
                    out@.len() == i,
                    forall|j: int| 0 <= j < i ==> #[trigger] same_tag(v@[j], out@[j]),
                decreases v@.len() - i,
            {
                out.push(dup_tag(&v[i]));
                i += 1;
            }
            Some(out)
        },
    }
}

/// A template expression without calls written in the scheduling language.
pub fn spec_to_sched(x: SpecExpr) -> (res: SchedExpr)
    requires
        no_calls(x),
    ensures
        sched_of(x, res),
    decreases x, 0int,
{
    match x {
        NestedExpr::Binop { info, op, lhs, rhs } => {
            let l = spec_to_sched(*lhs);
            let r = spec_to_sched(*rhs);
            NestedExpr::Binop { info, op, lhs: Box::new(l), rhs: Box::new(r) }
        },
        NestedExpr::Uop { info, op, expr } => {
            let e = spec_to_sched(*expr);
            NestedExpr::Uop { info, op, expr: Box::new(e) }
        },
        NestedExpr::Conditional { info, if_true, guard, if_false } => {
            let t = spec_to_sched(*if_true);
            let g = spec_to_sched(*guard);
            let f = spec_to_sched(*if_false);
            NestedExpr::Conditional { info, if_true: Box::new(t), guard: Box::new(g), if_false: Box::new(f) }
        },
        NestedExpr::Term(SpecTerm::Var { info, name }) => NestedExpr::Term(SchedTerm::Var { info, name, tag: None }),
        NestedExpr::Term(SpecTerm::Lit { info, lit }) => {
            let l = match lit {
                SpecLiteral::Int(v) => SchedLiteral::Int(v),
                SpecLiteral::Float(v) => SchedLiteral::Float(v),
                SpecLiteral::Bool(b) => SchedLiteral::Bool(b),
                SpecLiteral::Tuple(v) => SchedLiteral::Tuple(specs_to_sched(v)),
                SpecLiteral::Array(v) => SchedLiteral::Array(specs_to_sched(v)),
            };
            NestedExpr::Term(SchedTerm::Lit { info, lit: l, tag: None })
        },
        NestedExpr::Term(SpecTerm::Call { info, .. }) => {
            proof {
                assert(false);
            }
            NestedExpr::Term(SchedTerm::Hole(info))
        },
    }
}

/// Template expressions without calls written in the scheduling language.
fn specs_to_sched(v: Vec<SpecExpr>) -> (res: Vec<SchedExpr>)
    requires
        no_calls_from(v@),
    ensures
        sched_of_list(v@, res@),
    decreases v, 1int,
{
    let ghost v0 = v;
    let ghost orig = v@;
    proof {
        lemma_no_calls_elem(orig);
    }
    let n = v.len();
    let mut rest = v;
    let mut out: Vec<SchedExpr> = Vec::new();
    let mut i: usize = 0;
    assert(orig.take(0) =~= Seq::<SpecExpr>::empty());
    while rest.len() > 0
        invariant
            orig == v0@,
            v0 == v,
            n == orig.len(),
            i + rest@.len() == orig.len(),
            rest@ == orig.skip(i as int),
            forall|j: int| 0 <= j < orig.len() ==> no_calls(#[trigger] orig[j]),
            sched_of_list(orig.take(i as int), out@),
        decreases rest@.len(),
    {
        let x = rest.remove(0);
        assert(x == orig[i as int]);
        let ghost old_out = out@;
        proof {
            assert(decreases_to!(v0 => v0@[i as int]));
            assert(orig.take(i + 1).drop_last() =~= orig.take(i as int));
        }
        let y = spec_to_sched(x);
        out.push(y);
        assert(out@.drop_last() =~= old_out);
        i += 1;
    }
    assert(orig.take(i as int) =~= orig);
    out
}

/// Flattens a nested expression into a term: every operation and call is
/// declared as a temporary, in order of evaluation, and the expression is
/// replaced by the last temporary. Temporaries of operations are declared at
/// `info`. Gives the declarations, the next temporary number and the term.
#[verifier::rlimit(40)]
pub fn flatten_rec(e: SchedExpr, info: Info, temp_num: usize) -> (res: (Vec<SchedStmt>, usize, SchedExpr))
    requires
        flat_ok(e),
        temp_num + rec_len(e) <= usize::MAX,
    ensures
        res.0@.len() == rec_len(e),
        res.1 == temp_num + rec_len(e),
        flat_rec(e, info, temp_num as int, res.0@, res.2),
    decreases sz(e),
{
    match e {
        NestedExpr::Binop { info: bi, op, lhs, rhs } => {
            let (mut ins, n1, l) = flatten_rec(*lhs, info, temp_num);
            let (mut ins2, n2, r) = flatten_rec(*rhs, info, n1);
            let ghost a = ins@;
            let ghost b = ins2@;
            ins.append(&mut ins2);
            let d = temp_decl(info, n2, NestedExpr::Binop { info: bi, op, lhs: Box::new(l), rhs: Box::new(r) });
            ins.push(d);
            proof {
                assert(ins@.take(a.len() as int) =~= a);
                assert(ins@.subrange(a.len() as int, a.len() + b.len() as int) =~= b);
            }
            (ins, n2 + 1, temp_var(info, n2, None))
        },
        NestedExpr::Uop { info: ui, op, expr } => {
            let (mut ins, n1, x) = flatten_rec(*expr, info, temp_num);
            let ghost a = ins@;
            let d = temp_decl(info, n1, NestedExpr::Uop { info: ui, op, expr: Box::new(x) });
            ins.push(d);
            proof {
                assert(ins@.take(a.len() as int) =~= a);
            }
            (ins, n1 + 1, temp_var(info, n1, None))
        },
        NestedExpr::Conditional { info: ci, if_true, guard, if_false } => {
            let (mut ins, n1, g) = flatten_rec(*guard, info, temp_num);
            let (mut ins2, n2, t) = flatten_rec(*if_true, info, n1);
            let (mut ins3, n3, f) = flatten_rec(*if_false, info, n2);
            let ghost a = ins@;
            let ghost b = ins2@;
            let ghost c = ins3@;
            ins.append(&mut ins2);
            ins.append(&mut ins3);
            let d = temp_decl(
                info,
                n3,
                NestedExpr::Conditional { info: ci, if_true: Box::new(t), guard: Box::new(g), if_false: Box::new(f) },
            );
            ins.push(d);
            proof {
                assert(ins@.take(a.len() as int) =~= a);
                assert(ins@.subrange(a.len() as int, a.len() + b.len() as int) =~= b);
                assert(ins@.subrange(a.len() + b.len() as int, a.len() + b.len() + c.len() as int) =~= c);
            }
            (ins, n3 + 1, temp_var(info, n3, None))
        },
        NestedExpr::Term(t) => flatten_sched_term(t, temp_num),
    }
}

/// Flattens a term into a term without nested expressions: a call or a
/// literal (but a tuple) becomes a temporary, a tuple has its parts flattened.
fn flatten_sched_term(t: SchedTerm, temp_num: usize) -> (res: (Vec<SchedStmt>, usize, SchedExpr))
    requires
        flat_ok(NestedExpr::Term(t)),
        temp_num + rec_len(NestedExpr::Term(t)) <= usize::MAX,
    ensures
        res.0@.len() == rec_len(NestedExpr::Term(t)),
        res.1 == temp_num + rec_len(NestedExpr::Term(t)),
        flat_term(t, temp_num as int, res.0@, res.2),
    decreases term_sz(t),
{
    match t {
        SchedTerm::Call(info, call) => flatten_sched_call(call, temp_num, info),
        SchedTerm::Var { info, name, tag } => (Vec::new(), temp_num, NestedExpr::Term(SchedTerm::Var { info, name, tag })),
        SchedTerm::Hole(info) => (Vec::new(), temp_num, NestedExpr::Term(SchedTerm::Hole(info))),
        SchedTerm::Lit { info, lit: SchedLiteral::Tuple(v), tag } => {
            let (ins, n1, w) = flatten_call_args(v, info, temp_num);
            (ins, n1, NestedExpr::Term(SchedTerm::Lit { info, lit: SchedLiteral::Tuple(w), tag }))
        },
        SchedTerm::Lit { info, lit, tag } => {
            let t2 = dup_tags(&tag);
            let ghost t2g = t2;
            let d = temp_decl(info, temp_num, NestedExpr::Term(SchedTerm::Lit { info, lit, tag: t2 }));
            let mut ins: Vec<SchedStmt> = Vec::new();
            ins.push(d);
            let r = temp_var(info, temp_num, tag);
            assert(ins@[0] == d);
            assert(same_tags(tag, t2g));
            (ins, temp_num + 1, r)
        },
    }
}

/// Flattens a call into a temporary: its arguments are flattened first.
fn flatten_sched_call(call: SchedFuncCall, temp_num: usize, info: Info) -> (res: (Vec<SchedStmt>, usize, SchedExpr))
    requires
        call_flat_ok(call),
        temp_num + children_len(call) + 1 <= usize::MAX,
    ensures
        res.0@.len() == children_len(call) + 1,
        res.1 == temp_num + children_len(call) + 1,
        flat_term(SchedTerm::Call(info, call), temp_num as int, res.0@, res.2),
    decreases call_sz(call) + 1,
{
    let (mut ins, n1, x) = flatten_sched_term_children(info, call, temp_num);
    let ghost a = ins@;
    let ghost xg = x;
    let d = temp_decl(info, n1, x);
    ins.push(d);
    proof {
        assert(ins@.take(a.len() as int) =~= a);
    }
    (ins, n1 + 1, temp_var(info, n1, None))
}

/// Flattens the arguments and value template arguments of a call, keeping the call.
fn flatten_sched_term_children(info: Info, call: SchedFuncCall, temp_num: usize) -> (res: (Vec<SchedStmt>, usize, SchedExpr))
    requires
        call_flat_ok(call),
        temp_num + children_len(call) <= usize::MAX,
    ensures
        res.0@.len() == children_len(call),
        res.1 == temp_num + children_len(call),
        flat_children(info, call, temp_num as int, res.0@, res.2),
    decreases call_sz(call),
{
    let ghost c0 = call;
    let SchedFuncCall { target, templates, args, tag, yield_call } = call;
    let (mut ins, n1, templates2) = match templates {
        Some(TemplateArgs::Vals(vs)) => {
            let (i1, n1, ws) = flatten_tmpl_args(vs, info, temp_num);
            (i1, n1, Some(TemplateArgs::Vals(ws)))
        },
        other => (Vec::new(), temp_num, other),
    };
    let ghost tl = ins@;
    let (mut ins2, n2, args2) = match *args {
        ArgsOrEnc::Args(v) => {
            let (i2, n2, w) = flatten_call_args(v, info, n1);
            (i2, n2, ArgsOrEnc::Args(w))
        },
        ArgsOrEnc::Encode(EncodedStmt::Move { info: mi, lhs, rhs }) => {
            let (i2, n2, r) = flatten_rec(rhs, info, n1);
            (i2, n2, ArgsOrEnc::Encode(EncodedStmt::Move { info: mi, lhs, rhs: r }))
        },
    };
    let ghost al = ins2@;
    ins.append(&mut ins2);
    proof {
        assert(ins@.take(tl.len() as int) =~= tl);
        assert(ins@.skip(tl.len() as int) =~= al);
    }
    let c2 = SchedFuncCall { target, templates: templates2, args: Box::new(args2), tag, yield_call };
    (ins, n2, NestedExpr::Term(SchedTerm::Call(info, c2)))
}

/// Flattens a list of expressions one after the other.
fn flatten_call_args(v: Vec<SchedExpr>, info: Info, temp_num: usize) -> (res: (Vec<SchedStmt>, usize, Vec<SchedExpr>))
    requires
        flat_oks(v@),
        temp_num + rec_lens(v@) <= usize::MAX,
    ensures
        res.0@.len() == rec_lens(v@),
        res.1 == temp_num + rec_lens(v@),
        flat_list(v@, info, temp_num as int, res.0@, res.2@),
    decreases szs(v@) + 1,
{
    let ghost v0 = v;
    let ghost orig = v@;
    proof {
        lemma_flat_oks_elem(orig);
        assert(orig.take(0) =~= Seq::<SchedExpr>::empty());
    }
    let len = v.len();
    let mut rest = v;
    let mut ins: Vec<SchedStmt> = Vec::new();
    let mut out: Vec<SchedExpr> = Vec::new();
    let mut n = temp_num;
    let mut i: usize = 0;
    while rest.len() > 0
        invariant
            v0 == v,
            orig == v0@,
            len == orig.len(),
            i + rest@.len() == orig.len(),
            rest@ == orig.skip(i as int),
            forall|j: int| 0 <= j < orig.len() ==> flat_ok(#[trigger] orig[j]),
            temp_num + rec_lens(orig) <= usize::MAX,
            ins@.len() == rec_lens(orig.take(i as int)),
            n == temp_num + rec_lens(orig.take(i as int)),
            flat_list(orig.take(i as int), info, temp_num as int, ins@, out@),
        decreases rest@.len(),
    {
        let x = rest.remove(0);
        assert(x == orig[i as int]);
        let ghost old_ins = ins@;
        let ghost old_out = out@;
        proof {
            lemma_szs_elem(orig, i as int);
            assert(orig.take(i + 1).drop_last() =~= orig.take(i as int));
            assert(orig.take(i + 1).last() == x);
            lemma_rec_lens_prefix(orig, i + 1);
        }
        let (mut xi, n1, y) = flatten_rec(x, info, n);
        let ghost xs = xi@;
        ins.append(&mut xi);
        out.push(y);
        proof {
            assert(ins@.take(old_ins.len() as int) =~= old_ins);
            assert(ins@.skip(old_ins.len() as int) =~= xs);
            assert(out@.drop_last() =~= old_out);
        }
        n = n1;
        i += 1;
    }
    assert(orig.take(i as int) =~= orig);
    (ins, n, out)
}

/// Flattens the value template arguments of a call, in their scheduling form;
/// each is left as a variable.
fn flatten_tmpl_args(vs: Vec<SpecExpr>, info: Info, temp_num: usize) -> (res: (Vec<SchedStmt>, usize, Vec<SpecExpr>))
    requires
        tmpls_ok(vs@),
        temp_num + spec_conv_lens(vs@) <= usize::MAX,
    ensures
        res.0@.len() == spec_conv_lens(vs@),
        res.1 == temp_num + spec_conv_lens(vs@),
        flat_tmpls(vs@, info, temp_num as int, res.0@, res.2@),
    decreases spec_szs(vs@) + 1,
{
    let ghost v0 = vs;
    let ghost orig = vs@;
    proof {
        lemma_tmpls_ok_elem(orig);
        assert(orig.take(0) =~= Seq::<SpecExpr>::empty());
    }
    let len = vs.len();
    let mut rest = vs;
    let mut ins: Vec<SchedStmt> = Vec::new();
    let mut out: Vec<SpecExpr> = Vec::new();
    let mut n = temp_num;
    let mut i: usize = 0;
    while rest.len() > 0
        invariant
            v0 == vs,
            orig == v0@,
            len == orig.len(),
            i + rest@.len() == orig.len(),
            rest@ == orig.skip(i as int),
            forall|j: int| 0 <= j < orig.len() ==> tmpl_ok(#[trigger] orig[j]),
            temp_num + spec_conv_lens(orig) <= usize::MAX,
            ins@.len() == spec_conv_lens(orig.take(i as int)),
            n == temp_num + spec_conv_lens(orig.take(i as int)),
            flat_tmpls(orig.take(i as int), info, temp_num as int, ins@, out@),
        decreases rest@.len(),
    {
        let x = rest.remove(0);
        assert(x == orig[i as int]);
        let ghost xg = x;
        let ghost old_ins = ins@;
        let ghost old_out = out@;
        proof {
            lemma_spec_szs_elem(orig, i as int);
            assert(orig.take(i + 1).drop_last() =~= orig.take(i as int));
            assert(orig.take(i + 1).last() == x);
            lemma_spec_conv_lens_prefix(orig, i + 1);
        }
        let y = spec_to_sched(x);
        proof {
            lemma_sched_of(xg, y);
        }
        let ghost yg = y;
        let (mut xi, n1, r) = flatten_rec(y, info, n);
        proof {
            lemma_conv_flat(xg, yg, info, n as int, xi@, r);
        }
        let w = match r {
            NestedExpr::Term(SchedTerm::Var { name, .. }) => NestedExpr::Term(SpecTerm::Var { info, name }),
            _ => {
                proof {
                    assert(false);
                }
                NestedExpr::Term(SpecTerm::Var { info, name: String::new() })
            },
        };
        let ghost xs = xi@;
        ins.append(&mut xi);
        out.push(w);
        proof {
            assert(ins@.take(old_ins.len() as int) =~= old_ins);
            assert(ins@.skip(old_ins.len() as int) =~= xs);
            assert(out@.drop_last() =~= old_out);
        }
        n = n1;
        i += 1;
    }
    assert(orig.take(i as int) =~= orig);
    (ins, n, out)
}

// ---------------------------------------------------------------------------
// Top-level expressions and statements.
// ---------------------------------------------------------------------------

/// The declarations that flattening `e` as a top-level expression emits: its
/// operands are flattened into terms, a call keeps its place with flat arguments.
pub open spec fn top_len(e: SchedExpr) -> nat {
    match e {
        NestedExpr::Binop { lhs, rhs, .. } => rec_len(*lhs) + rec_len(*rhs),
        NestedExpr::Uop { expr, .. } => rec_len(*expr),
        NestedExpr::Conditional { if_true, guard, if_false, .. } => rec_len(*guard) + rec_len(*if_true) + rec_len(
            *if_false,
        ),
        NestedExpr::Term(SchedTerm::Call(_, call)) => children_len(call),
        NestedExpr::Term(SchedTerm::Lit { lit: SchedLiteral::Tuple(v), .. }) => rec_lens(v@),
        NestedExpr::Term(_) => 0,
    }
}

/// The temporary numbers that flattening `e` as a top-level expression uses up:
/// one per declaration, and one more for a conditional.
pub open spec fn top_temps(e: SchedExpr) -> nat {
    top_len(e) + if e is Conditional {
        1nat
    } else {
        0nat
    }
}

/// Flattening `e` as a top-level expression, with temporaries from the `n`-th
/// on declared at `fi`, emits `ins` and leaves `r`, whose operands are terms.
pub open spec fn flat_top(e: SchedExpr, fi: Info, n: int, ins: Seq<SchedStmt>, r: SchedExpr) -> bool {
    match e {
        NestedExpr::Binop { info, op, lhs, rhs } => {
            let a = rec_len(*lhs) as int;
            let b = rec_len(*rhs) as int;
            &&& ins.len() == a + b
            &&& r matches NestedExpr::Binop { info: i, op: o, lhs: l2, rhs: r2 }
            &&& i == info
            &&& o == op
            &&& flat_rec(*lhs, fi, n, ins.take(a), *l2)
            &&& flat_rec(*rhs, fi, n + a, ins.skip(a), *r2)
        },
        NestedExpr::Uop { info, op, expr } => {
            &&& r matches NestedExpr::Uop { info: i, op: o, expr: x2 }
            &&& i == info
            &&& o == op
            &&& flat_rec(*expr, fi, n, ins, *x2)
        },
        NestedExpr::Conditional { info, if_true, guard, if_false } => {
            let g = rec_len(*guard) as int;
            let t = rec_len(*if_true) as int;
            let f = rec_len(*if_false) as int;
            &&& ins.len() == g + t + f
            &&& r matches NestedExpr::Conditional { info: i, if_true: t2, guard: g2, if_false: f2 }
            &&& i == info
            &&& flat_rec(*guard, fi, n, ins.take(g), *g2)
            &&& flat_rec(*if_true, fi, n + g, ins.subrange(g, g + t), *t2)
            &&& flat_rec(*if_false, fi, n + g + t, ins.skip(g + t), *f2)
        },
        NestedExpr::Term(SchedTerm::Call(info, call)) => flat_children(info, call, n, ins, r),
        NestedExpr::Term(SchedTerm::Lit { info, lit: SchedLiteral::Tuple(v), tag }) => flat_term(
            SchedTerm::Lit { info, lit: SchedLiteral::Tuple(v), tag },
            n,
            ins,
            r,
        ),
        NestedExpr::Term(_) => ins.len() == 0 && r == e,
    }
}

/// Flattens a top-level expression: the operands of its operation become
/// terms, or the arguments of its call do. Temporaries are declared at `info`.
/// Gives the declarations, the next temporary number and the flat expression.
pub fn flatten_top_level(e: SchedExpr, info: Info, temp_num: usize) -> (res: (Vec<SchedStmt>, usize, SchedExpr))
    requires
        flat_ok(e),
        temp_num + top_temps(e) <= usize::MAX,
    ensures
        res.0@.len() == top_len(e),
        res.1 == temp_num + top_temps(e),
        flat_top(e, info, temp_num as int, res.0@, res.2),
{
    match e {
        NestedExpr::Binop { info: bi, op, lhs, rhs } => {
            let (mut ins, n1, l) = flatten_rec(*lhs, info, temp_num);
            let (mut ins2, n2, r) = flatten_rec(*rhs, info, n1);
            let ghost a = ins@;
            let ghost b = ins2@;
            ins.append(&mut ins2);
            proof {
                assert(ins@.take(a.len() as int) =~= a);
                assert(ins@.skip(a.len() as int) =~= b);
            }
            (ins, n2, NestedExpr::Binop { info: bi, op, lhs: Box::new(l), rhs: Box::new(r) })
        },
        NestedExpr::Uop { info: ui, op, expr } => {
            let (ins, n1, x) = flatten_rec(*expr, info, temp_num);
            (ins, n1, NestedExpr::Uop { info: ui, op, expr: Box::new(x) })
        },
        NestedExpr::Conditional { info: ci, if_true, guard, if_false } => {
            let (mut ins, n1, g) = flatten_rec(*guard, info, temp_num);
            let (mut ins2, n2, t) = flatten_rec(*if_true, info, n1);
            let (mut ins3, n3, f) = flatten_rec(*if_false, info, n2);
            let ghost a = ins@;
            let ghost b = ins2@;
            let ghost c = ins3@;
            ins.append(&mut ins2);
            ins.append(&mut ins3);
            proof {
                assert(ins@.take(a.len() as int) =~= a);
                assert(ins@.subrange(a.len() as int, a.len() + b.len() as int) =~= b);
                assert(ins@.skip(a.len() + b.len() as int) =~= c);
            }
            (
                ins,
                n3 + 1,
                NestedExpr::Conditional { info: ci, if_true: Box::new(t), guard: Box::new(g), if_false: Box::new(f) },
            )
        },
        NestedExpr::Term(SchedTerm::Call(ti, call)) => flatten_sched_term_children(ti, call, temp_num),
        NestedExpr::Term(SchedTerm::Lit { info: li, lit: SchedLiteral::Tuple(v), tag }) => {
            flatten_sched_term(SchedTerm::Lit { info: li, lit: SchedLiteral::Tuple(v), tag }, temp_num)
        },
        other => (Vec::new(), temp_num, other),
    }
}

/// The temporary numbers that flattening the statement `st` uses up.
pub open spec fn stmt_temps(st: SchedStmt) -> nat
    decreases st, 0int,
{
    match st {
        SchedStmt::Decl { expr: Some(e), is_const, .. } => if is_const {
            top_temps(e)
        } else {
            rec_len(e)
        },
        SchedStmt::Assign { lhs, rhs, .. } => rec_len(lhs) + rec_len(rhs),
        SchedStmt::Return(_, e) => rec_len(e),
        SchedStmt::If { guard, true_block, false_block, .. } => rec_len(guard) + list_temps(true_block@) + list_temps(
            false_block@,
        ),
        SchedStmt::Block(_, ss) => list_temps(ss@),
        SchedStmt::Sequence { block, .. } => stmt_temps(*block),
        _ => 0,
    }
}

/// The temporary numbers that flattening the statements `s` uses up.
pub open spec fn list_temps(s: Seq<SchedStmt>) -> nat
    decreases s, 1int,
{
    if s.len() == 0 {
        0
    } else {
        list_temps(s.drop_last()) + stmt_temps(s.last())
    }
}

/// The number of statements that flattening the statement `st` gives.
pub open spec fn stmt_out_len(st: SchedStmt) -> nat
    decreases st, 0int,
{
    match st {
        SchedStmt::Decl { expr: Some(e), is_const, .. } => if is_const {
            top_len(e) + 1
        } else {
            rec_len(e) + 1
        },
        SchedStmt::Assign { lhs, rhs, .. } => rec_len(lhs) + rec_len(rhs) + 1,
        SchedStmt::Return(_, e) => rec_len(e) + 1,
        SchedStmt::If { guard, .. } => rec_len(guard) + 1,
        SchedStmt::Sequence { block, .. } => stmt_out_len(*block),
        SchedStmt::Call(..) => 0,
        _ => 1,
    }
}

/// The number of statements that flattening the statements `s` gives.
pub open spec fn list_out_len(s: Seq<SchedStmt>) -> nat
    decreases s.len(),
{
    if s.len() == 0 {
        0
    } else {
        list_out_len(s.drop_last()) + stmt_out_len(s.last())
    }
}

/// The statement can be flattened: a constant declaration has a value, there
/// is no call statement, and every expression can be flattened.
pub open spec fn stmt_flat_ok(st: SchedStmt) -> bool
    decreases st, 0int,
{
    match st {
        SchedStmt::Decl { expr, is_const, .. } => match expr {
            Some(e) => flat_ok(e),
            None => !is_const,
        },
        SchedStmt::Assign { lhs, rhs, .. } => flat_ok(lhs) && flat_ok(rhs),
        SchedStmt::Return(_, e) => flat_ok(e),
        SchedStmt::If { guard, true_block, false_block, .. } => flat_ok(guard) && list_flat_ok(true_block@)
            && list_flat_ok(false_block@),
        SchedStmt::Block(_, ss) => list_flat_ok(ss@),
        SchedStmt::Sequence { block, .. } => stmt_flat_ok(*block),
        SchedStmt::Call(..) => false,
        _ => true,
    }
}

/// The statements can be flattened.
pub open spec fn list_flat_ok(s: Seq<SchedStmt>) -> bool
    decreases s, 1int,
{
    if s.len() == 0 {
        true
    } else {
        list_flat_ok(s.drop_last()) && stmt_flat_ok(s.last())
    }
}

/// Flattening the statement `st`, with temporaries from the `n`-th on, gives the
/// statements `out`: the declarations of its temporaries, then the statement
/// with flat expressions.
pub open spec fn flat_stmt(st: SchedStmt, n: int, out: Seq<SchedStmt>) -> bool
    decreases st, 0int,
{
    match st {
        SchedStmt::Decl { info, lhs, expr: Some(e), is_const } => {
            let a = if is_const {
                top_len(e) as int
            } else {
                rec_len(e) as int
            };
            &&& out.len() == a + 1
            &&& out[a] matches SchedStmt::Decl { info: i, lhs: l, expr: Some(x), is_const: k }
            &&& i == info
            &&& l == lhs
            &&& k == is_const
            &&& if is_const {
                flat_top(e, info, n, out.take(a), x)
            } else {
                flat_rec(e, info, n, out.take(a), x)
            }
        },
        SchedStmt::Assign { info, lhs, rhs, lhs_is_ref } => {
            let a = rec_len(lhs) as int;
            let b = rec_len(rhs) as int;
            &&& out.len() == a + b + 1
            &&& out[a + b] matches SchedStmt::Assign { info: i, lhs: l2, rhs: r2, lhs_is_ref: k }
            &&& i == info
            &&& k == lhs_is_ref
            &&& flat_rec(lhs, info, n, out.take(a), l2)
            &&& flat_rec(rhs, info, n + a, out.subrange(a, a + b), r2)
        },
        SchedStmt::Return(info, e) => {
            let a = rec_len(e) as int;
            &&& out.len() == a + 1
            &&& out[a] matches SchedStmt::Return(i, x)
            &&& i == info
            &&& flat_rec(e, info, n, out.take(a), x)
        },
        SchedStmt::If { info, guard, tag, true_block, false_block } => {
            let a = rec_len(guard) as int;
            &&& out.len() == a + 1
            &&& out[a] matches SchedStmt::If { info: i, guard: g, tag: t, true_block: tb, false_block: fb }
            &&& i == info
            &&& t == tag
            &&& flat_rec(guard, info, n, out.take(a), g)
            &&& flat_stmts(true_block@, n + a, tb@)
            &&& flat_stmts(false_block@, n + a + list_temps(true_block@), fb@)
        },
        SchedStmt::Block(info, ss) => {
            &&& out.len() == 1
            &&& out[0] matches SchedStmt::Block(i, ss2)
            &&& i == info
            &&& flat_stmts(ss@, n, ss2@)
        },
        SchedStmt::Sequence { info, dests, block, is_const } => {
            let m = stmt_out_len(*block) as int;
            &&& out.len() == m
            &&& m >= 1
            &&& out[m - 1] matches SchedStmt::Sequence { info: i, dests: d, block: b, is_const: k }
            &&& i == info
            &&& d == dests
            &&& k == is_const
            &&& flat_stmt(*block, n, out.take(m - 1).push(*b))
        },
        SchedStmt::Call(..) => false,
        _ => out == seq![st],
    }
}

/// Flattening the statements `s` in order, with temporaries from the `n`-th on,
/// gives the statements `out`.
pub open spec fn flat_stmts(s: Seq<SchedStmt>, n: int, out: Seq<SchedStmt>) -> bool
    decreases s, 1int,
{
    if s.len() == 0 {
        out.len() == 0
    } else {
        let p = list_out_len(s.drop_last()) as int;
        &&& out.len() == p + stmt_out_len(s.last())
        &&& flat_stmts(s.drop_last(), n, out.take(p))
        &&& flat_stmt(s.last(), n + list_temps(s.drop_last()), out.skip(p))
    }
}

/// Each statement of a list that can be flattened can be flattened.
proof fn lemma_list_flat_ok_elem(s: Seq<SchedStmt>)
    requires
        list_flat_ok(s),
    ensures
        forall|j: int| 0 <= j < s.len() ==> stmt_flat_ok(#[trigger] s[j]),
    decreases s.len(),
{
    if s.len() > 0 {
        lemma_list_flat_ok_elem(s.drop_last());
        assert forall|j: int| 0 <= j < s.len() implies stmt_flat_ok(#[trigger] s[j]) by {
            if j < s.len() - 1 {
                assert(s.drop_last()[j] == s[j]);
            }
        }
    }
}

/// A prefix of a list of statements uses up no more temporaries than the list.
proof fn lemma_list_temps_prefix(s: Seq<SchedStmt>, i: int)
    requires
        0 <= i <= s.len(),
    ensures
        list_temps(s.take(i)) <= list_temps(s),
    decreases s.len(),
{
    if i < s.len() {
        lemma_list_temps_prefix(s.drop_last(), i);
        assert(s.drop_last().take(i) =~= s.take(i));
    } else {
        assert(s.take(i) =~= s);
    }
}

/// Flattening a statement that can be flattened gives at least one statement.
proof fn lemma_stmt_out_len(st: SchedStmt)
    requires
        stmt_flat_ok(st),
    ensures
        stmt_out_len(st) >= 1,
    decreases st,
{
    if let SchedStmt::Sequence { block, .. } = st {
        lemma_stmt_out_len(*block);
    }
}

/// Flattens one statement: the declarations of its temporaries, then the
/// statement itself with flat expressions. Gives the next temporary number too.
fn flatten_stmt(st: SchedStmt, temp_num: usize) -> (res: (Vec<SchedStmt>, usize))
    requires
        stmt_flat_ok(st),
        temp_num + stmt_temps(st) <= usize::MAX,
    ensures
        res.0@.len() == stmt_out_len(st),
        res.1 == temp_num + stmt_temps(st),
        flat_stmt(st, temp_num as int, res.0@),
    decreases st, 0int,
{
    match st {
        SchedStmt::Decl { info, lhs, expr, is_const } => {
            match expr {
                Some(e) => {
                    let (mut ins, n1, x) = if is_const {
                        flatten_top_level(e, info, temp_num)
                    } else {
                        flatten_rec(e, info, temp_num)
                    };
                    let ghost a = ins@;
                    ins.push(SchedStmt::Decl { info, lhs, expr: Some(x), is_const });
                    proof {
                        assert(ins@.take(a.len() as int) =~= a);
                    }
                    (ins, n1)
                },
                None => {
                    let mut out: Vec<SchedStmt> = Vec::new();
                    out.push(SchedStmt::Decl { info, lhs, expr: None, is_const });
                    assert(out@ =~= seq![out@[0]]);
                    (out, temp_num)
                },
            }
        },
        SchedStmt::Assign { info, lhs, rhs, lhs_is_ref } => {
            let (mut ins, n1, l) = flatten_rec(lhs, info, temp_num);
            let (mut ins2, n2, r) = flatten_rec(rhs, info, n1);
            let ghost a = ins@;
            let ghost b = ins2@;
            ins.append(&mut ins2);
            ins.push(SchedStmt::Assign { info, lhs: l, rhs: r, lhs_is_ref });
            proof {
                assert(ins@.take(a.len() as int) =~= a);
                assert(ins@.subrange(a.len() as int, a.len() + b.len() as int) =~= b);
            }
            (ins, n2)
        },
        SchedStmt::Return(info, e) => {
            let (mut ins, n1, x) = flatten_rec(e, info, temp_num);
            let ghost a = ins@;
            ins.push(SchedStmt::Return(info, x));
            proof {
                assert(ins@.take(a.len() as int) =~= a);
            }
            (ins, n1)
        },
        SchedStmt::If { info, guard, tag, true_block, false_block } => {
            let ghost tb0 = true_block@;
            let (mut ins, n1, g) = flatten_rec(guard, info, temp_num);
            let (tb, n2) = flatten_sched_rec(true_block, n1);
            let (fb, n3) = flatten_sched_rec(false_block, n2);
            let ghost a = ins@;
            ins.push(SchedStmt::If { info, guard: g, tag, true_block: tb, false_block: fb });
            proof {
                assert(ins@.take(a.len() as int) =~= a);
            }
            (ins, n3)
        },
        SchedStmt::Block(info, ss) => {
            let (ss2, n1) = flatten_sched_rec(ss, temp_num);
            let mut out: Vec<SchedStmt> = Vec::new();
            out.push(SchedStmt::Block(info, ss2));
            (out, n1)
        },
        SchedStmt::Sequence { info, dests, block, is_const } => {
            let ghost b0 = *block;
            proof {
                lemma_stmt_out_len(b0);
            }
            let (mut out, n1) = flatten_stmt(*block, temp_num);
            let ghost full = out@;
            let last = out.pop().unwrap();
            proof {
                assert(out@.push(last) =~= full);
            }
            out.push(SchedStmt::Sequence { info, dests, block: Box::new(last), is_const });
            proof {
                assert(out@.take(full.len() - 1).push(last) =~= full);
            }
            (out, n1)
        },
        SchedStmt::Call(info, call) => {
            proof {
                assert(false);
            }
            (Vec::new(), temp_num)
        },
        other => {
            let mut out: Vec<SchedStmt> = Vec::new();
            out.push(other);
            assert(out@ =~= seq![out@[0]]);
            (out, temp_num)
        },
    }
}

/// Flattens a list of statements in order. Gives the next temporary number too.
fn flatten_sched_rec(stmts: Vec<SchedStmt>, temp_num: usize) -> (res: (Vec<SchedStmt>, usize))
    requires
        list_flat_ok(stmts@),
        temp_num + list_temps(stmts@) <= usize::MAX,
    ensures
        res.0@.len() == list_out_len(stmts@),
        res.1 == temp_num + list_temps(stmts@),
        flat_stmts(stmts@, temp_num as int, res.0@),
    decreases stmts, 1int,
{
    let ghost v0 = stmts;
    let ghost orig = stmts@;
    proof {
        lemma_list_flat_ok_elem(orig);
        assert(orig.take(0) =~= Seq::<SchedStmt>::empty());
    }
    let len = stmts.len();
    let mut rest = stmts;
    let mut res: Vec<SchedStmt> = Vec::new();
    let mut n = temp_num;
    let mut i: usize = 0;
    while rest.len() > 0
        invariant
            v0 == stmts,
            orig == v0@,
            len == orig.len(),
            i + rest@.len() == orig.len(),
            rest@ == orig.skip(i as int),
            forall|j: int| 0 <= j < orig.len() ==> stmt_flat_ok(#[trigger] orig[j]),
            temp_num + list_temps(orig) <= usize::MAX,
            res@.len() == list_out_len(orig.take(i as int)),
            n == temp_num + list_temps(orig.take(i as int)),
            flat_stmts(orig.take(i as int), temp_num as int, res@),
        decreases rest@.len(),
    {
        let st = rest.remove(0);
        assert(st == orig[i as int]);
        let ghost old_res = res@;
        proof {
            assert(decreases_to!(v0 => v0@[i as int]));
            assert(orig.take(i + 1).drop_last() =~= orig.take(i as int));
            assert(orig.take(i + 1).last() == st);
            lemma_list_temps_prefix(orig, i + 1);
        }
        let (mut piece, n1) = flatten_stmt(st, n);
        let ghost ps = piece@;
        res.append(&mut piece);
        proof {
            assert(res@.take(old_res.len() as int) =~= old_res);
            assert(res@.skip(old_res.len() as int) =~= ps);
        }
        n = n1;
        i += 1;
    }
    assert(orig.take(i as int) =~= orig);
    (res, n)
}

/// Flattens the statements of a scheduling function so that no expression is
/// nested: the temporaries are `_f0`, `_f1`, ... in order.
pub fn flatten_schedule(stmts: Vec<SchedStmt>) -> (res: Vec<SchedStmt>)
    requires
        list_flat_ok(stmts@),
        list_temps(stmts@) <= usize::MAX,
    ensures
        flat_stmts(stmts@, 0, res@),
        list_is_flat(res@),
{
    let ghost s0 = stmts@;
    let (out, _) = flatten_sched_rec(stmts, 0);
    proof {
        law_flatten_schedule_flat(s0, out@);
    }
    out
}

// ---------------------------------------------------------------------------
// Flattening spec functions.
// ---------------------------------------------------------------------------

/// The assignments that flattening the spec expression `x` into a variable emits.
pub open spec fn srec_len(x: SpecExpr) -> nat
    decreases x, 0int,
{
    match x {
        NestedExpr::Binop { lhs, rhs, .. } => srec_len(*lhs) + srec_len(*rhs) + 1,
        NestedExpr::Uop { expr, .. } => srec_len(*expr) + 1,
        NestedExpr::Conditional { if_true, guard, if_false, .. } => srec_len(*guard) + srec_len(*if_true) + srec_len(
            *if_false,
        ) + 1,
        NestedExpr::Term(t) => match t {
            SpecTerm::Call { args, .. } => srec_lens(args@) + 1,
            SpecTerm::Lit { lit: SpecLiteral::Tuple(v), .. } => srec_lens(v@),
            SpecTerm::Lit { .. } => 1,
            SpecTerm::Var { .. } => 0,
        },
    }
}

/// The assignments that flattening the spec expressions `s` emits.
pub open spec fn srec_lens(s: Seq<SpecExpr>) -> nat
    decreases s, 1int,
{
    if s.len() == 0 {
        0
    } else {
        srec_lens(s.drop_last()) + srec_len(s.last())
    }
}

/// `st` assigns the `n`-th temporary, at `info`, the value `e`.
pub open spec fn is_temp_assign(st: SpecStmt, info: Info, n: int, e: SpecExpr) -> bool {
    st matches SpecStmt::Assign { info: i, lhs, rhs } && i == info && lhs@.len() == 1 && lhs@[0].0@ == temp_text(n)
        && lhs@[0].1 is None && rhs == e
}

/// `r` is the `n`-th temporary used at `info`.
pub open spec fn is_spec_temp_var(r: SpecExpr, info: Info, n: int) -> bool {
    r matches NestedExpr::Term(SpecTerm::Var { info: i, name }) && i == info && name@ == temp_text(n)
}

/// Flattening the spec expression `x` into a variable, with temporaries from the
/// `n`-th on assigned at `fi`, emits the assignments `ins` and leaves `r`.
pub open spec fn sflat_rec(x: SpecExpr, fi: Info, n: int, ins: Seq<SpecStmt>, r: SpecExpr) -> bool
    decreases x, 0int,
{
    match x {
        NestedExpr::Binop { info, op, lhs, rhs } => {
            let a = srec_len(*lhs) as int;
            let b = srec_len(*rhs) as int;
            &&& ins.len() == a + b + 1
            &&& ins[a + b] matches SpecStmt::Assign { rhs: NestedExpr::Binop { lhs: l2, rhs: r2, .. }, .. }
            &&& is_temp_assign(ins[a + b], fi, n + a + b, NestedExpr::Binop { info, op, lhs: l2, rhs: r2 })
            &&& sflat_rec(*lhs, fi, n, ins.take(a), *l2)
            &&& sflat_rec(*rhs, fi, n + a, ins.subrange(a, a + b), *r2)
            &&& is_spec_temp_var(r, fi, n + a + b)
        },
        NestedExpr::Uop { info, op, expr } => {
            let a = srec_len(*expr) as int;
            &&& ins.len() == a + 1
            &&& ins[a] matches SpecStmt::Assign { rhs: NestedExpr::Uop { expr: x2, .. }, .. }
            &&& is_temp_assign(ins[a], fi, n + a, NestedExpr::Uop { info, op, expr: x2 })
            &&& sflat_rec(*expr, fi, n, ins.take(a), *x2)
            &&& is_spec_temp_var(r, fi, n + a)
        },
        NestedExpr::Conditional { info, if_true, guard, if_false } => {
            let g = srec_len(*guard) as int;
            let t = srec_len(*if_true) as int;
            let f = srec_len(*if_false) as int;
            &&& ins.len() == g + t + f + 1
            &&& ins[g + t + f] matches SpecStmt::Assign {
                rhs: NestedExpr::Conditional { if_true: t2, guard: g2, if_false: f2, .. },
                ..
            }
            &&& is_temp_assign(
                ins[g + t + f],
                fi,
                n + g + t + f,
                NestedExpr::Conditional { info, if_true: t2, guard: g2, if_false: f2 },
            )
            &&& sflat_rec(*guard, fi, n, ins.take(g), *g2)
            &&& sflat_rec(*if_true, fi, n + g, ins.subrange(g, g + t), *t2)
            &&& sflat_rec(*if_false, fi, n + g + t, ins.subrange(g + t, g + t + f), *f2)
            &&& is_spec_temp_var(r, fi, n + g + t + f)
        },
        NestedExpr::Term(t) => sflat_term(t, n, ins, r),
    }
}

/// `x` is the call `function(args)` with the template `template`, at `info`,
/// its arguments flattened into the assignments `ins`.
pub open spec fn sflat_call(
    info: Info,
    function: Box<SpecExpr>,
    args: Seq<SpecExpr>,
    template: Option<crate::ast::FlaggedType>,
    n: int,
    ins: Seq<SpecStmt>,
    x: SpecExpr,
) -> bool
    decreases args, 2int,
{
    &&& x matches NestedExpr::Term(SpecTerm::Call { info: i, function: f, args: a2, template: tp })
    &&& i == info
    &&& f == function
    &&& tp == template
    &&& sflat_list(args, info, n, ins, a2@)
}

/// Flattening the spec term `t` into a variable (at its own location).
pub open spec fn sflat_term(t: SpecTerm, n: int, ins: Seq<SpecStmt>, r: SpecExpr) -> bool
    decreases t, 0int,
{
    match t {
        SpecTerm::Call { info, function, args, template } => {
            let c = srec_lens(args@) as int;
            &&& ins.len() == c + 1
            &&& ins[c] matches SpecStmt::Assign { rhs: x, .. }
            &&& is_temp_assign(ins[c], info, n + c, x)
            &&& sflat_call(info, function, args@, template, n, ins.take(c), x)
            &&& is_spec_temp_var(r, info, n + c)
        },
        SpecTerm::Lit { info, lit: SpecLiteral::Tuple(v) } => {
            &&& r matches NestedExpr::Term(SpecTerm::Lit { info: i, lit: SpecLiteral::Tuple(w) })
            &&& i == info
            &&& sflat_list(v@, info, n, ins, w@)
        },
        SpecTerm::Lit { info, lit } => {
            &&& ins.len() == 1
            &&& is_temp_assign(ins[0], info, n, NestedExpr::Term(SpecTerm::Lit { info, lit }))
            &&& is_spec_temp_var(r, info, n)
        },
        SpecTerm::Var { .. } => ins.len() == 0 && r == NestedExpr::Term(t),
    }
}

/// Flattening the spec expressions `v` in order.
pub open spec fn sflat_list(v: Seq<SpecExpr>, fi: Info, n: int, ins: Seq<SpecStmt>, w: Seq<SpecExpr>) -> bool
    decreases v, 1int,
{
    if v.len() == 0 {
        ins.len() == 0 && w.len() == 0
    } else {
        let p = srec_lens(v.drop_last()) as int;
        &&& ins.len() == p + srec_len(v.last())
        &&& w.len() == v.len()
        &&& sflat_list(v.drop_last(), fi, n, ins.take(p), w.drop_last())
        &&& sflat_rec(v.last(), fi, n + p, ins.skip(p), w.last())
    }
}

/// The assignments that flattening `x` as a top-level spec expression emits.
pub open spec fn stop_len(x: SpecExpr) -> nat {
    match x {
        NestedExpr::Binop { lhs, rhs, .. } => srec_len(*lhs) + srec_len(*rhs),
        NestedExpr::Uop { expr, .. } => srec_len(*expr),
        NestedExpr::Conditional { if_true, guard, if_false, .. } => srec_len(*guard) + srec_len(*if_true)
            + srec_len(*if_false),
        NestedExpr::Term(SpecTerm::Call { args, .. }) => srec_lens(args@),
        NestedExpr::Term(SpecTerm::Lit { lit: SpecLiteral::Tuple(v), .. }) => srec_lens(v@),
        NestedExpr::Term(_) => 0,
    }
}

/// The temporary numbers that flattening `x` as a top-level spec expression uses up.
pub open spec fn stop_temps(x: SpecExpr) -> nat {
    stop_len(x) + if x is Conditional {
        1nat
    } else {
        0nat
    }
}

/// Flattening `x` as a top-level spec expression.
pub open spec fn sflat_top(x: SpecExpr, fi: Info, n: int, ins: Seq<SpecStmt>, r: SpecExpr) -> bool {
    match x {
        NestedExpr::Binop { info, op, lhs, rhs } => {
            let a = srec_len(*lhs) as int;
            let b = srec_len(*rhs) as int;
            &&& ins.len() == a + b
            &&& r matches NestedExpr::Binop { info: i, op: o, lhs: l2, rhs: r2 }
            &&& i == info
            &&& o == op
            &&& sflat_rec(*lhs, fi, n, ins.take(a), *l2)
            &&& sflat_rec(*rhs, fi, n + a, ins.skip(a), *r2)
        },
        NestedExpr::Uop { info, op, expr } => {
            &&& r matches NestedExpr::Uop { info: i, op: o, expr: x2 }
            &&& i == info
            &&& o == op
            &&& sflat_rec(*expr, fi, n, ins, *x2)
        },
        NestedExpr::Conditional { info, if_true, guard, if_false } => {
            let g = srec_len(*guard) as int;
            let t = srec_len(*if_true) as int;
            let f = srec_len(*if_false) as int;
            &&& ins.len() == g + t + f
            &&& r matches NestedExpr::Conditional { info: i, if_true: t2, guard: g2, if_false: f2 }
            &&& i == info
            &&& sflat_rec(*guard, fi, n, ins.take(g), *g2)
            &&& sflat_rec(*if_true, fi, n + g, ins.subrange(g, g + t), *t2)
            &&& sflat_rec(*if_false, fi, n + g + t, ins.skip(g + t), *f2)
        },
        NestedExpr::Term(SpecTerm::Call { info, function, args, template }) => sflat_call(
            info,
            function,
            args@,
            template,
            n,
            ins,
            r,
        ),
        NestedExpr::Term(SpecTerm::Lit { info, lit: SpecLiteral::Tuple(v) }) => sflat_term(
            SpecTerm::Lit { info, lit: SpecLiteral::Tuple(v) },
            n,
            ins,
            r,
        ),
        NestedExpr::Term(_) => ins.len() == 0 && r == x,
    }
}

/// The temporary numbers that flattening a spec statement uses up.
pub open spec fn sstmt_temps(st: SpecStmt) -> nat {
    match st {
        SpecStmt::Assign { rhs, .. } => stop_temps(rhs),
        SpecStmt::Returns(_, e) => srec_len(e),
    }
}

/// The number of statements that flattening a spec statement gives.
pub open spec fn sstmt_out_len(st: SpecStmt) -> nat {
    match st {
        SpecStmt::Assign { rhs, .. } => stop_len(rhs) + 1,
        SpecStmt::Returns(_, e) => srec_len(e) + 1,
    }
}

/// The temporary numbers that flattening the spec statements `s` uses up.
pub open spec fn slist_temps(s: Seq<SpecStmt>) -> nat
    decreases s.len(),
{
    if s.len() == 0 {
        0
    } else {
        slist_temps(s.drop_last()) + sstmt_temps(s.last())
    }
}

/// The number of statements that flattening the spec statements `s` gives.
pub open spec fn slist_out_len(s: Seq<SpecStmt>) -> nat
    decreases s.len(),
{
    if s.len() == 0 {
        0
    } else {
        slist_out_len(s.drop_last()) + sstmt_out_len(s.last())
    }
}

/// Flattening the spec statement `st`, with temporaries from the `n`-th on,
/// gives the statements `out`: the assignments of its temporaries, then the
/// statement with a flat expression.
pub open spec fn sflat_stmt(st: SpecStmt, n: int, out: Seq<SpecStmt>) -> bool {
    match st {
        SpecStmt::Assign { info, lhs, rhs } => {
            let a = stop_len(rhs) as int;
            &&& out.len() == a + 1
            &&& out[a] matches SpecStmt::Assign { info: i, lhs: l, rhs: x }
            &&& i == info
            &&& l == lhs
            &&& sflat_top(rhs, info, n, out.take(a), x)
        },
        SpecStmt::Returns(info, e) => {
            let a = srec_len(e) as int;
            &&& out.len() == a + 1
            &&& out[a] matches SpecStmt::Returns(i, x)
            &&& i == info
            &&& sflat_rec(e, info, n, out.take(a), x)
        },
    }
}

/// Flattening the spec statements `s` in order.
pub open spec fn sflat_stmts(s: Seq<SpecStmt>, n: int, out: Seq<SpecStmt>) -> bool
    decreases s.len(),
{
    if s.len() == 0 {
        out.len() == 0
    } else {
        let p = slist_out_len(s.drop_last()) as int;
        &&& out.len() == p + sstmt_out_len(s.last())
        &&& sflat_stmts(s.drop_last(), n, out.take(p))
        &&& sflat_stmt(s.last(), n + slist_temps(s.drop_last()), out.skip(p))
    }
}

/// The assignment of the value `e` to the `n`-th temporary.
fn temp_assign(info: Info, n: usize, e: SpecExpr) -> (res: SpecStmt)
    ensures
        is_temp_assign(res, info, n as int, e),
{
    let mut lhs: Vec<(String, Option<crate::ast::DataType>)> = Vec::new();
    lhs.push((temp_name(n), None));
    SpecStmt::Assign { info, lhs, rhs: e }
}

/// A use of the `n`-th temporary in a spec.
fn spec_temp_var(info: Info, n: usize) -> (res: SpecExpr)
    ensures
        is_spec_temp_var(res, info, n as int),
{
    NestedExpr::Term(SpecTerm::Var { info, name: temp_name(n) })
}

/// Flattens a spec expression into a term, assigning each operation and call
/// to a temporary (at `info` for operations).
#[verifier::rlimit(40)]
fn flatten_spec_rec(x: SpecExpr, info: Info, temp_num: usize) -> (res: (Vec<SpecStmt>, usize, SpecExpr))
    requires
        temp_num + srec_len(x) <= usize::MAX,
    ensures
        res.0@.len() == srec_len(x),
        res.1 == temp_num + srec_len(x),
        sflat_rec(x, info, temp_num as int, res.0@, res.2),
    decreases x, 0int,
{
    match x {
        NestedExpr::Binop { info: bi, op, lhs, rhs } => {
            let (mut ins, n1, l) = flatten_spec_rec(*lhs, info, temp_num);
            let (mut ins2, n2, r) = flatten_spec_rec(*rhs, info, n1);
            let ghost a = ins@;
            let ghost b = ins2@;
            ins.append(&mut ins2);
            ins.push(temp_assign(info, n2, NestedExpr::Binop { info: bi, op, lhs: Box::new(l), rhs: Box::new(r) }));
            proof {
                assert(ins@.take(a.len() as int) =~= a);
                assert(ins@.subrange(a.len() as int, a.len() + b.len() as int) =~= b);
            }
            (ins, n2 + 1, spec_temp_var(info, n2))
        },
        NestedExpr::Uop { info: ui, op, expr } => {
            let (mut ins, n1, e) = flatten_spec_rec(*expr, info, temp_num);
            let ghost a = ins@;
            ins.push(temp_assign(info, n1, NestedExpr::Uop { info: ui, op, expr: Box::new(e) }));
            proof {
                assert(ins@.take(a.len() as int) =~= a);
            }
            (ins, n1 + 1, spec_temp_var(info, n1))
        },
        NestedExpr::Conditional { info: ci, if_true, guard, if_false } => {
            let (mut ins, n1, g) = flatten_spec_rec(*guard, info, temp_num);
            let (mut ins2, n2, t) = flatten_spec_rec(*if_true, info, n1);
            let (mut ins3, n3, f) = flatten_spec_rec(*if_false, info, n2);
            let ghost a = ins@;
            let ghost b = ins2@;
            let ghost c = ins3@;
            ins.append(&mut ins2);
            ins.append(&mut ins3);
            ins.push(
                temp_assign(
                    info,
                    n3,
                    NestedExpr::Conditional {
                        info: ci,
                        if_true: Box::new(t),
                        guard: Box::new(g),
                        if_false: Box::new(f),
                    },
                ),
            );
            proof {
                assert(ins@.take(a.len() as int) =~= a);
                assert(ins@.subrange(a.len() as int, a.len() + b.len() as int) =~= b);
                assert(ins@.subrange(a.len() + b.len() as int, a.len() + b.len() + c.len() as int) =~= c);
            }
            (ins, n3 + 1, spec_temp_var(info, n3))
        },
        NestedExpr::Term(t) => flatten_spec_term(t, temp_num),
    }
}

/// Flattens a spec term: a call (its arguments first) or a literal (but a
/// tuple) is assigned to a temporary; a tuple has its parts flattened.
fn flatten_spec_term(t: SpecTerm, temp_num: usize) -> (res: (Vec<SpecStmt>, usize, SpecExpr))
    requires
        temp_num + srec_len(NestedExpr::Term(t)) <= usize::MAX,
    ensures
        res.0@.len() == srec_len(NestedExpr::Term(t)),
        res.1 == temp_num + srec_len(NestedExpr::Term(t)),
        sflat_term(t, temp_num as int, res.0@, res.2),
    decreases t, 0int,
{
    match t {
        SpecTerm::Call { info, function, args, template } => {
            let (mut ins, n1, a2) = flatten_spec_list(args, info, temp_num);
            let ghost a = ins@;
            let x = NestedExpr::Term(SpecTerm::Call { info, function, args: a2, template });
            ins.push(temp_assign(info, n1, x));
            proof {
                assert(ins@.take(a.len() as int) =~= a);
            }
            (ins, n1 + 1, spec_temp_var(info, n1))
        },
        SpecTerm::Var { info, name } => (Vec::new(), temp_num, NestedExpr::Term(SpecTerm::Var { info, name })),
        SpecTerm::Lit { info, lit: SpecLiteral::Tuple(v) } => {
            let (ins, n1, w) = flatten_spec_list(v, info, temp_num);
            (ins, n1, NestedExpr::Term(SpecTerm::Lit { info, lit: SpecLiteral::Tuple(w) }))
        },
        SpecTerm::Lit { info, lit } => {
            let mut ins: Vec<SpecStmt> = Vec::new();
            ins.push(temp_assign(info, temp_num, NestedExpr::Term(SpecTerm::Lit { info, lit })));
            (ins, temp_num + 1, spec_temp_var(info, temp_num))
        },
    }
}

/// Flattens spec expressions one after the other.
fn flatten_spec_list(v: Vec<SpecExpr>, info: Info, temp_num: usize) -> (res: (Vec<SpecStmt>, usize, Vec<SpecExpr>))
    requires
        temp_num + srec_lens(v@) <= usize::MAX,
    ensures
        res.0@.len() == srec_lens(v@),
        res.1 == temp_num + srec_lens(v@),
        sflat_list(v@, info, temp_num as int, res.0@, res.2@),
    decreases v, 1int,
{
    let ghost v0 = v;
    let ghost orig = v@;
    assert(orig.take(0) =~= Seq::<SpecExpr>::empty());
    let len = v.len();
    let mut rest = v;
    let mut ins: Vec<SpecStmt> = Vec::new();
    let mut out: Vec<SpecExpr> = Vec::new();
    let mut n = temp_num;
    let mut i: usize = 0;
    while rest.len() > 0
        invariant
            v0 == v,
            orig == v0@,
            len == orig.len(),
            i + rest@.len() == orig.len(),
            rest@ == orig.skip(i as int),
            temp_num + srec_lens(orig) <= usize::MAX,
            ins@.len() == srec_lens(orig.take(i as int)),
            n == temp_num + srec_lens(orig.take(i as int)),
            sflat_list(orig.take(i as int), info, temp_num as int, ins@, out@),
        decreases rest@.len(),
    {
        let x = rest.remove(0);
        assert(x == orig[i as int]);
        let ghost old_ins = ins@;
        let ghost old_out = out@;
        proof {
            assert(decreases_to!(v0 => v0@[i as int]));
            assert(orig.take(i + 1).drop_last() =~= orig.take(i as int));
            assert(orig.take(i + 1).last() == x);
            lemma_srec_lens_prefix(orig, i + 1);
        }
        let (mut xi, n1, y) = flatten_spec_rec(x, info, n);
        let ghost xs = xi@;
        ins.append(&mut xi);
        out.push(y);
        proof {
            assert(ins@.take(old_ins.len() as int) =~= old_ins);
            assert(ins@.skip(old_ins.len() as int) =~= xs);
            assert(out@.drop_last() =~= old_out);
        }
        n = n1;
        i += 1;
    }
    assert(orig.take(i as int) =~= orig);
    (ins, n, out)
}

/// A prefix of a list of spec expressions emits no more assignments than the list.
proof fn lemma_srec_lens_prefix(s: Seq<SpecExpr>, i: int)
    requires
        0 <= i <= s.len(),
    ensures
        srec_lens(s.take(i)) <= srec_lens(s),
    decreases s.len(),
{
    if i < s.len() {
        lemma_srec_lens_prefix(s.drop_last(), i);
        assert(s.drop_last().take(i) =~= s.take(i));
    } else {
        assert(s.take(i) =~= s);
    }
}

/// Flattens a top-level spec expression: the operands of its operation become
/// terms, or the arguments of its call do.
fn flatten_spec_top(x: SpecExpr, info: Info, temp_num: usize) -> (res: (Vec<SpecStmt>, usize, SpecExpr))
    requires
        temp_num + stop_temps(x) <= usize::MAX,
    ensures
        res.0@.len() == stop_len(x),
        res.1 == temp_num + stop_temps(x),
        sflat_top(x, info, temp_num as int, res.0@, res.2),
{
    match x {
        NestedExpr::Binop { info: bi, op, lhs, rhs } => {
            let (mut ins, n1, l) = flatten_spec_rec(*lhs, info, temp_num);
            let (mut ins2, n2, r) = flatten_spec_rec(*rhs, info, n1);
            let ghost a = ins@;
            let ghost b = ins2@;
            ins.append(&mut ins2);
            proof {
                assert(ins@.take(a.len() as int) =~= a);
                assert(ins@.skip(a.len() as int) =~= b);
            }
            (ins, n2, NestedExpr::Binop { info: bi, op, lhs: Box::new(l), rhs: Box::new(r) })
        },
        NestedExpr::Uop { info: ui, op, expr } => {
            let (ins, n1, e) = flatten_spec_rec(*expr, info, temp_num);
            (ins, n1, NestedExpr::Uop { info: ui, op, expr: Box::new(e) })
        },
        NestedExpr::Conditional { info: ci, if_true, guard, if_false } => {
            let (mut ins, n1, g) = flatten_spec_rec(*guard, info, temp_num);
            let (mut ins2, n2, t) = flatten_spec_rec(*if_true, info, n1);
            let (mut ins3, n3, f) = flatten_spec_rec(*if_false, info, n2);
            let ghost a = ins@;
            let ghost b = ins2@;
            let ghost c = ins3@;
            ins.append(&mut ins2);
            ins.append(&mut ins3);
            proof {
                assert(ins@.take(a.len() as int) =~= a);
                assert(ins@.subrange(a.len() as int, a.len() + b.len() as int) =~= b);
                assert(ins@.skip(a.len() + b.len() as int) =~= c);
            }
            (
                ins,
                n3 + 1,
                NestedExpr::Conditional { info: ci, if_true: Box::new(t), guard: Box::new(g), if_false: Box::new(f) },
            )
        },
        NestedExpr::Term(SpecTerm::Lit { info: li, lit: SpecLiteral::Tuple(v) }) => {
            flatten_spec_term(SpecTerm::Lit { info: li, lit: SpecLiteral::Tuple(v) }, temp_num)
        },
        NestedExpr::Term(SpecTerm::Call { info: ti, function, args, template }) => {
            let (ins, n1, a2) = flatten_spec_list(args, ti, temp_num);
            (ins, n1, NestedExpr::Term(SpecTerm::Call { info: ti, function, args: a2, template }))
        },
        other => (Vec::new(), temp_num, other),
    }
}

/// Flattens the statements of a spec function so that no expression is
/// nested: the temporaries are `_f0`, `_f1`, ... in order.
#[verifier::rlimit(40)]
pub fn flatten_spec(stmts: Vec<SpecStmt>) -> (res: Vec<SpecStmt>)
    requires
        slist_temps(stmts@) <= usize::MAX,
    ensures
        sflat_stmts(stmts@, 0, res@),
        forall|j: int| 0 <= j < res@.len() ==> spec_stmt_is_flat(#[trigger] res@[j]),
{
    let ghost orig = stmts@;
    assert(orig.take(0) =~= Seq::<SpecStmt>::empty());
    let len = stmts.len();
    let mut rest = stmts;
    let mut res: Vec<SpecStmt> = Vec::new();
    let mut n: usize = 0;
    let mut i: usize = 0;
    while rest.len() > 0
        invariant
            len == orig.len(),
            i + rest@.len() == orig.len(),
            rest@ == orig.skip(i as int),
            slist_temps(orig) <= usize::MAX,
            res@.len() == slist_out_len(orig.take(i as int)),
            n == slist_temps(orig.take(i as int)),
            sflat_stmts(orig.take(i as int), 0, res@),
        decreases rest@.len(),
    {
        let st = rest.remove(0);
        assert(st == orig[i as int]);
        let ghost old_res = res@;
        proof {
            assert(orig.take(i + 1).drop_last() =~= orig.take(i as int));
            assert(orig.take(i + 1).last() == st);
            lemma_slist_temps_prefix(orig, i + 1);
        }
        let (mut piece, n1) = match st {
            SpecStmt::Assign { info, lhs, rhs } => {
                let (mut ins, n1, x) = flatten_spec_top(rhs, info, n);
                let ghost a = ins@;
                ins.push(SpecStmt::Assign { info, lhs, rhs: x });
                proof {
                    assert(ins@.take(a.len() as int) =~= a);
                }
                (ins, n1)
            },
            SpecStmt::Returns(info, e) => {
                let (mut ins, n1, x) = flatten_spec_rec(e, info, n);
                let ghost a = ins@;
                ins.push(SpecStmt::Returns(info, x));
                proof {
                    assert(ins@.take(a.len() as int) =~= a);
                }
                (ins, n1)
            },
        };
        let ghost ps = piece@;
        res.append(&mut piece);
        proof {
            assert(res@.take(old_res.len() as int) =~= old_res);
            assert(res@.skip(old_res.len() as int) =~= ps);
        }
        n = n1;
        i += 1;
    }
    assert(orig.take(i as int) =~= orig);
    proof {
        law_flatten_spec_flat(orig, 0, res@);
    }
    res
}

/// A prefix of a list of spec statements uses up no more temporaries than the list.
proof fn lemma_slist_temps_prefix(s: Seq<SpecStmt>, i: int)
    requires
        0 <= i <= s.len(),
    ensures
        slist_temps(s.take(i)) <= slist_temps(s),
    decreases s.len(),
{
    if i < s.len() {
        lemma_slist_temps_prefix(s.drop_last(), i);
        assert(s.drop_last().take(i) =~= s.take(i));
    } else {
        assert(s.take(i) =~= s);
    }
}

// ---------------------------------------------------------------------------
// Laws of flattening.
// ---------------------------------------------------------------------------

/// The operands of the expression are terms (a term itself counts as flat).
pub open spec fn shallow(e: SchedExpr) -> bool {
    match e {
        NestedExpr::Binop { lhs, rhs, .. } => *lhs is Term && *rhs is Term,
        NestedExpr::Uop { expr, .. } => *expr is Term,
        NestedExpr::Conditional { if_true, guard, if_false, .. } => *if_true is Term && *guard is Term
            && *if_false is Term,
        NestedExpr::Term(t) => term_shallow(t),
    }
}

/// The parts of the term are terms: the elements of a tuple, the arguments of a
/// call (or the value of its encoded statement).
pub open spec fn term_shallow(t: SchedTerm) -> bool {
    match t {
        SchedTerm::Lit { lit: SchedLiteral::Tuple(v), .. } => forall|j: int|
            0 <= j < v@.len() ==> #[trigger] v@[j] is Term,
        SchedTerm::Call(_, call) => match *call.args {
            ArgsOrEnc::Args(v) => forall|j: int| 0 <= j < v@.len() ==> #[trigger] v@[j] is Term,
            ArgsOrEnc::Encode(EncodedStmt::Move { rhs, .. }) => rhs is Term,
        },
        _ => true,
    }
}

/// The `k`-th statement of `ins` is a constant declaration of the `(n + k)`-th
/// temporary alone, with a shallow value.
pub open spec fn temps_from(ins: Seq<SchedStmt>, n: int) -> bool {
    forall|k: int|
        0 <= k < ins.len() ==> (#[trigger] ins[k] matches SchedStmt::Decl { lhs, is_const: true, expr: Some(x), .. }
            && temp_lhs(lhs@, n + k) && shallow(x))
}

/// Two stretches of temporaries, one after the other, make one.
proof fn lemma_temps_split(ins: Seq<SchedStmt>, n: int, a: int)
    requires
        0 <= a <= ins.len(),
        temps_from(ins.take(a), n),
        temps_from(ins.skip(a), n + a),
    ensures
        temps_from(ins, n),
{
    assert forall|k: int| 0 <= k < ins.len() implies (#[trigger] ins[k] matches SchedStmt::Decl {
        lhs,
        is_const: true,
        expr: Some(x),
        ..
    } && temp_lhs(lhs@, n + k) && shallow(x)) by {
        if k < a {
            assert(ins.take(a)[k] == ins[k]);
        } else {
            assert(ins.skip(a)[k - a] == ins[k]);
        }
    }
}

/// The last statement of `ins` declares the temporary after those before it.
proof fn lemma_temps_last(ins: Seq<SchedStmt>, n: int)
    requires
        ins.len() > 0,
        temps_from(ins.take(ins.len() - 1), n),
        ins.last() matches SchedStmt::Decl { lhs, is_const: true, expr: Some(x), .. } && temp_lhs(
            lhs@,
            n + ins.len() - 1,
        ) && shallow(x),
    ensures
        temps_from(ins, n),
{
    let a = ins.len() - 1;
    assert forall|k: int| 0 <= k < ins.len() implies (#[trigger] ins[k] matches SchedStmt::Decl {
        lhs,
        is_const: true,
        expr: Some(x),
        ..
    } && temp_lhs(lhs@, n + k) && shallow(x)) by {
        if k < a {
            assert(ins.take(a)[k] == ins[k]);
        }
    }
}

/// Three stretches of temporaries, one after the other, make one.
proof fn lemma_temps_three(ins: Seq<SchedStmt>, n: int, a: int, b: int)
    requires
        0 <= a <= a + b <= ins.len(),
        temps_from(ins.take(a), n),
        temps_from(ins.subrange(a, a + b), n + a),
        temps_from(ins.skip(a + b), n + a + b),
    ensures
        temps_from(ins, n),
{
    let first = ins.take(a + b);
    assert(first.take(a) =~= ins.take(a));
    assert(first.skip(a) =~= ins.subrange(a, a + b));
    lemma_temps_split(first, n, a);
    assert(ins.take(a + b) =~= first);
    lemma_temps_split(ins, n, a + b);
}

/// Flattening an expression into a variable leaves a term, and its `k`-th
/// declaration is of the `(n + k)`-th temporary, with operands that are terms.
pub proof fn law_flat_rec_temps(e: SchedExpr, fi: Info, n: int, ins: Seq<SchedStmt>, r: SchedExpr)
    requires
        flat_rec(e, fi, n, ins, r),
    ensures
        r is Term,
        shallow(r),
        temps_from(ins, n),
    decreases e, 0int,
{
    match e {
        NestedExpr::Binop { lhs, rhs, .. } => {
            let a = rec_len(*lhs) as int;
            let b = rec_len(*rhs) as int;
            let d = ins[a + b]->Decl_expr->Some_0;
            law_flat_rec_temps(*lhs, fi, n, ins.take(a), *d->Binop_lhs);
            law_flat_rec_temps(*rhs, fi, n + a, ins.subrange(a, a + b), *d->Binop_rhs);
            assert(temps_from(ins.skip(a + b), n + a + b)) by {
                assert(ins.skip(a + b)[0] == ins[a + b]);
            }
            lemma_temps_three(ins, n, a, b);
        },
        NestedExpr::Uop { expr, .. } => {
            let a = rec_len(*expr) as int;
            let d = ins[a]->Decl_expr->Some_0;
            law_flat_rec_temps(*expr, fi, n, ins.take(a), *d->Uop_expr);
            assert(ins.take(ins.len() - 1) =~= ins.take(a));
            lemma_temps_last(ins, n);
        },
        NestedExpr::Conditional { if_true, guard, if_false, .. } => {
            let g = rec_len(*guard) as int;
            let t = rec_len(*if_true) as int;
            let f = rec_len(*if_false) as int;
            let d = ins[g + t + f]->Decl_expr->Some_0;
            law_flat_rec_temps(*guard, fi, n, ins.take(g), *d->Conditional_guard);
            law_flat_rec_temps(*if_true, fi, n + g, ins.subrange(g, g + t), *d->Conditional_if_true);
            law_flat_rec_temps(*if_false, fi, n + g + t, ins.subrange(g + t, g + t + f), *d->Conditional_if_false);
            let first = ins.take(g + t + f);
            assert(first.take(g) =~= ins.take(g));
            assert(first.subrange(g, g + t) =~= ins.subrange(g, g + t));
            assert(first.skip(g + t) =~= ins.subrange(g + t, g + t + f));
            lemma_temps_three(first, n, g, t);
            assert(ins.take(ins.len() - 1) =~= first);
            lemma_temps_last(ins, n);
        },
        NestedExpr::Term(t) => {
            lemma_flat_term_temps(t, n, ins, r);
        },
    }
}

/// The term form of `law_flat_rec_temps`.
proof fn lemma_flat_term_temps(t: SchedTerm, n: int, ins: Seq<SchedStmt>, r: SchedExpr)
    requires
        flat_term(t, n, ins, r),
    ensures
        r is Term,
        shallow(r),
        temps_from(ins, n),
    decreases t, 0int,
{
    match t {
        SchedTerm::Call(info, call) => {
            let c = children_len(call) as int;
            let x = ins[c]->Decl_expr->Some_0;
            lemma_flat_children_temps(info, call, n, ins.take(c), x);
            assert(ins.take(ins.len() - 1) =~= ins.take(c));
            lemma_temps_last(ins, n);
        },
        SchedTerm::Lit { info, lit: SchedLiteral::Tuple(v), tag } => {
            lemma_flat_list_temps(v@, info, n, ins, r->Term_0->Lit_lit->Tuple_0@);
        },
        SchedTerm::Lit { .. } => {
            assert(ins.take(0) =~= Seq::<SchedStmt>::empty());
            lemma_temps_last(ins, n);
        },
        _ => {},
    }
}

/// The list form of `law_flat_rec_temps`.
proof fn lemma_flat_list_temps(v: Seq<SchedExpr>, fi: Info, n: int, ins: Seq<SchedStmt>, w: Seq<SchedExpr>)
    requires
        flat_list(v, fi, n, ins, w),
    ensures
        temps_from(ins, n),
        forall|j: int| 0 <= j < w.len() ==> #[trigger] w[j] is Term,
    decreases v, 1int,
{
    if v.len() > 0 {
        let p = rec_lens(v.drop_last()) as int;
        lemma_flat_list_temps(v.drop_last(), fi, n, ins.take(p), w.drop_last());
        law_flat_rec_temps(v.last(), fi, n + p, ins.skip(p), w.last());
        lemma_temps_split(ins, n, p);
        assert forall|j: int| 0 <= j < w.len() implies #[trigger] w[j] is Term by {
            if j < w.len() - 1 {
                assert(w.drop_last()[j] == w[j]);
            }
        }
    }
}

/// The children form of `law_flat_rec_temps`.
proof fn lemma_flat_children_temps(info: Info, call: SchedFuncCall, n: int, ins: Seq<SchedStmt>, x: SchedExpr)
    requires
        flat_children(info, call, n, ins, x),
    ensures
        temps_from(ins, n),
        shallow(x),
    decreases call, 0int,
{
    let tl = tmpl_lens(call) as int;
    match call.templates {
        Some(TemplateArgs::Vals(vs)) => {
            let ws = x->Term_0->Call_1.templates->Some_0->Vals_0;
            lemma_flat_tmpls_temps(vs@, info, n, ins.take(tl), ws@);
        },
        _ => {
            assert(ins.take(tl) =~= Seq::<SchedStmt>::empty());
        },
    }
    match *call.args {
        ArgsOrEnc::Args(v) => {
            let w = (*x->Term_0->Call_1.args)->Args_0;
            lemma_flat_list_temps(v@, info, n + tl, ins.skip(tl), w@);
        },
        ArgsOrEnc::Encode(EncodedStmt::Move { rhs, .. }) => {
            let r3 = (*x->Term_0->Call_1.args)->Encode_0->Move_rhs;
            law_flat_rec_temps(rhs, info, n + tl, ins.skip(tl), r3);
        },
    }
    lemma_temps_split(ins, n, tl);
}

/// The template form of `law_flat_rec_temps`.
proof fn lemma_flat_tmpls_temps(v: Seq<SpecExpr>, fi: Info, n: int, ins: Seq<SchedStmt>, w: Seq<SpecExpr>)
    requires
        flat_tmpls(v, fi, n, ins, w),
    ensures
        temps_from(ins, n),
    decreases v.len(),
{
    if v.len() > 0 {
        let p = spec_conv_lens(v.drop_last()) as int;
        lemma_flat_tmpls_temps(v.drop_last(), fi, n, ins.take(p), w.drop_last());
        let x = v.last();
        let name = w.last()->Term_0->Var_name;
        lemma_flat_conv_temps(
            x,
            fi,
            n + p,
            ins.skip(p),
            NestedExpr::Term(SchedTerm::Var { info: conv_info(x, fi), name, tag: None }),
        );
        lemma_temps_split(ins, n, p);
    }
}

/// The scheduling form of templates in `law_flat_rec_temps`.
proof fn lemma_flat_conv_temps(x: SpecExpr, fi: Info, n: int, ins: Seq<SchedStmt>, r: SchedExpr)
    requires
        flat_conv(x, fi, n, ins, r),
    ensures
        r is Term,
        temps_from(ins, n),
    decreases x, 0int,
{
    match x {
        NestedExpr::Binop { lhs, rhs, .. } => {
            let a = spec_conv_len(*lhs) as int;
            let b = spec_conv_len(*rhs) as int;
            let d = ins[a + b]->Decl_expr->Some_0;
            lemma_flat_conv_temps(*lhs, fi, n, ins.take(a), *d->Binop_lhs);
            lemma_flat_conv_temps(*rhs, fi, n + a, ins.subrange(a, a + b), *d->Binop_rhs);
            assert(temps_from(ins.skip(a + b), n + a + b)) by {
                assert(ins.skip(a + b)[0] == ins[a + b]);
            }
            lemma_temps_three(ins, n, a, b);
        },
        NestedExpr::Uop { expr, .. } => {
            let a = spec_conv_len(*expr) as int;
            let d = ins[a]->Decl_expr->Some_0;
            lemma_flat_conv_temps(*expr, fi, n, ins.take(a), *d->Uop_expr);
            assert(ins.take(ins.len() - 1) =~= ins.take(a));
            lemma_temps_last(ins, n);
        },
        NestedExpr::Conditional { if_true, guard, if_false, .. } => {
            let g = spec_conv_len(*guard) as int;
            let t = spec_conv_len(*if_true) as int;
            let f = spec_conv_len(*if_false) as int;
            let d = ins[g + t + f]->Decl_expr->Some_0;
            lemma_flat_conv_temps(*guard, fi, n, ins.take(g), *d->Conditional_guard);
            lemma_flat_conv_temps(*if_true, fi, n + g, ins.subrange(g, g + t), *d->Conditional_if_true);
            lemma_flat_conv_temps(*if_false, fi, n + g + t, ins.subrange(g + t, g + t + f), *d->Conditional_if_false);
            let first = ins.take(g + t + f);
            assert(first.take(g) =~= ins.take(g));
            assert(first.subrange(g, g + t) =~= ins.subrange(g, g + t));
            assert(first.skip(g + t) =~= ins.subrange(g + t, g + t + f));
            lemma_temps_three(first, n, g, t);
            assert(ins.take(ins.len() - 1) =~= first);
            lemma_temps_last(ins, n);
        },
        NestedExpr::Term(SpecTerm::Lit { info, lit: SpecLiteral::Tuple(v) }) => {
            lemma_flat_conv_list_temps(v@, info, n, ins, r->Term_0->Lit_lit->Tuple_0@);
        },
        NestedExpr::Term(SpecTerm::Lit { .. }) => {
            assert(ins.take(0) =~= Seq::<SchedStmt>::empty());
            lemma_temps_last(ins, n);
        },
        _ => {},
    }
}

/// The list form of `lemma_flat_conv_temps`.
proof fn lemma_flat_conv_list_temps(v: Seq<SpecExpr>, fi: Info, n: int, ins: Seq<SchedStmt>, w: Seq<SchedExpr>)
    requires
        flat_conv_list(v, fi, n, ins, w),
    ensures
        temps_from(ins, n),
    decreases v, 1int,
{
    if v.len() > 0 {
        let p = spec_conv_lens(v.drop_last()) as int;
        lemma_flat_conv_list_temps(v.drop_last(), fi, n, ins.take(p), w.drop_last());
        lemma_flat_conv_temps(v.last(), fi, n + p, ins.skip(p), w.last());
        lemma_temps_split(ins, n, p);
    }
}

/// Flattening a top-level expression leaves an expression whose operands are
/// terms, and its `k`-th declaration is of the `(n + k)`-th temporary.
pub proof fn law_flat_top_temps(e: SchedExpr, fi: Info, n: int, ins: Seq<SchedStmt>, r: SchedExpr)
    requires
        flat_top(e, fi, n, ins, r),
    ensures
        shallow(r),
        temps_from(ins, n),
{
    match e {
        NestedExpr::Binop { lhs, rhs, .. } => {
            let a = rec_len(*lhs) as int;
            law_flat_rec_temps(*lhs, fi, n, ins.take(a), *r->Binop_lhs);
            law_flat_rec_temps(*rhs, fi, n + a, ins.skip(a), *r->Binop_rhs);
            lemma_temps_split(ins, n, a);
        },
        NestedExpr::Uop { expr, .. } => {
            law_flat_rec_temps(*expr, fi, n, ins, *r->Uop_expr);
        },
        NestedExpr::Conditional { if_true, guard, if_false, .. } => {
            let g = rec_len(*guard) as int;
            let t = rec_len(*if_true) as int;
            law_flat_rec_temps(*guard, fi, n, ins.take(g), *r->Conditional_guard);
            law_flat_rec_temps(*if_true, fi, n + g, ins.subrange(g, g + t), *r->Conditional_if_true);
            law_flat_rec_temps(*if_false, fi, n + g + t, ins.skip(g + t), *r->Conditional_if_false);
            lemma_temps_three(ins, n, g, t);
        },
        NestedExpr::Term(SchedTerm::Call(info, call)) => {
            lemma_flat_children_temps(info, call, n, ins, r);
        },
        NestedExpr::Term(SchedTerm::Lit { info, lit: SchedLiteral::Tuple(v), tag }) => {
            lemma_flat_term_temps(SchedTerm::Lit { info, lit: SchedLiteral::Tuple(v), tag }, n, ins, r);
        },
        NestedExpr::Term(_) => {},
    }
}

/// The operands of the spec expression are terms.
pub open spec fn spec_shallow(e: SpecExpr) -> bool {
    match e {
        NestedExpr::Binop { lhs, rhs, .. } => *lhs is Term && *rhs is Term,
        NestedExpr::Uop { expr, .. } => *expr is Term,
        NestedExpr::Conditional { if_true, guard, if_false, .. } => *if_true is Term && *guard is Term
            && *if_false is Term,
        NestedExpr::Term(_) => true,
    }
}

/// The `k`-th statement of `ins` assigns the `(n + k)`-th temporary alone a
/// shallow value.
pub open spec fn spec_temps_from(ins: Seq<SpecStmt>, n: int) -> bool {
    forall|k: int|
        0 <= k < ins.len() ==> (#[trigger] ins[k] matches SpecStmt::Assign { lhs, rhs, .. } && lhs@.len() == 1
            && lhs@[0].0@ == temp_text(n + k) && lhs@[0].1 is None && spec_shallow(rhs))
}

/// Two stretches of spec temporaries, one after the other, make one.
proof fn lemma_spec_temps_split(ins: Seq<SpecStmt>, n: int, a: int)
    requires
        0 <= a <= ins.len(),
        spec_temps_from(ins.take(a), n),
        spec_temps_from(ins.skip(a), n + a),
    ensures
        spec_temps_from(ins, n),
{
    assert forall|k: int| 0 <= k < ins.len() implies (#[trigger] ins[k] matches SpecStmt::Assign { lhs, rhs, .. }
        && lhs@.len() == 1 && lhs@[0].0@ == temp_text(n + k) && lhs@[0].1 is None && spec_shallow(rhs)) by {
        if k < a {
            assert(ins.take(a)[k] == ins[k]);
        } else {
            assert(ins.skip(a)[k - a] == ins[k]);
        }
    }
}

/// Three stretches of spec temporaries, one after the other, make one.
proof fn lemma_spec_temps_three(ins: Seq<SpecStmt>, n: int, a: int, b: int)
    requires
        0 <= a <= a + b <= ins.len(),
        spec_temps_from(ins.take(a), n),
        spec_temps_from(ins.subrange(a, a + b), n + a),
        spec_temps_from(ins.skip(a + b), n + a + b),
    ensures
        spec_temps_from(ins, n),
{
    let first = ins.take(a + b);
    assert(first.take(a) =~= ins.take(a));
    assert(first.skip(a) =~= ins.subrange(a, a + b));
    lemma_spec_temps_split(first, n, a);
    assert(ins.take(a + b) =~= first);
    lemma_spec_temps_split(ins, n, a + b);
}

/// Flattening a spec expression into a variable leaves a term, and its `k`-th
/// assignment is of the `(n + k)`-th temporary, with operands that are terms.
pub proof fn law_sflat_rec_temps(x: SpecExpr, fi: Info, n: int, ins: Seq<SpecStmt>, r: SpecExpr)
    requires
        sflat_rec(x, fi, n, ins, r),
    ensures
        r is Term,
        spec_temps_from(ins, n),
    decreases x, 0int,
{
    match x {
        NestedExpr::Binop { lhs, rhs, .. } => {
            let a = srec_len(*lhs) as int;
            let b = srec_len(*rhs) as int;
            let d = ins[a + b]->Assign_rhs;
            law_sflat_rec_temps(*lhs, fi, n, ins.take(a), *d->Binop_lhs);
            law_sflat_rec_temps(*rhs, fi, n + a, ins.subrange(a, a + b), *d->Binop_rhs);
            assert(spec_temps_from(ins.skip(a + b), n + a + b)) by {
                assert(ins.skip(a + b)[0] == ins[a + b]);
            }
            lemma_spec_temps_three(ins, n, a, b);
        },
        NestedExpr::Uop { expr, .. } => {
            let a = srec_len(*expr) as int;
            let d = ins[a]->Assign_rhs;
            law_sflat_rec_temps(*expr, fi, n, ins.take(a), *d->Uop_expr);
            assert(spec_temps_from(ins.skip(a), n + a)) by {
                assert(ins.skip(a)[0] == ins[a]);
            }
            lemma_spec_temps_split(ins, n, a);
        },
        NestedExpr::Conditional { if_true, guard, if_false, .. } => {
            let g = srec_len(*guard) as int;
            let t = srec_len(*if_true) as int;
            let f = srec_len(*if_false) as int;
            let d = ins[g + t + f]->Assign_rhs;
            law_sflat_rec_temps(*guard, fi, n, ins.take(g), *d->Conditional_guard);
            law_sflat_rec_temps(*if_true, fi, n + g, ins.subrange(g, g + t), *d->Conditional_if_true);
            law_sflat_rec_temps(*if_false, fi, n + g + t, ins.subrange(g + t, g + t + f), *d->Conditional_if_false);
            let first = ins.take(g + t + f);
            assert(first.take(g) =~= ins.take(g));
            assert(first.subrange(g, g + t) =~= ins.subrange(g, g + t));
            assert(first.skip(g + t) =~= ins.subrange(g + t, g + t + f));
            lemma_spec_temps_three(first, n, g, t);
            assert(ins.take(g + t + f) =~= first);
            assert(spec_temps_from(ins.skip(g + t + f), n + g + t + f)) by {
                assert(ins.skip(g + t + f)[0] == ins[g + t + f]);
            }
            lemma_spec_temps_split(ins, n, g + t + f);
        },
        NestedExpr::Term(t) => {
            lemma_sflat_term_temps(t, n, ins, r);
        },
    }
}

/// The term form of `law_sflat_rec_temps`.
proof fn lemma_sflat_term_temps(t: SpecTerm, n: int, ins: Seq<SpecStmt>, r: SpecExpr)
    requires
        sflat_term(t, n, ins, r),
    ensures
        r is Term,
        spec_temps_from(ins, n),
    decreases t, 0int,
{
    match t {
        SpecTerm::Call { info, function, args, template } => {
            let c = srec_lens(args@) as int;
            let x = ins[c]->Assign_rhs;
            lemma_sflat_list_temps(args@, info, n, ins.take(c), x->Term_0->Call_args@);
            assert(spec_temps_from(ins.skip(c), n + c)) by {
                assert(ins.skip(c)[0] == ins[c]);
            }
            lemma_spec_temps_split(ins, n, c);
        },
        SpecTerm::Lit { info, lit: SpecLiteral::Tuple(v) } => {
            lemma_sflat_list_temps(v@, info, n, ins, r->Term_0->Lit_lit->Tuple_0@);
        },
        SpecTerm::Lit { .. } => {
            assert(ins[0] matches SpecStmt::Assign { rhs, .. } && spec_shallow(rhs));
        },
        _ => {},
    }
}

/// The list form of `law_sflat_rec_temps`.
proof fn lemma_sflat_list_temps(v: Seq<SpecExpr>, fi: Info, n: int, ins: Seq<SpecStmt>, w: Seq<SpecExpr>)
    requires
        sflat_list(v, fi, n, ins, w),
    ensures
        spec_temps_from(ins, n),
        forall|j: int| 0 <= j < w.len() ==> #[trigger] w[j] is Term,
    decreases v, 1int,
{
    if v.len() > 0 {
        let p = srec_lens(v.drop_last()) as int;
        lemma_sflat_list_temps(v.drop_last(), fi, n, ins.take(p), w.drop_last());
        law_sflat_rec_temps(v.last(), fi, n + p, ins.skip(p), w.last());
        lemma_spec_temps_split(ins, n, p);
        assert forall|j: int| 0 <= j < w.len() implies #[trigger] w[j] is Term by {
            if j < w.len() - 1 {
                assert(w.drop_last()[j] == w[j]);
            }
        }
    }
}

/// The statement has no nested expression: a declaration's value is shallow,
/// the operands of an assignment, a return and a guard are shallow terms, and
/// nested blocks are flat too.
pub open spec fn stmt_is_flat(st: SchedStmt) -> bool
    decreases st, 0int,
{
    match st {
        SchedStmt::Decl { expr, .. } => match expr {
            Some(e) => shallow(e),
            None => true,
        },
        SchedStmt::Assign { lhs, rhs, .. } => lhs is Term && shallow(lhs) && rhs is Term && shallow(rhs),
        SchedStmt::Return(_, e) => e is Term && shallow(e),
        SchedStmt::If { guard, true_block, false_block, .. } => guard is Term && shallow(guard) && list_is_flat(
            true_block@,
        )
            && list_is_flat(false_block@),
        SchedStmt::Block(_, ss) => list_is_flat(ss@),
        SchedStmt::Sequence { block, .. } => stmt_is_flat(*block),
        SchedStmt::Call(..) => false,
        _ => true,
    }
}

/// The statements have no nested expression.
pub open spec fn list_is_flat(s: Seq<SchedStmt>) -> bool
    decreases s, 1int,
{
    if s.len() == 0 {
        true
    } else {
        list_is_flat(s.drop_last()) && stmt_is_flat(s.last())
    }
}

/// A list is flat exactly when each of its statements is.
proof fn lemma_list_is_flat(s: Seq<SchedStmt>)
    ensures
        list_is_flat(s) <==> forall|j: int| 0 <= j < s.len() ==> stmt_is_flat(#[trigger] s[j]),
    decreases s.len(),
{
    if s.len() > 0 {
        lemma_list_is_flat(s.drop_last());
        if forall|j: int| 0 <= j < s.len() ==> stmt_is_flat(#[trigger] s[j]) {
            assert forall|j: int| 0 <= j < s.drop_last().len() implies stmt_is_flat(#[trigger] s.drop_last()[j]) by {
                assert(s.drop_last()[j] == s[j]);
            }
        }
        if list_is_flat(s) {
            assert forall|j: int| 0 <= j < s.len() implies stmt_is_flat(#[trigger] s[j]) by {
                if j < s.len() - 1 {
                    assert(s.drop_last()[j] == s[j]);
                }
            }
        }
    }
}

/// The declarations of temporaries are flat statements.
proof fn lemma_temps_flat(ins: Seq<SchedStmt>, n: int)
    requires
        temps_from(ins, n),
    ensures
        forall|j: int| 0 <= j < ins.len() ==> stmt_is_flat(#[trigger] ins[j]),
{
    assert forall|j: int| 0 <= j < ins.len() implies stmt_is_flat(#[trigger] ins[j]) by {
        assert(ins[j] matches SchedStmt::Decl { expr: Some(x), .. } && shallow(x));
    }
}

/// The declarations of temporaries, then a flat statement: all flat.
proof fn lemma_piece_flat(out: Seq<SchedStmt>, a: int, n: int)
    requires
        0 <= a < out.len(),
        out.len() == a + 1,
        temps_from(out.take(a), n),
        stmt_is_flat(out[a]),
    ensures
        forall|j: int| 0 <= j < out.len() ==> stmt_is_flat(#[trigger] out[j]),
{
    lemma_temps_flat(out.take(a), n);
    assert forall|j: int| 0 <= j < out.len() implies stmt_is_flat(#[trigger] out[j]) by {
        if j < a {
            assert(out.take(a)[j] == out[j]);
        }
    }
}

/// Flattening a statement leaves no nested expression.
proof fn lemma_flat_stmt_flat(st: SchedStmt, n: int, out: Seq<SchedStmt>)
    requires
        flat_stmt(st, n, out),
    ensures
        forall|j: int| 0 <= j < out.len() ==> stmt_is_flat(#[trigger] out[j]),
    decreases st, 0int,
{
    match st {
        SchedStmt::Decl { info, lhs, expr: Some(e), is_const } => {
            let a = out.len() - 1;
            let x = out[a]->Decl_expr->Some_0;
            if is_const {
                law_flat_top_temps(e, info, n, out.take(a), x);
            } else {
                law_flat_rec_temps(e, info, n, out.take(a), x);
            }
            lemma_piece_flat(out, a, n);
        },
        SchedStmt::Assign { info, lhs, rhs, .. } => {
            let a = rec_len(lhs) as int;
            let b = rec_len(rhs) as int;
            let last = out[a + b];
            law_flat_rec_temps(lhs, info, n, out.take(a), last->Assign_lhs);
            law_flat_rec_temps(rhs, info, n + a, out.subrange(a, a + b), last->Assign_rhs);
            let first = out.take(a + b);
            assert(first.take(a) =~= out.take(a));
            assert(first.skip(a) =~= out.subrange(a, a + b));
            lemma_temps_split(first, n, a);
            lemma_piece_flat(out, a + b, n);
        },
        SchedStmt::Return(info, e) => {
            let a = rec_len(e) as int;
            law_flat_rec_temps(e, info, n, out.take(a), out[a]->Return_1);
            lemma_piece_flat(out, a, n);
        },
        SchedStmt::If { info, guard, true_block, false_block, .. } => {
            let a = rec_len(guard) as int;
            let last = out[a];
            law_flat_rec_temps(guard, info, n, out.take(a), last->If_guard);
            lemma_flat_stmts_flat(true_block@, n + a, last->If_true_block@);
            lemma_flat_stmts_flat(false_block@, n + a + list_temps(true_block@), last->If_false_block@);
            lemma_list_is_flat(last->If_true_block@);
            lemma_list_is_flat(last->If_false_block@);
            lemma_piece_flat(out, a, n);
        },
        SchedStmt::Block(info, ss) => {
            lemma_flat_stmts_flat(ss@, n, out[0]->Block_1@);
            lemma_list_is_flat(out[0]->Block_1@);
        },
        SchedStmt::Sequence { block, .. } => {
            let m = out.len() - 1;
            let b = *out[m]->Sequence_block;
            let inner = out.take(m).push(b);
            lemma_flat_stmt_flat(*block, n, inner);
            assert forall|j: int| 0 <= j < out.len() implies stmt_is_flat(#[trigger] out[j]) by {
                if j < m {
                    assert(inner[j] == out[j]);
                } else {
                    assert(inner[m] == b);
                }
            }
        },
        _ => {},
    }
}

/// Flattening statements leaves no nested expression.
proof fn lemma_flat_stmts_flat(s: Seq<SchedStmt>, n: int, out: Seq<SchedStmt>)
    requires
        flat_stmts(s, n, out),
    ensures
        forall|j: int| 0 <= j < out.len() ==> stmt_is_flat(#[trigger] out[j]),
    decreases s, 1int,
{
    if s.len() > 0 {
        let p = list_out_len(s.drop_last()) as int;
        lemma_flat_stmts_flat(s.drop_last(), n, out.take(p));
        lemma_flat_stmt_flat(s.last(), n + list_temps(s.drop_last()), out.skip(p));
        assert forall|j: int| 0 <= j < out.len() implies stmt_is_flat(#[trigger] out[j]) by {
            if j < p {
                assert(out.take(p)[j] == out[j]);
            } else {
                assert(out.skip(p)[j - p] == out[j]);
            }
        }
    }
}

/// After flattening a schedule, no statement, at any depth, holds a nested
/// expression: declarations hold shallow values, and assignments, returns and
/// guards hold terms.
pub proof fn law_flatten_schedule_flat(stmts: Seq<SchedStmt>, out: Seq<SchedStmt>)
    requires
        flat_stmts(stmts, 0, out),
    ensures
        list_is_flat(out),
{
    lemma_flat_stmts_flat(stmts, 0, out);
    lemma_list_is_flat(out);
}

/// Flattening a top-level spec expression leaves an expression whose operands
/// are terms, and its `k`-th assignment is of the `(n + k)`-th temporary.
pub proof fn law_sflat_top_temps(x: SpecExpr, fi: Info, n: int, ins: Seq<SpecStmt>, r: SpecExpr)
    requires
        sflat_top(x, fi, n, ins, r),
    ensures
        spec_shallow(r),
        spec_temps_from(ins, n),
{
    match x {
        NestedExpr::Binop { lhs, rhs, .. } => {
            let a = srec_len(*lhs) as int;
            law_sflat_rec_temps(*lhs, fi, n, ins.take(a), *r->Binop_lhs);
            law_sflat_rec_temps(*rhs, fi, n + a, ins.skip(a), *r->Binop_rhs);
            lemma_spec_temps_split(ins, n, a);
        },
        NestedExpr::Uop { expr, .. } => {
            law_sflat_rec_temps(*expr, fi, n, ins, *r->Uop_expr);
        },
        NestedExpr::Conditional { if_true, guard, if_false, .. } => {
            let g = srec_len(*guard) as int;
            let t = srec_len(*if_true) as int;
            law_sflat_rec_temps(*guard, fi, n, ins.take(g), *r->Conditional_guard);
            law_sflat_rec_temps(*if_true, fi, n + g, ins.subrange(g, g + t), *r->Conditional_if_true);
            law_sflat_rec_temps(*if_false, fi, n + g + t, ins.skip(g + t), *r->Conditional_if_false);
            lemma_spec_temps_three(ins, n, g, t);
        },
        NestedExpr::Term(SpecTerm::Call { info, args, .. }) => {
            lemma_sflat_list_temps(args@, info, n, ins, r->Term_0->Call_args@);
        },
        NestedExpr::Term(SpecTerm::Lit { info, lit: SpecLiteral::Tuple(v) }) => {
            lemma_sflat_term_temps(SpecTerm::Lit { info, lit: SpecLiteral::Tuple(v) }, n, ins, r);
        },
        NestedExpr::Term(_) => {},
    }
}

/// The spec statement has no nested expression: an assignment's value is
/// shallow and a returned value is a term.
pub open spec fn spec_stmt_is_flat(st: SpecStmt) -> bool {
    match st {
        SpecStmt::Assign { rhs, .. } => spec_shallow(rhs),
        SpecStmt::Returns(_, e) => e is Term,
    }
}

/// After flattening a spec, no statement holds a nested expression.
pub proof fn law_flatten_spec_flat(stmts: Seq<SpecStmt>, n: int, out: Seq<SpecStmt>)
    requires
        sflat_stmts(stmts, n, out),
    ensures
        forall|j: int| 0 <= j < out.len() ==> spec_stmt_is_flat(#[trigger] out[j]),
    decreases stmts.len(),
{
    if stmts.len() > 0 {
        let p = slist_out_len(stmts.drop_last()) as int;
        law_flatten_spec_flat(stmts.drop_last(), n, out.take(p));
        let piece = out.skip(p);
        let st = stmts.last();
        let m = n + slist_temps(stmts.drop_last());
        let a = piece.len() - 1;
        match st {
            SpecStmt::Assign { info, rhs, .. } => {
                law_sflat_top_temps(rhs, info, m, piece.take(a), piece[a]->Assign_rhs);
            },
            SpecStmt::Returns(info, e) => {
                law_sflat_rec_temps(e, info, m, piece.take(a), piece[a]->Returns_1);
            },
        }
        assert forall|j: int| 0 <= j < out.len() implies spec_stmt_is_flat(#[trigger] out[j]) by {
            if j < p {
                assert(out.take(p)[j] == out[j]);
            } else {
                assert(piece[j - p] == out[j]);
                if j - p < a {
                    assert(piece.take(a)[j - p] == piece[j - p]);
                }
            }
        }
    }
}

// ---------------------------------------------------------------------------
// Template expressions there and back.
// ---------------------------------------------------------------------------

/// The scheduling forms of a list of template expressions, element by element.
proof fn lemma_sched_of_list_elems(v: Seq<SpecExpr>, w: Seq<SchedExpr>)
    requires
        sched_of_list(v, w),
    ensures
        w.len() == v.len(),
        forall|j: int| 0 <= j < v.len() ==> sched_of(#[trigger] v[j], w[j]),
    decreases v.len(),
{
    if v.len() > 0 {
        lemma_sched_of_list_elems(v.drop_last(), w.drop_last());
        assert forall|j: int| 0 <= j < v.len() implies sched_of(#[trigger] v[j], w[j]) by {
            if j < v.len() - 1 {
                assert(v.drop_last()[j] == v[j] && w.drop_last()[j] == w[j]);
            }
        }
    }
}

/// The conversions of a list of expressions, element by element.
proof fn lemma_converts_from_elems(a: Seq<SchedExpr>, b: Seq<SpecExpr>, i: int)
    requires
        0 <= i,
        converts_from(a, b, i),
    ensures
        a.len() == b.len(),
        forall|j: int| i <= j < a.len() ==> converts(#[trigger] a[j], b[j]),
    decreases a.len() - i,
{
    if i < a.len() {
        lemma_converts_from_elems(a, b, i + 1);
    }
}

/// A list of expressions none of which has an error has none.
proof fn lemma_no_error_from(a: Seq<SchedExpr>, i: int)
    requires
        0 <= i,
        forall|j: int| i <= j < a.len() ==> to_spec_error(#[trigger] a[j]) is None,
    ensures
        to_spec_error_from(a, i) is None,
    decreases a.len() - i,
{
    if i < a.len() {
        lemma_no_error_from(a, i + 1);
    }
}

/// The scheduling form of a template expression is a valid spec expression.
proof fn lemma_sched_of_no_error(x: SpecExpr, y: SchedExpr)
    requires
        sched_of(x, y),
    ensures
        to_spec_error(y) is None,
    decreases x, 0int,
{
    match x {
        NestedExpr::Binop { lhs, rhs, .. } => {
            lemma_sched_of_no_error(*lhs, *y->Binop_lhs);
            lemma_sched_of_no_error(*rhs, *y->Binop_rhs);
        },
        NestedExpr::Uop { expr, .. } => {
            lemma_sched_of_no_error(*expr, *y->Uop_expr);
        },
        NestedExpr::Conditional { if_true, guard, if_false, .. } => {
            lemma_sched_of_no_error(*if_true, *y->Conditional_if_true);
            lemma_sched_of_no_error(*guard, *y->Conditional_guard);
            lemma_sched_of_no_error(*if_false, *y->Conditional_if_false);
        },
        NestedExpr::Term(SpecTerm::Lit { lit: SpecLiteral::Tuple(v), .. }) => {
            let w = y->Term_0->Lit_lit->Tuple_0;
            lemma_sched_of_list_no_error(v@, w@);
        },
        NestedExpr::Term(SpecTerm::Lit { lit: SpecLiteral::Array(v), .. }) => {
            let w = y->Term_0->Lit_lit->Array_0;
            lemma_sched_of_list_no_error(v@, w@);
        },
        _ => {},
    }
}

/// The list form of `lemma_sched_of_no_error`.
proof fn lemma_sched_of_list_no_error(v: Seq<SpecExpr>, w: Seq<SchedExpr>)
    requires
        sched_of_list(v, w),
    ensures
        to_spec_error_from(w, 0) is None,
    decreases v, 1int,
{
    lemma_sched_of_list_elems(v, w);
    assert forall|j: int| 0 <= j < w.len() implies to_spec_error(#[trigger] w[j]) is None by {
        lemma_sched_of_no_error(v[j], w[j]);
    }
    lemma_no_error_from(w, 0);
}

/// Converting the scheduling form of a template expression back gives the
/// template expression (structurally).
proof fn lemma_sched_of_converts(x: SpecExpr, y: SchedExpr, r: SpecExpr)
    requires
        sched_of(x, y),
        converts(y, r),
    ensures
        same_spec_expr(x, r),
    decreases x, 0int,
{
    match x {
        NestedExpr::Binop { lhs, rhs, .. } => {
            lemma_sched_of_converts(*lhs, *y->Binop_lhs, *r->Binop_lhs);
            lemma_sched_of_converts(*rhs, *y->Binop_rhs, *r->Binop_rhs);
        },
        NestedExpr::Uop { expr, .. } => {
            lemma_sched_of_converts(*expr, *y->Uop_expr, *r->Uop_expr);
        },
        NestedExpr::Conditional { if_true, guard, if_false, .. } => {
            lemma_sched_of_converts(*if_true, *y->Conditional_if_true, *r->Conditional_if_true);
            lemma_sched_of_converts(*guard, *y->Conditional_guard, *r->Conditional_guard);
            lemma_sched_of_converts(*if_false, *y->Conditional_if_false, *r->Conditional_if_false);
        },
        NestedExpr::Term(SpecTerm::Lit { lit: SpecLiteral::Tuple(v), .. }) => {
            let w = y->Term_0->Lit_lit->Tuple_0;
            let b = r->Term_0->Lit_lit->Tuple_0;
            lemma_sched_of_list_converts(v@, w@, b@);
            assert(crate::ast::same_spec_lit(x->Term_0->Lit_lit, r->Term_0->Lit_lit));
            assert(crate::ast::same_spec_term(x->Term_0, r->Term_0));
        },
        NestedExpr::Term(SpecTerm::Lit { lit: SpecLiteral::Array(v), .. }) => {
            let w = y->Term_0->Lit_lit->Array_0;
            let b = r->Term_0->Lit_lit->Array_0;
            lemma_sched_of_list_converts(v@, w@, b@);
            assert(crate::ast::same_spec_lit(x->Term_0->Lit_lit, r->Term_0->Lit_lit));
            assert(crate::ast::same_spec_term(x->Term_0, r->Term_0));
        },
        NestedExpr::Term(SpecTerm::Lit { lit, info }) => {
            assert(crate::ast::same_spec_lit(lit, r->Term_0->Lit_lit));
            assert(crate::ast::same_spec_term(x->Term_0, r->Term_0));
        },
        NestedExpr::Term(SpecTerm::Var { .. }) => {
            assert(crate::ast::same_spec_term(x->Term_0, r->Term_0));
        },
        _ => {},
    }
}

/// The list form of `lemma_sched_of_converts`.
proof fn lemma_sched_of_list_converts(v: Seq<SpecExpr>, w: Seq<SchedExpr>, b: Seq<SpecExpr>)
    requires
        sched_of_list(v, w),
        converts_from(w, b, 0),
    ensures
        same_spec_exprs(v, b),
    decreases v, 1int,
{
    lemma_sched_of_list_elems(v, w);
    lemma_converts_from_elems(w, b, 0);
    assert forall|j: int| 0 <= j < v.len() implies same_spec_expr(#[trigger] v[j], b[j]) by {
        lemma_sched_of_converts(v[j], w[j], b[j]);
    }
}

/// A template expression written in the scheduling language converts back into
/// a spec expression without error (`ASTFactory::sched_to_spec_expr` succeeds on
/// it), and what it converts into is the template expression, structurally.
pub proof fn law_spec_sched_round_trip(x: SpecExpr, y: SchedExpr, r: SpecExpr)
    requires
        sched_of(x, y),
    ensures
        to_spec_error(y) is None,
        converts(y, r) ==> same_spec_expr(x, r),
{
    lemma_sched_of_no_error(x, y);
    if converts(y, r) {
        lemma_sched_of_converts(x, y, r);
    }
}

} // verus!
