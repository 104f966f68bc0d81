//! Renames the variables of a scheduling function so that variables of different
//! scopes get different names: each declaration of `x` gets the next fresh name
//! `x_0`, `x_1`, ..., and each use refers to the declaration in scope (a name
//! never declared is left as it is).
use vstd::prelude::*;

use crate::ast::{
    ArgsOrEnc, EncodedStmt, FullType, NestedExpr, SchedExpr, SchedFuncCall, SchedLiteral, SchedStmt, SchedTerm,
    SpecExpr, SpecLiteral, SpecTerm, Tags, TemplateArgs,
};
use crate::text::{decimal, is_digit, lemma_decimal_digits, lemma_decimal_injective, push_char, text_of, u64_to_text};

verus! {

/// The map of names given by a list of (name, number) entries; a later entry
/// overrides an earlier one.
pub open spec fn names_map(v: Seq<(String, u64)>) -> Map<Seq<char>, u64>
    decreases v.len(),
{
    if v.len() == 0 {
        Map::empty()
    } else {
        names_map(v.drop_last()).insert(v.last().0@, v.last().1)
    }
}

/// The internal name of the `id`-th variable named `name`: `name_id`.
pub open spec fn internal_text(name: Seq<char>, id: u64) -> Seq<char> {
    name + "_"@ + decimal(id as nat)
}

/// The name a use of `name` refers to: its current internal name, or `name`
/// itself when it was never declared.
pub open spec fn cur_text(name: Seq<char>, cur: Map<Seq<char>, u64>) -> Seq<char> {
    if cur.contains_key(name) {
        internal_text(name, cur[name])
    } else {
        name
    }
}

/// The number the next declaration of `name` gets.
pub open spec fn next_id(latest: Map<Seq<char>, u64>, name: Seq<char>) -> u64 {
    if latest.contains_key(name) {
        latest[name]
    } else {
        0
    }
}

/// Every number in `m` is at most `k`.
pub open spec fn bounded(m: Map<Seq<char>, u64>, k: int) -> bool {
    forall|x: Seq<char>| #[trigger] m.contains_key(x) ==> m[x] <= k
}

/// Declaring the names `names` in order: the next numbers, the current numbers,
/// and the new names.
pub open spec fn declare(names: Seq<Seq<char>>, latest: Map<Seq<char>, u64>, cur: Map<Seq<char>, u64>) -> (
    Map<Seq<char>, u64>,
    Map<Seq<char>, u64>,
    Seq<Seq<char>>,
)
    decreases names.len(),
{
    if names.len() == 0 {
        (latest, cur, seq![])
    } else {
        let (l, c, out) = declare(names.drop_last(), latest, cur);
        let x = names.last();
        let id = next_id(l, x);
        (l.insert(x, (id + 1) as u64), c.insert(x, id), out.push(internal_text(x, id)))
    }
}

/// The names of a list of declarations.
pub open spec fn decl_names<T>(s: Seq<(String, T)>) -> Seq<Seq<char>> {
    s.map_values(|p: (String, T)| p.0@)
}

/// `new` is the list of declarations `old` with the names `names`.
pub open spec fn renamed_decls<T>(old: Seq<(String, T)>, new: Seq<(String, T)>, names: Seq<Seq<char>>) -> bool {
    &&& new.len() == old.len()
    &&& names.len() == old.len()
    &&& forall|j: int| 0 <= j < old.len() ==> #[trigger] new[j].0@ == names[j] && new[j].1 == old[j].1
}

/// The expression has no conditional expressions, and its value template
/// arguments have neither conditionals nor calls.
pub open spec fn expr_ok(e: SchedExpr) -> bool
    decreases e, 0int,
{
    match e {
        NestedExpr::Binop { lhs, rhs, .. } => expr_ok(*lhs) && expr_ok(*rhs),
        NestedExpr::Uop { expr, .. } => expr_ok(*expr),
        NestedExpr::Conditional { .. } => false,
        NestedExpr::Term(SchedTerm::Call(_, call)) => call_ok(call),
        NestedExpr::Term(SchedTerm::Lit { lit: SchedLiteral::Tuple(v), .. }) => exprs_ok(v@, 0),
        NestedExpr::Term(SchedTerm::Lit { lit: SchedLiteral::Array(v), .. }) => exprs_ok(v@, 0),
        _ => true,
    }
}

/// The expressions of `s` from `i` on are fine for renaming.
pub open spec fn exprs_ok(s: Seq<SchedExpr>, i: int) -> bool
    decreases s, s.len() - i,
{
    if i < 0 || i >= s.len() {
        true
    } else {
        expr_ok(s[i]) && exprs_ok(s, i + 1)
    }
}

/// The arguments and template arguments of a call are fine for renaming.
pub open spec fn call_ok(call: SchedFuncCall) -> bool
    decreases call, 0int,
{
    &&& match *call.args {
        ArgsOrEnc::Args(v) => exprs_ok(v@, 0),
        ArgsOrEnc::Encode(EncodedStmt::Move { rhs, .. }) => expr_ok(rhs),
    }
    &&& match call.templates {
        Some(TemplateArgs::Vals(vs)) => spec_exprs_ok(vs@, 0),
        _ => true,
    }
}

/// A template expression has neither conditionals nor calls.
pub open spec fn spec_expr_ok(e: SpecExpr) -> bool
    decreases e, 0int,
{
    match e {
        NestedExpr::Binop { lhs, rhs, .. } => spec_expr_ok(*lhs) && spec_expr_ok(*rhs),
        NestedExpr::Uop { expr, .. } => spec_expr_ok(*expr),
        NestedExpr::Conditional { .. } => false,
        NestedExpr::Term(SpecTerm::Call { .. }) => false,
        NestedExpr::Term(SpecTerm::Lit { lit: SpecLiteral::Tuple(v), .. }) => spec_exprs_ok(v@, 0),
        NestedExpr::Term(SpecTerm::Lit { lit: SpecLiteral::Array(v), .. }) => spec_exprs_ok(v@, 0),
        _ => true,
    }
}

/// The template expressions of `s` from `i` on are fine for renaming.
pub open spec fn spec_exprs_ok(s: Seq<SpecExpr>, i: int) -> bool
    decreases s, s.len() - i,
{
    if i < 0 || i >= s.len() {
        true
    } else {
        spec_expr_ok(s[i]) && spec_exprs_ok(s, i + 1)
    }
}

/// `e2` is the template expression `e` with its variables renamed by `cur`.
pub open spec fn ren_spec_expr(e: SpecExpr, e2: SpecExpr, cur: Map<Seq<char>, u64>) -> bool
    decreases e, 0int,
{
    match e {
        NestedExpr::Binop { info, op, lhs, rhs } => match e2 {
            NestedExpr::Binop { info: i, op: o, lhs: l, rhs: r } => i == info && o == op && ren_spec_expr(*lhs, *l, cur)
                && ren_spec_expr(*rhs, *r, cur),
            _ => false,
        },
        NestedExpr::Uop { info, op, expr } => match e2 {
            NestedExpr::Uop { info: i, op: o, expr: x } => i == info && o == op && ren_spec_expr(*expr, *x, cur),
            _ => false,
        },
        NestedExpr::Term(SpecTerm::Var { info, name }) => match e2 {
            NestedExpr::Term(SpecTerm::Var { info: i, name: n }) => i == info && n@ == cur_text(name@, cur),
            _ => false,
        },
        NestedExpr::Term(SpecTerm::Lit { info, lit: SpecLiteral::Tuple(v) }) => match e2 {
            NestedExpr::Term(SpecTerm::Lit { info: i, lit: SpecLiteral::Tuple(w) }) => i == info && ren_spec_exprs(
                v@,
                w@,
                0,
                cur,
            ),
            _ => false,
        },
        NestedExpr::Term(SpecTerm::Lit { info, lit: SpecLiteral::Array(v) }) => match e2 {
            NestedExpr::Term(SpecTerm::Lit { info: i, lit: SpecLiteral::Array(w) }) => i == info && ren_spec_exprs(
                v@,
                w@,
                0,
                cur,
            ),
            _ => false,
        },
        _ => e2 == e,
    }
}

/// `s2` is `s` with the variables of its template expressions from `i` on renamed.
pub open spec fn ren_spec_exprs(s: Seq<SpecExpr>, s2: Seq<SpecExpr>, i: int, cur: Map<Seq<char>, u64>) -> bool
    decreases s, s.len() - i,
{
    if i < 0 || i >= s.len() {
        s2.len() == s.len()
    } else {
        ren_spec_expr(s[i], s2[i], cur) && ren_spec_exprs(s, s2, i + 1, cur)
    }
}

/// `e2` is the expression `e` with its uses renamed by `cur` (call targets are
/// functions and keep their names).
pub open spec fn ren_expr(e: SchedExpr, e2: SchedExpr, cur: Map<Seq<char>, u64>) -> bool
    decreases e, 0int,
{
    match e {
        NestedExpr::Binop { info, op, lhs, rhs } => match e2 {
            NestedExpr::Binop { info: i, op: o, lhs: l, rhs: r } => i == info && o == op && ren_expr(*lhs, *l, cur)
                && ren_expr(*rhs, *r, cur),
            _ => false,
        },
        NestedExpr::Uop { info, op, expr } => match e2 {
            NestedExpr::Uop { info: i, op: o, expr: x } => i == info && o == op && ren_expr(*expr, *x, cur),
            _ => false,
        },
        NestedExpr::Term(SchedTerm::Var { info, name, tag }) => match e2 {
            NestedExpr::Term(SchedTerm::Var { info: i, name: n, tag: t }) => i == info && t == tag && n@ == cur_text(
                name@,
                cur,
            ),
            _ => false,
        },
        NestedExpr::Term(SchedTerm::Call(info, call)) => match e2 {
            NestedExpr::Term(SchedTerm::Call(i, c2)) => i == info && ren_call(call, c2, cur),
            _ => false,
        },
        NestedExpr::Term(SchedTerm::Lit { info, lit: SchedLiteral::Tuple(v), tag }) => match e2 {
            NestedExpr::Term(SchedTerm::Lit { info: i, lit: SchedLiteral::Tuple(w), tag: t }) => i == info && t == tag
                && ren_exprs(v@, w@, 0, cur),
            _ => false,
        },
        NestedExpr::Term(SchedTerm::Lit { info, lit: SchedLiteral::Array(v), tag }) => match e2 {
            NestedExpr::Term(SchedTerm::Lit { info: i, lit: SchedLiteral::Array(w), tag: t }) => i == info && t == tag
                && ren_exprs(v@, w@, 0, cur),
            _ => false,
        },
        _ => e2 == e,
    }
}

/// `s2` is `s` with the uses of its expressions from `i` on renamed.
pub open spec fn ren_exprs(s: Seq<SchedExpr>, s2: Seq<SchedExpr>, i: int, cur: Map<Seq<char>, u64>) -> bool
    decreases s, s.len() - i,
{
    if i < 0 || i >= s.len() {
        s2.len() == s.len()
    } else {
        ren_expr(s[i], s2[i], cur) && ren_exprs(s, s2, i + 1, cur)
    }
}

/// `c2` is the call `call` with the uses in its arguments and value template
/// arguments renamed.
pub open spec fn ren_call(call: SchedFuncCall, c2: SchedFuncCall, cur: Map<Seq<char>, u64>) -> bool
    decreases call, 0int,
{
    &&& c2.target == call.target
    &&& c2.tag == call.tag
    &&& c2.yield_call == call.yield_call
    &&& match *call.args {
        ArgsOrEnc::Args(v) => match *c2.args {
            ArgsOrEnc::Args(w) => ren_exprs(v@, w@, 0, cur),
            _ => false,
        },
        ArgsOrEnc::Encode(EncodedStmt::Move { info, lhs, rhs }) => match *c2.args {
            ArgsOrEnc::Encode(EncodedStmt::Move { info: i, lhs: l, rhs: r }) => i == info && l == lhs && ren_expr(
                rhs,
                r,
                cur,
            ),
            _ => false,
        },
    }
    &&& match call.templates {
        Some(TemplateArgs::Vals(vs)) => match c2.templates {
            Some(TemplateArgs::Vals(ws)) => ren_spec_exprs(vs@, ws@, 0, cur),
            _ => false,
        },
        _ => c2.templates == call.templates,
    }
}

/// The state (next numbers, current numbers) after renaming the statement `st`.
/// Nested blocks see the current numbers but do not change them; only the next
/// numbers flow out of them.
pub open spec fn stmt_step(st: SchedStmt, latest: Map<Seq<char>, u64>, cur: Map<Seq<char>, u64>) -> (
    Map<Seq<char>, u64>,
    Map<Seq<char>, u64>,
)
    decreases st, 0int,
{
    match st {
        SchedStmt::Decl { lhs, .. } => {
            let (l, c, _) = declare(decl_names(lhs@), latest, cur);
            (l, c)
        },
        SchedStmt::If { true_block, false_block, .. } => {
            let l1 = list_step(true_block@, latest, cur).0;
            (list_step(false_block@, l1, cur).0, cur)
        },
        SchedStmt::Block(_, ss) => (list_step(ss@, latest, cur).0, cur),
        SchedStmt::Sequence { dests, block, .. } => {
            let l1 = stmt_step(*block, latest, cur).0;
            let (l, c, _) = declare(decl_names(dests@), l1, cur);
            (l, c)
        },
        _ => (latest, cur),
    }
}

/// The state after renaming the statements `s` in order.
pub open spec fn list_step(s: Seq<SchedStmt>, latest: Map<Seq<char>, u64>, cur: Map<Seq<char>, u64>) -> (
    Map<Seq<char>, u64>,
    Map<Seq<char>, u64>,
)
    decreases s, 1int,
{
    if s.len() == 0 {
        (latest, cur)
    } else {
        let (l, c) = list_step(s.drop_last(), latest, cur);
        stmt_step(s.last(), l, c)
    }
}

/// The number of names the statement `st` declares, at any depth.
pub open spec fn stmt_decls(st: SchedStmt) -> nat
    decreases st, 0int,
{
    match st {
        SchedStmt::Decl { lhs, .. } => lhs@.len(),
        SchedStmt::If { true_block, false_block, .. } => list_decls(true_block@) + list_decls(false_block@),
        SchedStmt::Block(_, ss) => list_decls(ss@),
        SchedStmt::Sequence { dests, block, .. } => stmt_decls(*block) + dests@.len(),
        _ => 0,
    }
}

/// The number of names the statements `s` declare, at any depth.
pub open spec fn list_decls(s: Seq<SchedStmt>) -> nat
    decreases s, 1int,
{
    if s.len() == 0 {
        0
    } else {
        list_decls(s.drop_last()) + stmt_decls(s.last())
    }
}

/// Every expression of the statement `st` is fine for renaming.
pub open spec fn stmt_ok(st: SchedStmt) -> bool
    decreases st, 0int,
{
    match st {
        SchedStmt::Decl { expr, .. } => match expr {
            Some(e) => expr_ok(e),
            None => true,
        },
        SchedStmt::Assign { lhs, rhs, .. } => expr_ok(lhs) && expr_ok(rhs),
        SchedStmt::If { guard, true_block, false_block, .. } => expr_ok(guard) && list_ok(true_block@) && list_ok(
            false_block@,
        ),
        SchedStmt::Block(_, ss) => list_ok(ss@),
        SchedStmt::Return(_, e) => expr_ok(e),
        SchedStmt::Call(_, call) => call_ok(call),
        SchedStmt::Sequence { block, .. } => stmt_ok(*block),
        _ => true,
    }
}

/// Every expression of the statements `s` is fine for renaming.
pub open spec fn list_ok(s: Seq<SchedStmt>) -> bool
    decreases s, 1int,
{
    if s.len() == 0 {
        true
    } else {
        list_ok(s.drop_last()) && stmt_ok(s.last())
    }
}

/// `new` is the list of tags `old` with each variable renamed by `cur`.
pub open spec fn renamed_tags(old: Seq<(String, Tags)>, new: Seq<(String, Tags)>, cur: Map<Seq<char>, u64>) -> bool {
    &&& new.len() == old.len()
    &&& forall|j: int| 0 <= j < old.len() ==> #[trigger] new[j].0@ == cur_text(old[j].0@, cur) && new[j].1 == old[j].1
}

/// `s2` is the statement `st` renamed, from the state (`latest`, `cur`).
pub open spec fn ren_stmt(st: SchedStmt, s2: SchedStmt, latest: Map<Seq<char>, u64>, cur: Map<Seq<char>, u64>) -> bool
    decreases st, 0int,
{
    match st {
        SchedStmt::Decl { info, lhs, is_const, expr } => match s2 {
            SchedStmt::Decl { info: i, lhs: l, is_const: k, expr: x } => {
                &&& i == info
                &&& k == is_const
                &&& renamed_decls(lhs@, l@, declare(decl_names(lhs@), latest, cur).2)
                &&& match expr {
                    Some(e) => x matches Some(e2) && ren_expr(e, e2, cur),
                    None => x is None,
                }
            },
            _ => false,
        },
        SchedStmt::Assign { info, lhs, rhs, lhs_is_ref } => match s2 {
            SchedStmt::Assign { info: i, lhs: l, rhs: r, lhs_is_ref: k } => i == info && k == lhs_is_ref && ren_expr(
                lhs,
                l,
                cur,
            ) && ren_expr(rhs, r, cur),
            _ => false,
        },
        SchedStmt::If { info, guard, tag, true_block, false_block } => match s2 {
            SchedStmt::If { info: i, guard: g, tag: t, true_block: tb, false_block: fb } => {
                &&& i == info
                &&& t == tag
                &&& ren_expr(guard, g, cur)
                &&& ren_list(true_block@, tb@, latest, cur)
                &&& ren_list(false_block@, fb@, list_step(true_block@, latest, cur).0, cur)
            },
            _ => false,
        },
        SchedStmt::InEdgeAnnotation { info, tags } => match s2 {
            SchedStmt::InEdgeAnnotation { info: i, tags: t } => i == info && renamed_tags(tags@, t@, cur),
            _ => false,
        },
        SchedStmt::OutEdgeAnnotation { info, tags } => match s2 {
            SchedStmt::OutEdgeAnnotation { info: i, tags: t } => i == info && renamed_tags(tags@, t@, cur),
            _ => false,
        },
        SchedStmt::Block(info, ss) => match s2 {
            SchedStmt::Block(i, ss2) => i == info && ren_list(ss@, ss2@, latest, cur),
            _ => false,
        },
        SchedStmt::Return(info, e) => match s2 {
            SchedStmt::Return(i, e2) => i == info && ren_expr(e, e2, cur),
            _ => false,
        },
        SchedStmt::Call(info, call) => match s2 {
            SchedStmt::Call(i, c2) => i == info && ren_call(call, c2, cur),
            _ => false,
        },
        SchedStmt::Sequence { info, dests, block, is_const } => match s2 {
            SchedStmt::Sequence { info: i, dests: d, block: b, is_const: k } => {
                &&& i == info
                &&& k == is_const
                &&& ren_stmt(*block, *b, latest, cur)
                &&& renamed_decls(dests@, d@, declare(decl_names(dests@), stmt_step(*block, latest, cur).0, cur).2)
            },
            _ => false,
        },
        SchedStmt::Hole(_) => s2 == st,
    }
}

/// `s2` is the list of statements `s` renamed in order, from the state (`latest`, `cur`).
pub open spec fn ren_list(s: Seq<SchedStmt>, s2: Seq<SchedStmt>, latest: Map<Seq<char>, u64>, cur: Map<Seq<char>, u64>) -> bool
    decreases s, 1int,
{
    if s.len() == 0 {
        s2.len() == 0
    } else {
        let (l, c) = list_step(s.drop_last(), latest, cur);
        &&& s2.len() == s.len()
        &&& ren_list(s.drop_last(), s2.drop_last(), latest, cur)
        &&& ren_stmt(s.last(), s2.last(), l, c)
    }
}

/// Past the last entry named `x`, the map of names gives `x` what the entries
/// before it give.
proof fn lemma_names_map_prefix(v: Seq<(String, u64)>, i: int, x: Seq<char>)
    requires
        0 <= i <= v.len(),
        forall|j: int| i <= j < v.len() ==> (#[trigger] v[j]).0@ != x,
    ensures
        names_map(v).contains_key(x) == names_map(v.take(i)).contains_key(x),
        names_map(v).contains_key(x) ==> names_map(v)[x] == names_map(v.take(i))[x],
    decreases v.len(),
{
    if i < v.len() {
        lemma_names_map_prefix(v.drop_last(), i, x);
        assert(v.drop_last().take(i) =~= v.take(i));
    } else {
        assert(v.take(i) =~= v);
    }
}

/// Adding an entry to a list of names adds it to its map.
proof fn lemma_names_map_push(v: Seq<(String, u64)>, e: (String, u64))
    ensures
        names_map(v.push(e)) == names_map(v).insert(e.0@, e.1),
{
    assert(v.push(e).drop_last() =~= v);
}

/// Two lists of names that agree entry by entry give the same map.
proof fn lemma_names_map_same(a: Seq<(String, u64)>, b: Seq<(String, u64)>)
    requires
        a.len() == b.len(),
        forall|j: int| 0 <= j < a.len() ==> (#[trigger] a[j]).0@ == b[j].0@ && a[j].1 == b[j].1,
    ensures
        names_map(a) == names_map(b),
    decreases a.len(),
{
    if a.len() > 0 {
        lemma_names_map_same(a.drop_last(), b.drop_last());
    }
}

/// The number `name` has in the list of names `v`, if it has one.
fn lookup(v: &Vec<(String, u64)>, name: &String) -> (res: Option<u64>)
    ensures
        res matches Some(id) ==> names_map(v@).contains_key(name@) && names_map(v@)[name@] == id,
        res is None ==> !names_map(v@).contains_key(name@),
{
    let mut i = v.len();
    while i > 0
        invariant
            i <= v@.len(),
            forall|j: int| i <= j < v@.len() ==> (#[trigger] v@[j]).0@ != name@,
        decreases i,
    {
        if v[i - 1].0 == *name {
            proof {
                lemma_names_map_prefix(v@, i as int, name@);
                assert(v@.take(i as int).drop_last() =~= v@.take(i - 1));
            }
            return Some(v[i - 1].1);
        }
        i -= 1;
    }
    proof {
        lemma_names_map_prefix(v@, 0, name@);
    }
    None
}

/// A copy of a list of names, with the same map.
fn copy_names(v: &Vec<(String, u64)>) -> (res: Vec<(String, u64)>)
    ensures
        names_map(res@) == names_map(v@),
{
    let mut res: Vec<(String, u64)> = Vec::new();
    let mut i: usize = 0;
    while i < v.len()
        invariant
            i <= v@.len(),
            res@.len() == i,
            forall|j: int| 0 <= j < i ==> (#[trigger] res@[j]).0@ == v@[j].0@ && res@[j].1 == v@[j].1,
        decreases v@.len() - i,
    {
        res.push((v[i].0.clone(), v[i].1));
        i += 1;
    }
    proof {
        lemma_names_map_same(res@, v@);
    }
    res
}

/// The internal name of the `id`-th variable named `name`: `name_id`.
fn internal_name(name: &String, id: u64) -> (res: String)
    ensures
        res@ == internal_text(name@, id),
{
    let mut s = text_of(name.as_str());
    push_char(&mut s, '_');
    let d = u64_to_text(id);
    s.append(d.as_str());
    proof {
        reveal_strlit("_");
        assert(s@ =~= internal_text(name@, id));
    }
    s
}

/// The name a use of `name` refers to.
fn get_cur_name(name: &String, cur: &Vec<(String, u64)>) -> (res: String)
    ensures
        res@ == cur_text(name@, names_map(cur@)),
{
    match lookup(cur, name) {
        Some(id) => internal_name(name, id),
        None => name.clone(),
    }
}

/// Declares `name`: it gets the next number, which becomes its current one.
fn get_new_name(name: &String, latest: &mut Vec<(String, u64)>, cur: &mut Vec<(String, u64)>) -> (res: String)
    requires
        next_id(names_map(old(latest)@), name@) < u64::MAX,
    ensures
        names_map(final(latest)@) == names_map(old(latest)@).insert(
            name@,
            (next_id(names_map(old(latest)@), name@) + 1) as u64,
        ),
        names_map(final(cur)@) == names_map(old(cur)@).insert(name@, next_id(names_map(old(latest)@), name@)),
        res@ == internal_text(name@, next_id(names_map(old(latest)@), name@)),
{
    let ghost l0 = latest@;
    let ghost c0 = cur@;
    let id = match lookup(latest, name) {
        Some(i) => i,
        None => 0,
    };
    let s = internal_name(name, id);
    let e1 = (name.clone(), id);
    let e2 = (name.clone(), id + 1);
    proof {
        lemma_names_map_push(c0, e1);
        lemma_names_map_push(l0, e2);
    }
    cur.push(e1);
    latest.push(e2);
    s
}

/// Declares the names of `names` in order; the declarations come back with
/// their new names.
fn declare_names(
    names: Vec<(String, Option<FullType>)>,
    latest: &mut Vec<(String, u64)>,
    cur: &mut Vec<(String, u64)>,
    Ghost(k): Ghost<int>,
) -> (res: Vec<(String, Option<FullType>)>)
    requires
        0 <= k,
        bounded(names_map(old(latest)@), k),
        k + names@.len() <= u64::MAX,
    ensures
        names_map(final(latest)@) == declare(decl_names(names@), names_map(old(latest)@), names_map(old(cur)@)).0,
        names_map(final(cur)@) == declare(decl_names(names@), names_map(old(latest)@), names_map(old(cur)@)).1,
        renamed_decls(names@, res@, declare(decl_names(names@), names_map(old(latest)@), names_map(old(cur)@)).2),
        bounded(names_map(final(latest)@), k + names@.len()),
{
    let ghost orig = names@;
    let ghost ns = decl_names(orig);
    let ghost l0 = names_map(latest@);
    let ghost c0 = names_map(cur@);
    let n = names.len();
    let mut rest = names;
    let mut out: Vec<(String, Option<FullType>)> = Vec::new();
    let mut i: usize = 0;
    assert(ns.take(0) =~= Seq::<Seq<char>>::empty());
    while rest.len() > 0
        invariant
            ns == decl_names(orig),
            ns.len() == orig.len(),
            n == orig.len(),
            0 <= k,
            k + orig.len() <= u64::MAX,
            i + rest@.len() == orig.len(),
            rest@ == orig.skip(i as int),
            out@.len() == i,
            declare(ns.take(i as int), l0, c0).0 == names_map(latest@),
            declare(ns.take(i as int), l0, c0).1 == names_map(cur@),
            declare(ns.take(i as int), l0, c0).2.len() == i,
            forall|j: int|
                0 <= j < i ==> (#[trigger] out@[j]).0@ == declare(ns.take(i as int), l0, c0).2[j] && out@[j].1
                    == orig[j].1,
            bounded(names_map(latest@), k + i),
        decreases rest@.len(),
    {
        let (name, ty) = rest.remove(0);
        assert(name == orig[i as int].0 && ty == orig[i as int].1);
        let ghost before = declare(ns.take(i as int), l0, c0);
        let ghost lm = names_map(latest@);
        proof {
            assert(ns.take(i + 1).drop_last() =~= ns.take(i as int));
            assert(ns.take(i + 1).last() == name@);
            if lm.contains_key(name@) {
                assert(lm[name@] <= k + i);
            }
        }
        let new_name = get_new_name(&name, latest, cur);
        let ghost id = next_id(lm, name@);
        proof {
            assert forall|x: Seq<char>| #[trigger] names_map(latest@).contains_key(x) implies names_map(latest@)[x]
                <= k + i + 1 by {
                if x != name@ {
                    assert(lm.contains_key(x));
                }
            }
        }
        out.push((new_name, ty));
        i += 1;
    }
    assert(ns.take(i as int) =~= ns);
    out
}

/// The expressions of `s` from `i` on are each fine for renaming.
proof fn lemma_exprs_ok(s: Seq<SchedExpr>, i: int)
    requires
        0 <= i,
        exprs_ok(s, i),
    ensures
        forall|j: int| i <= j < s.len() ==> expr_ok(#[trigger] s[j]),
    decreases s.len() - i,
{
    if i < s.len() {
        lemma_exprs_ok(s, i + 1);
    }
}

/// Renaming each expression of `s` from `i` on renames the list.
proof fn lemma_ren_exprs(s: Seq<SchedExpr>, s2: Seq<SchedExpr>, i: int, cur: Map<Seq<char>, u64>)
    requires
        0 <= i,
        s2.len() == s.len(),
        forall|j: int| i <= j < s.len() ==> ren_expr(#[trigger] s[j], s2[j], cur),
    ensures
        ren_exprs(s, s2, i, cur),
    decreases s.len() - i,
{
    if i < s.len() {
        lemma_ren_exprs(s, s2, i + 1, cur);
    }
}

/// The template expressions of `s` from `i` on are each fine for renaming.
proof fn lemma_spec_exprs_ok(s: Seq<SpecExpr>, i: int)
    requires
        0 <= i,
        spec_exprs_ok(s, i),
    ensures
        forall|j: int| i <= j < s.len() ==> spec_expr_ok(#[trigger] s[j]),
    decreases s.len() - i,
{
    if i < s.len() {
        lemma_spec_exprs_ok(s, i + 1);
    }
}

/// Renaming each template expression of `s` from `i` on renames the list.
proof fn lemma_ren_spec_exprs(s: Seq<SpecExpr>, s2: Seq<SpecExpr>, i: int, cur: Map<Seq<char>, u64>)
    requires
        0 <= i,
        s2.len() == s.len(),
        forall|j: int| i <= j < s.len() ==> ren_spec_expr(#[trigger] s[j], s2[j], cur),
    ensures
        ren_spec_exprs(s, s2, i, cur),
    decreases s.len() - i,
{
    if i < s.len() {
        lemma_ren_spec_exprs(s, s2, i + 1, cur);
    }
}

/// Renames the variables of a template expression.
fn rename_spec_expr_uses(e: SpecExpr, cur: &Vec<(String, u64)>) -> (res: SpecExpr)
    requires
        spec_expr_ok(e),
    ensures
        ren_spec_expr(e, res, names_map(cur@)),
    decreases e, 0int,
{
    match e {
        NestedExpr::Binop { info, op, lhs, rhs } => {
            let l = rename_spec_expr_uses(*lhs, cur);
            let r = rename_spec_expr_uses(*rhs, cur);
            NestedExpr::Binop { info, op, lhs: Box::new(l), rhs: Box::new(r) }
        },
        NestedExpr::Uop { info, op, expr } => {
            let x = rename_spec_expr_uses(*expr, cur);
            NestedExpr::Uop { info, op, expr: Box::new(x) }
        },
        NestedExpr::Term(SpecTerm::Var { info, name }) => {
            NestedExpr::Term(SpecTerm::Var { info, name: get_cur_name(&name, cur) })
        },
        NestedExpr::Term(SpecTerm::Lit { info, lit: SpecLiteral::Tuple(v) }) => {
            NestedExpr::Term(SpecTerm::Lit { info, lit: SpecLiteral::Tuple(rename_spec_exprs(v, cur)) })
        },
        NestedExpr::Term(SpecTerm::Lit { info, lit: SpecLiteral::Array(v) }) => {
            NestedExpr::Term(SpecTerm::Lit { info, lit: SpecLiteral::Array(rename_spec_exprs(v, cur)) })
        },
        other => other,
    }
}

/// Renames the variables of a list of template expressions.
fn rename_spec_exprs(v: Vec<SpecExpr>, cur: &Vec<(String, u64)>) -> (res: Vec<SpecExpr>)
    requires
        spec_exprs_ok(v@, 0),
    ensures
        ren_spec_exprs(v@, res@, 0, names_map(cur@)),
    decreases v, 1int,
{
    let ghost v0 = v;
    let ghost orig = v@;
    proof {
        lemma_spec_exprs_ok(orig, 0);
    }
    let n = v.len();
    let mut rest = v;
    let mut out: Vec<SpecExpr> = Vec::new();
    let mut i: usize = 0;
    while rest.len() > 0
        invariant
            orig == v0@,
            v0 == v,
            n == orig.len(),
            i + rest@.len() == orig.len(),
            rest@ == orig.skip(i as int),
            out@.len() == i,
            forall|j: int| 0 <= j < orig.len() ==> spec_expr_ok(#[trigger] orig[j]),
            forall|j: int| 0 <= j < i ==> ren_spec_expr(#[trigger] orig[j], out@[j], names_map(cur@)),
        decreases rest@.len(),
    {
        let x = rest.remove(0);
        assert(x == orig[i as int]);
        proof {
            assert(decreases_to!(v0 => v0@[i as int]));
        }
        let y = rename_spec_expr_uses(x, cur);
        out.push(y);
        i += 1;
    }
    proof {
        lemma_ren_spec_exprs(orig, out@, 0, names_map(cur@));
    }
    out
}

/// Renames the uses of variables in an expression.
fn rename_expr_uses(e: SchedExpr, cur: &Vec<(String, u64)>) -> (res: SchedExpr)
    requires
        expr_ok(e),
    ensures
        ren_expr(e, res, names_map(cur@)),
    decreases e, 0int,
{
    match e {
        NestedExpr::Binop { info, op, lhs, rhs } => {
            let l = rename_expr_uses(*lhs, cur);
            let r = rename_expr_uses(*rhs, cur);
            NestedExpr::Binop { info, op, lhs: Box::new(l), rhs: Box::new(r) }
        },
        NestedExpr::Uop { info, op, expr } => {
            let x = rename_expr_uses(*expr, cur);
            NestedExpr::Uop { info, op, expr: Box::new(x) }
        },
        NestedExpr::Term(SchedTerm::Var { info, name, tag }) => {
            NestedExpr::Term(SchedTerm::Var { info, name: get_cur_name(&name, cur), tag })
        },
        NestedExpr::Term(SchedTerm::Call(info, call)) => {
            NestedExpr::Term(SchedTerm::Call(info, rename_call(call, cur)))
        },
        NestedExpr::Term(SchedTerm::Lit { info, lit: SchedLiteral::Tuple(v), tag }) => {
            NestedExpr::Term(SchedTerm::Lit { info, lit: SchedLiteral::Tuple(rename_exprs(v, cur)), tag })
        },
        NestedExpr::Term(SchedTerm::Lit { info, lit: SchedLiteral::Array(v), tag }) => {
            NestedExpr::Term(SchedTerm::Lit { info, lit: SchedLiteral::Array(rename_exprs(v, cur)), tag })
        },
        other => other,
    }
}

/// Renames the uses of variables in a list of expressions.
fn rename_exprs(v: Vec<SchedExpr>, cur: &Vec<(String, u64)>) -> (res: Vec<SchedExpr>)
    requires
        exprs_ok(v@, 0),
    ensures
        ren_exprs(v@, res@, 0, names_map(cur@)),
    decreases v, 1int,
{
    let ghost v0 = v;
    let ghost orig = v@;
    proof {
        lemma_exprs_ok(orig, 0);
    }
    let n = v.len();
    let mut rest = v;
    let mut out: Vec<SchedExpr> = Vec::new();
    let mut i: usize = 0;
    while rest.len() > 0
        invariant
            orig == v0@,
            v0 == v,
            n == orig.len(),
            i + rest@.len() == orig.len(),
            rest@ == orig.skip(i as int),
            out@.len() == i,
            forall|j: int| 0 <= j < orig.len() ==> expr_ok(#[trigger] orig[j]),
            forall|j: int| 0 <= j < i ==> ren_expr(#[trigger] orig[j], out@[j], names_map(cur@)),
        decreases rest@.len(),
    {
        let x = rest.remove(0);
        assert(x == orig[i as int]);
        proof {
            assert(decreases_to!(v0 => v0@[i as int]));
        }
        let y = rename_expr_uses(x, cur);
        out.push(y);
        i += 1;
    }
    proof {
        lemma_ren_exprs(orig, out@, 0, names_map(cur@));
    }
    out
}

/// Renames the uses of variables in the arguments and value template
/// arguments of a call; the called function keeps its name.
fn rename_call(call: SchedFuncCall, cur: &Vec<(String, u64)>) -> (res: SchedFuncCall)
    requires
        call_ok(call),
    ensures
        ren_call(call, res, names_map(cur@)),
    decreases call, 0int,
{
    let SchedFuncCall { target, templates, args, tag, yield_call } = call;
    let args2 = match *args {
        ArgsOrEnc::Args(v) => ArgsOrEnc::Args(rename_exprs(v, cur)),
        ArgsOrEnc::Encode(EncodedStmt::Move { info, lhs, rhs }) => {
            ArgsOrEnc::Encode(EncodedStmt::Move { info, lhs, rhs: rename_expr_uses(rhs, cur) })
        },
    };
    let templates2 = match templates {
        Some(TemplateArgs::Vals(vs)) => Some(TemplateArgs::Vals(rename_spec_exprs(vs, cur))),
        other => other,
    };
    SchedFuncCall { target, templates: templates2, args: Box::new(args2), tag, yield_call }
}

/// Each statement of a list that is fine for renaming is fine for renaming.
proof fn lemma_list_ok(s: Seq<SchedStmt>)
    requires
        list_ok(s),
    ensures
        forall|j: int| 0 <= j < s.len() ==> stmt_ok(#[trigger] s[j]),
    decreases s.len(),
{
    if s.len() > 0 {
        lemma_list_ok(s.drop_last());
        assert forall|j: int| 0 <= j < s.len() implies stmt_ok(#[trigger] s[j]) by {
            if j < s.len() - 1 {
                assert(s.drop_last()[j] == s[j]);
            }
        }
    }
}

/// A prefix of a list declares no more names than the list.
proof fn lemma_list_decls_prefix(s: Seq<SchedStmt>, i: int)
    requires
        0 <= i <= s.len(),
    ensures
        list_decls(s.take(i)) <= list_decls(s),
    decreases s.len(),
{
    if i < s.len() {
        lemma_list_decls_prefix(s.drop_last(), i);
        assert(s.drop_last().take(i) =~= s.take(i));
    } else {
        assert(s.take(i) =~= s);
    }
}

/// Renames the variables of a list of tags.
fn rename_tags(tags: Vec<(String, Tags)>, cur: &Vec<(String, u64)>) -> (res: Vec<(String, Tags)>)
    ensures
        renamed_tags(tags@, res@, names_map(cur@)),
{
    let ghost orig = tags@;
    let n = tags.len();
    let mut rest = tags;
    let mut out: Vec<(String, Tags)> = Vec::new();
    let mut i: usize = 0;
    while rest.len() > 0
        invariant
            n == orig.len(),
            i + rest@.len() == orig.len(),
            rest@ == orig.skip(i as int),
            out@.len() == i,
            forall|j: int|
                0 <= j < i ==> (#[trigger] out@[j]).0@ == cur_text(orig[j].0@, names_map(cur@)) && out@[j].1
                    == orig[j].1,
        decreases rest@.len(),
    {
        let (var, t) = rest.remove(0);
        assert(var == orig[i as int].0 && t == orig[i as int].1);
        out.push((get_cur_name(&var, cur), t));
        i += 1;
    }
    out
}

/// Renames the variables of one statement. Declarations get new names; uses
/// refer to the declaration in scope. Nested blocks work on a copy of the
/// current names.
fn rename_stmt(st: SchedStmt, latest: &mut Vec<(String, u64)>, cur: &mut Vec<(String, u64)>, Ghost(k): Ghost<int>) -> (res: SchedStmt)
    requires
        stmt_ok(st),
        0 <= k,
        bounded(names_map(old(latest)@), k),
        k + stmt_decls(st) <= u64::MAX,
    ensures
        ren_stmt(st, res, names_map(old(latest)@), names_map(old(cur)@)),
        (names_map(final(latest)@), names_map(final(cur)@)) == stmt_step(
            st,
            names_map(old(latest)@),
            names_map(old(cur)@),
        ),
        bounded(names_map(final(latest)@), k + stmt_decls(st)),
    decreases st, 0int,
{
    match st {
        SchedStmt::Decl { info, lhs, is_const, expr } => {
            let expr2 = match expr {
                Some(e) => Some(rename_expr_uses(e, cur)),
                None => None,
            };
            let lhs2 = declare_names(lhs, latest, cur, Ghost(k));
            SchedStmt::Decl { info, lhs: lhs2, is_const, expr: expr2 }
        },
        SchedStmt::Assign { info, lhs, rhs, lhs_is_ref } => {
            let rhs2 = rename_expr_uses(rhs, cur);
            let lhs2 = rename_expr_uses(lhs, cur);
            SchedStmt::Assign { info, lhs: lhs2, rhs: rhs2, lhs_is_ref }
        },
        SchedStmt::If { info, guard, tag, true_block, false_block } => {
            let guard2 = rename_expr_uses(guard, cur);
            let ghost tb0 = true_block@;
            let mut c1 = copy_names(cur);
            let tb = rename_vars_rec(true_block, latest, &mut c1, Ghost(k));
            let mut c2 = copy_names(cur);
            let fb = rename_vars_rec(false_block, latest, &mut c2, Ghost(k + list_decls(tb0)));
            SchedStmt::If { info, guard: guard2, tag, true_block: tb, false_block: fb }
        },
        SchedStmt::Block(info, ss) => {
            let mut c1 = copy_names(cur);
            let ss2 = rename_vars_rec(ss, latest, &mut c1, Ghost(k));
            SchedStmt::Block(info, ss2)
        },
        SchedStmt::Sequence { info, dests, block, is_const } => {
            let ghost b0 = *block;
            let mut c1 = copy_names(cur);
            let b2 = rename_stmt(*block, latest, &mut c1, Ghost(k));
            let d2 = declare_names(dests, latest, cur, Ghost(k + stmt_decls(b0)));
            SchedStmt::Sequence { info, dests: d2, block: Box::new(b2), is_const }
        },
        SchedStmt::InEdgeAnnotation { info, tags } => {
            SchedStmt::InEdgeAnnotation { info, tags: rename_tags(tags, cur) }
        },
        SchedStmt::OutEdgeAnnotation { info, tags } => {
            SchedStmt::OutEdgeAnnotation { info, tags: rename_tags(tags, cur) }
        },
        SchedStmt::Return(info, e) => SchedStmt::Return(info, rename_expr_uses(e, cur)),
        SchedStmt::Call(info, call) => SchedStmt::Call(info, rename_call(call, cur)),
        SchedStmt::Hole(info) => SchedStmt::Hole(info),
    }
}

/// Renames the variables of a list of statements in order.
fn rename_vars_rec(
    stmts: Vec<SchedStmt>,
    latest: &mut Vec<(String, u64)>,
    cur: &mut Vec<(String, u64)>,
    Ghost(k): Ghost<int>,
) -> (res: Vec<SchedStmt>)
    requires
        list_ok(stmts@),
        0 <= k,
        bounded(names_map(old(latest)@), k),
        k + list_decls(stmts@) <= u64::MAX,
    ensures
        ren_list(stmts@, res@, names_map(old(latest)@), names_map(old(cur)@)),
        (names_map(final(latest)@), names_map(final(cur)@)) == list_step(
            stmts@,
            names_map(old(latest)@),
            names_map(old(cur)@),
        ),
        bounded(names_map(final(latest)@), k + list_decls(stmts@)),
    decreases stmts, 1int,
{
    let ghost v0 = stmts;
    let ghost orig = stmts@;
    let ghost l0 = names_map(latest@);
    let ghost c0 = names_map(cur@);
    proof {
        lemma_list_ok(orig);
        assert(orig.take(0) =~= Seq::<SchedStmt>::empty());
    }
    let n = stmts.len();
    let mut rest = stmts;
    let mut out: Vec<SchedStmt> = Vec::new();
    let mut i: usize = 0;
    while rest.len() > 0
        invariant
            orig == v0@,
            v0 == stmts,
            n == orig.len(),
            i + rest@.len() == orig.len(),
            rest@ == orig.skip(i as int),
            0 <= k,
            k + list_decls(orig) <= u64::MAX,
            forall|j: int| 0 <= j < orig.len() ==> stmt_ok(#[trigger] orig[j]),
            ren_list(orig.take(i as int), out@, l0, c0),
            (names_map(latest@), names_map(cur@)) == list_step(orig.take(i as int), l0, c0),
            bounded(names_map(latest@), k + list_decls(orig.take(i as int))),
        decreases rest@.len(),
    {
        let st = rest.remove(0);
        assert(st == orig[i as int]);
        let ghost pre = orig.take(i as int);
        let ghost old_out = out@;
        proof {
            assert(decreases_to!(v0 => v0@[i as int]));
            assert(orig.take(i + 1).drop_last() =~= pre);
            assert(orig.take(i + 1).last() == st);
            lemma_list_decls_prefix(orig, i + 1);
        }
        let st2 = rename_stmt(st, latest, cur, Ghost(k + list_decls(pre)));
        out.push(st2);
        proof {
            assert(out@.drop_last() =~= old_out);
        }
        i += 1;
    }
    assert(orig.take(i as int) =~= orig);
    out
}

/// Renames every variable of a scheduling function (its inputs and its
/// statements) to an internal name, so that variables of different scopes get
/// different names. Redeclaring a variable shadows the earlier declaration.
pub fn rename_vars(stmts: &mut Vec<SchedStmt>, inputs: &mut Vec<(String, Option<FullType>)>)
    requires
        list_ok(old(stmts)@),
        old(inputs)@.len() + list_decls(old(stmts)@) <= u64::MAX,
    ensures
        renamed_decls(
            old(inputs)@,
            final(inputs)@,
            declare(decl_names(old(inputs)@), Map::empty(), Map::empty()).2,
        ),
        ren_list(
            old(stmts)@,
            final(stmts)@,
            declare(decl_names(old(inputs)@), Map::empty(), Map::empty()).0,
            declare(decl_names(old(inputs)@), Map::empty(), Map::empty()).1,
        ),
        (decl_names(final(inputs)@) + list_declared(final(stmts)@)).no_duplicates(),
{
    let ghost ins0 = inputs@;
    let ghost ss0 = stmts@;
    let mut latest: Vec<(String, u64)> = Vec::new();
    let mut cur: Vec<(String, u64)> = Vec::new();
    let mut ins: Vec<(String, Option<FullType>)> = Vec::new();
    std::mem::swap(&mut ins, inputs);
    let ghost n_in = ins@.len();
    proof {
        assert(names_map(latest@) == Map::<Seq<char>, u64>::empty());
        assert(names_map(cur@) == Map::<Seq<char>, u64>::empty());
    }
    let ins2 = declare_names(ins, &mut latest, &mut cur, Ghost(0));
    *inputs = ins2;
    let mut ss: Vec<SchedStmt> = Vec::new();
    std::mem::swap(&mut ss, stmts);
    let ss2 = rename_vars_rec(ss, &mut latest, &mut cur, Ghost(n_in as int));
    *stmts = ss2;
    proof {
        law_renamed_names_distinct(ins0, ss0, inputs@, stmts@);
    }
}

/// The names declared by the statement `st`, at any depth, in order.
pub open spec fn stmt_declared(st: SchedStmt) -> Seq<Seq<char>>
    decreases st, 0int,
{
    match st {
        SchedStmt::Decl { lhs, .. } => decl_names(lhs@),
        SchedStmt::If { true_block, false_block, .. } => list_declared(true_block@) + list_declared(false_block@),
        SchedStmt::Block(_, ss) => list_declared(ss@),
        SchedStmt::Sequence { dests, block, .. } => stmt_declared(*block) + decl_names(dests@),
        _ => seq![],
    }
}

/// The names declared by the statements `s`, at any depth, in order.
pub open spec fn list_declared(s: Seq<SchedStmt>) -> Seq<Seq<char>>
    decreases s, 1int,
{
    if s.len() == 0 {
        seq![]
    } else {
        list_declared(s.drop_last()) + stmt_declared(s.last())
    }
}

/// The name `t` was handed out before the state `latest`: it is the internal
/// name of some variable with a number below that variable's next number.
pub open spec fn used(latest: Map<Seq<char>, u64>, t: Seq<char>) -> bool {
    exists|x: Seq<char>, i: u64| #[trigger] internal_text(x, i) == t && latest.contains_key(x) && i < latest[x]
}

/// No number goes down from `l1` to `l2`.
pub open spec fn grows(l1: Map<Seq<char>, u64>, l2: Map<Seq<char>, u64>) -> bool {
    forall|x: Seq<char>| #[trigger] l1.contains_key(x) ==> l2.contains_key(x) && l1[x] <= l2[x]
}

/// The names `ns` are distinct and were all handed out from the state `l1` to
/// the state `l2`.
pub open spec fn fresh_names(ns: Seq<Seq<char>>, l1: Map<Seq<char>, u64>, l2: Map<Seq<char>, u64>) -> bool {
    &&& grows(l1, l2)
    &&& ns.no_duplicates()
    &&& forall|k: int| 0 <= k < ns.len() ==> !used(l1, #[trigger] ns[k]) && used(l2, ns[k])
}

/// Two internal names are equal only for the same variable and number.
proof fn lemma_internal_text_injective(x: Seq<char>, i: u64, y: Seq<char>, j: u64)
    requires
        internal_text(x, i) == internal_text(y, j),
    ensures
        x == y,
        i == j,
{
    reveal_strlit("_");
    let t = internal_text(x, i);
    let dx = decimal(i as nat);
    let dy = decimal(j as nat);
    let tx = x + "_"@;
    let ty = y + "_"@;
    assert(t == tx + dx);
    assert(t == ty + dy);
    assert(tx.len() == x.len() + 1);
    assert(ty.len() == y.len() + 1);
    lemma_decimal_digits(i as nat);
    lemma_decimal_digits(j as nat);
    assert(t[x.len() as int] == tx[x.len() as int]);
    assert(t[y.len() as int] == ty[y.len() as int]);
    if dx.len() < dy.len() {
        let p = x.len() as int;
        assert(t[p] == dy[p - ty.len()]);
        assert(is_digit(dy[p - ty.len()]));
    } else if dy.len() < dx.len() {
        let p = y.len() as int;
        assert(t[p] == dx[p - tx.len()]);
        assert(is_digit(dx[p - tx.len()]));
    } else {
        assert(t.take(x.len() as int) =~= x);
        assert(t.take(y.len() as int) =~= y);
        assert(t.skip(x.len() as int + 1) =~= dx);
        assert(t.skip(y.len() as int + 1) =~= dy);
        lemma_decimal_injective(i as nat, j as nat);
    }
}

/// Names handed out stay handed out as the state grows.
proof fn lemma_used_grows(l1: Map<Seq<char>, u64>, l2: Map<Seq<char>, u64>, t: Seq<char>)
    requires
        grows(l1, l2),
        used(l1, t),
    ensures
        used(l2, t),
{
    let (x, i) = choose|x: Seq<char>, i: u64| #[trigger] internal_text(x, i) == t && l1.contains_key(x) && i < l1[x];
    assert(l2.contains_key(x));
}

/// Names handed out in two stretches one after the other are distinct and
/// handed out over the whole stretch.
proof fn lemma_fresh_concat(
    a: Seq<Seq<char>>,
    b: Seq<Seq<char>>,
    l0: Map<Seq<char>, u64>,
    l1: Map<Seq<char>, u64>,
    l2: Map<Seq<char>, u64>,
)
    requires
        fresh_names(a, l0, l1),
        fresh_names(b, l1, l2),
    ensures
        fresh_names(a + b, l0, l2),
{
    let c = a + b;
    assert forall|k: int| 0 <= k < c.len() implies !used(l0, #[trigger] c[k]) && used(l2, c[k]) by {
        if k < a.len() {
            assert(c[k] == a[k]);
            lemma_used_grows(l1, l2, a[k]);
        } else {
            assert(c[k] == b[k - a.len()]);
            if used(l0, b[k - a.len()]) {
                lemma_used_grows(l0, l1, b[k - a.len()]);
            }
        }
    }
    assert forall|p: int, q: int| 0 <= p < c.len() && 0 <= q < c.len() && p != q implies c[p] != c[q] by {
        if p < a.len() && q >= a.len() {
            assert(used(l1, a[p]));
            assert(!used(l1, b[q - a.len()]));
        } else if q < a.len() && p >= a.len() {
            assert(used(l1, a[q]));
            assert(!used(l1, b[p - a.len()]));
        } else if p < a.len() {
            assert(a[p] != a[q]);
        } else {
            assert(b[p - a.len()] != b[q - a.len()]);
        }
    }
}

/// Declaring names hands out distinct, new internal names, as long as no
/// number reaches `u64::MAX`.
proof fn lemma_declare_fresh(names: Seq<Seq<char>>, latest: Map<Seq<char>, u64>, cur: Map<Seq<char>, u64>, k: int)
    requires
        0 <= k,
        bounded(latest, k),
        k + names.len() <= u64::MAX,
    ensures
        fresh_names(declare(names, latest, cur).2, latest, declare(names, latest, cur).0),
        bounded(declare(names, latest, cur).0, k + names.len()),
    decreases names.len(),
{
    if names.len() > 0 {
        let (l, c, out) = declare(names.drop_last(), latest, cur);
        lemma_declare_fresh(names.drop_last(), latest, cur, k);
        let x = names.last();
        let id = next_id(l, x);
        if l.contains_key(x) {
            assert(l[x] <= k + names.len() - 1);
        }
        assert(id + 1 <= u64::MAX);
        let l2 = l.insert(x, (id + 1) as u64);
        let t = internal_text(x, id);
        assert(grows(l, l2));
        assert(!used(l, t)) by {
            if used(l, t) {
                let (y, j) = choose|y: Seq<char>, j: u64| #[trigger] internal_text(y, j) == t && l.contains_key(y) && j
                    < l[y];
                lemma_internal_text_injective(x, id, y, j);
            }
        }
        assert(used(l2, t)) by {
            assert(internal_text(x, id) == t && l2.contains_key(x) && id < l2[x]);
        }
        assert(fresh_names(seq![t], l, l2)) by {
            assert(seq![t][0] == t);
        }
        lemma_fresh_concat(out, seq![t], latest, l, l2);
        assert forall|y: Seq<char>| #[trigger] l2.contains_key(y) implies l2[y] <= k + names.len() by {
            if y != x {
                assert(l.contains_key(y));
            }
        }
    } else {
        assert(fresh_names(seq![], latest, latest));
    }
}

/// The names of declarations renamed to `names` are `names`.
proof fn lemma_renamed_names<T>(old: Seq<(String, T)>, new: Seq<(String, T)>, names: Seq<Seq<char>>)
    requires
        renamed_decls(old, new, names),
    ensures
        decl_names(new) == names,
{
    assert(decl_names(new) =~= names);
}

/// Renaming a statement hands out distinct, new names for its declarations.
proof fn lemma_stmt_fresh(st: SchedStmt, s2: SchedStmt, latest: Map<Seq<char>, u64>, cur: Map<Seq<char>, u64>, k: int)
    requires
        ren_stmt(st, s2, latest, cur),
        0 <= k,
        bounded(latest, k),
        k + stmt_decls(st) <= u64::MAX,
    ensures
        fresh_names(stmt_declared(s2), latest, stmt_step(st, latest, cur).0),
        bounded(stmt_step(st, latest, cur).0, k + stmt_decls(st)),
    decreases st, 0int,
{
    match st {
        SchedStmt::Decl { lhs, .. } => {
            let l2 = s2->Decl_lhs;
            lemma_renamed_names(lhs@, l2@, declare(decl_names(lhs@), latest, cur).2);
            lemma_declare_fresh(decl_names(lhs@), latest, cur, k);
        },
        SchedStmt::If { true_block, false_block, .. } => {
            let tb = s2->If_true_block;
            let fb = s2->If_false_block;
            let l1 = list_step(true_block@, latest, cur).0;
            lemma_list_fresh(true_block@, tb@, latest, cur, k);
            lemma_list_fresh(false_block@, fb@, l1, cur, k + list_decls(true_block@));
            lemma_fresh_concat(list_declared(tb@), list_declared(fb@), latest, l1, list_step(false_block@, l1, cur).0);
        },
        SchedStmt::Block(_, ss) => {
            lemma_list_fresh(ss@, s2->Block_1@, latest, cur, k);
        },
        SchedStmt::Sequence { dests, block, .. } => {
            let b2 = *s2->Sequence_block;
            let d2 = s2->Sequence_dests;
            let l1 = stmt_step(*block, latest, cur).0;
            lemma_stmt_fresh(*block, b2, latest, cur, k);
            lemma_renamed_names(dests@, d2@, declare(decl_names(dests@), l1, cur).2);
            lemma_declare_fresh(decl_names(dests@), l1, cur, k + stmt_decls(*block));
            lemma_fresh_concat(stmt_declared(b2), decl_names(d2@), latest, l1, declare(decl_names(dests@), l1, cur).0);
        },
        _ => {
            assert(fresh_names(seq![], latest, latest));
            assert(stmt_declared(s2) =~= seq![]);
        },
    }
}

/// Renaming a list of statements hands out distinct, new names for its declarations.
proof fn lemma_list_fresh(s: Seq<SchedStmt>, s2: Seq<SchedStmt>, latest: Map<Seq<char>, u64>, cur: Map<Seq<char>, u64>, k: int)
    requires
        ren_list(s, s2, latest, cur),
        0 <= k,
        bounded(latest, k),
        k + list_decls(s) <= u64::MAX,
    ensures
        fresh_names(list_declared(s2), latest, list_step(s, latest, cur).0),
        bounded(list_step(s, latest, cur).0, k + list_decls(s)),
    decreases s, 1int,
{
    if s.len() == 0 {
        assert(fresh_names(seq![], latest, latest));
    } else {
        let (l, c) = list_step(s.drop_last(), latest, cur);
        lemma_list_fresh(s.drop_last(), s2.drop_last(), latest, cur, k);
        lemma_stmt_fresh(s.last(), s2.last(), l, c, k + list_decls(s.drop_last()));
        lemma_fresh_concat(list_declared(s2.drop_last()), stmt_declared(s2.last()), latest, l, stmt_step(s.last(), l, c).0);
    }
}

/// After renaming, no two declarations of a scheduling function (its inputs and
/// the declarations of its statements at any depth) have the same name.
pub proof fn law_renamed_names_distinct(
    inputs: Seq<(String, Option<FullType>)>,
    stmts: Seq<SchedStmt>,
    inputs2: Seq<(String, Option<FullType>)>,
    stmts2: Seq<SchedStmt>,
)
    requires
        inputs.len() + list_decls(stmts) <= u64::MAX,
        renamed_decls(inputs, inputs2, declare(decl_names(inputs), Map::empty(), Map::empty()).2),
        ren_list(
            stmts,
            stmts2,
            declare(decl_names(inputs), Map::empty(), Map::empty()).0,
            declare(decl_names(inputs), Map::empty(), Map::empty()).1,
        ),
    ensures
        (decl_names(inputs2) + list_declared(stmts2)).no_duplicates(),
{
    let (l, c, out) = declare(decl_names(inputs), Map::empty(), Map::empty());
    lemma_renamed_names(inputs, inputs2, out);
    lemma_declare_fresh(decl_names(inputs), Map::empty(), Map::empty(), 0);
    lemma_list_fresh(stmts, stmts2, l, c, inputs.len() as int);
    lemma_fresh_concat(decl_names(inputs2), list_declared(stmts2), Map::empty(), l, list_step(stmts, l, c).0);
}

} // verus!
