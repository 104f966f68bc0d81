//! Turns `if` statements that return values into sequences followed by a return:
//! `if x { 1 } else { 2 }` at the end of a block becomes
//! `let _r0 = if x { 1 } else { 2 }; _r0`.
use vstd::prelude::*;

use crate::ast::{NestedExpr, SchedExpr, SchedLiteral, SchedStmt, SchedTerm, Tags, FullType};
use crate::error::{ErrorKind, ErrorLocation, Info, LocalError, type_error};
use crate::text::{decimal, text_of, usize_to_text};

verus! {

/// The number of values a return statement returns: the size of a returned
/// tuple literal, otherwise one.
pub open spec fn ret_len(e: SchedExpr) -> nat {
    match e {
        NestedExpr::Term(SchedTerm::Lit { lit: SchedLiteral::Tuple(rets), .. }) => rets@.len(),
        _ => 1,
    }
}

/// The number of values the last return statement of `s` returns (0 when there is none).
pub open spec fn last_return_count(s: Seq<SchedStmt>) -> nat
    decreases s.len(),
{
    if s.len() == 0 {
        0
    } else {
        match s.last() {
            SchedStmt::Return(_, e) => ret_len(e),
            _ => last_return_count(s.drop_last()),
        }
    }
}

/// The number of values a block returns: that of its last statement when it is
/// an `if` (its true branch) or a block, otherwise that of its last return.
pub open spec fn block_count(s: Seq<SchedStmt>) -> nat
    decreases s,
{
    if s.len() == 0 {
        0
    } else {
        match s.last() {
            SchedStmt::If { true_block, .. } => block_count(true_block@),
            SchedStmt::Block(_, ss) => block_count(ss@),
            _ => last_return_count(s),
        }
    }
}

/// The message for branches that return different numbers of values.
pub open spec fn branches_text() -> Seq<char> {
    "if branches return different numbers of values"@
}

/// The message for a returning `if` that is not the last statement of its block.
pub open spec fn not_last_text() -> Seq<char> {
    "Return from if statement is not the last statement in the block"@
}

/// The message for a sequence whose `if` returns another number of values than
/// it has destinations.
pub open spec fn dests_text(count: nat, dests: nat) -> Seq<char> {
    "Cannot assign "@ + decimal(count) + " returns into "@ + decimal(dests) + " destinations"@
}

/// Every sequence statement in `s` (at any depth) has an `if` as its body, maybe
/// inside nested blocks of one statement.
pub open spec fn list_ok_from(s: Seq<SchedStmt>, i: int) -> bool
    decreases s, s.len() - i,
{
    if i < 0 || i >= s.len() {
        true
    } else {
        stmt_ok(s[i]) && list_ok_from(s, i + 1)
    }
}

/// The sequences inside `st` have `if` bodies.
pub open spec fn stmt_ok(st: SchedStmt) -> bool
    decreases st, 0int,
{
    match st {
        SchedStmt::If { true_block, false_block, .. } => list_ok_from(true_block@, 0) && list_ok_from(
            false_block@,
            0,
        ),
        SchedStmt::Block(_, ss) => list_ok_from(ss@, 0),
        SchedStmt::Sequence { block, .. } => seq_stmt_ok(*block),
        _ => true,
    }
}

/// The body of a sequence is an `if`, maybe inside blocks, with proper sequences inside.
pub open spec fn seq_stmt_ok(blk: SchedStmt) -> bool
    decreases blk, 0int,
{
    match blk {
        SchedStmt::Block(_, inner) => seq_list_ok(inner@),
        SchedStmt::If { true_block, false_block, .. } => list_ok_from(true_block@, 0) && list_ok_from(
            false_block@,
            0,
        ),
        _ => false,
    }
}

/// The statements of a sequence body are proper: one proper body statement, or
/// any number of statements with proper sequences.
pub open spec fn seq_list_ok(ss: Seq<SchedStmt>) -> bool
    decreases ss, ss.len() + 1,
{
    if ss.len() == 1 {
        seq_stmt_ok(ss[0])
    } else {
        list_ok_from(ss, 0)
    }
}

/// The first type error met converting the statements of `s` from index `i` on.
pub open spec fn block_err_from(s: Seq<SchedStmt>, i: int) -> Option<(Info, Seq<char>)>
    decreases s, s.len() - i,
{
    if i < 0 || i >= s.len() {
        None
    } else {
        match stmt_err(s[i], i == s.len() - 1) {
            Some(e) => Some(e),
            None => block_err_from(s, i + 1),
        }
    }
}

/// The first type error met converting the statement `st` (the last of its block or not).
pub open spec fn stmt_err(st: SchedStmt, is_last: bool) -> Option<(Info, Seq<char>)>
    decreases st, 0int,
{
    match st {
        SchedStmt::If { true_block, false_block, info, .. } => match block_err_from(true_block@, 0) {
            Some(e) => Some(e),
            None => match block_err_from(false_block@, 0) {
                Some(e) => Some(e),
                None => if block_count(true_block@) != block_count(false_block@) {
                    Some((info, branches_text()))
                } else if block_count(true_block@) != 0 && !is_last {
                    Some((info, not_last_text()))
                } else {
                    None
                },
            },
        },
        SchedStmt::Block(_, ss) => block_err_from(ss@, 0),
        SchedStmt::Sequence { info, dests, block, .. } => seq_stmt_err(info, dests@.len(), *block),
        _ => None,
    }
}

/// The first type error met converting the body `blk` of a sequence at `seq_info`
/// with `nd` destinations.
pub open spec fn seq_stmt_err(seq_info: Info, nd: nat, blk: SchedStmt) -> Option<(Info, Seq<char>)>
    decreases blk, 0int,
{
    match blk {
        SchedStmt::Block(_, inner) => seq_list_err(seq_info, nd, inner@),
        SchedStmt::If { true_block, false_block, info, .. } => match block_err_from(true_block@, 0) {
            Some(e) => Some(e),
            None => match block_err_from(false_block@, 0) {
                Some(e) => Some(e),
                None => if block_count(true_block@) != block_count(false_block@) {
                    Some((info, branches_text()))
                } else if block_count(true_block@) != nd {
                    Some((seq_info, dests_text(block_count(true_block@), nd)))
                } else {
                    None
                },
            },
        },
        _ => None,
    }
}

/// The first type error met converting the statements `ss` of a sequence body.
pub open spec fn seq_list_err(seq_info: Info, nd: nat, ss: Seq<SchedStmt>) -> Option<(Info, Seq<char>)>
    decreases ss, ss.len() + 1,
{
    if ss.len() == 1 {
        seq_stmt_err(seq_info, nd, ss[0])
    } else {
        block_err_from(ss, 0)
    }
}

/// How many statements `st` becomes: two for an `if` that returns values, else one.
pub open spec fn piece_len(st: SchedStmt) -> nat {
    match st {
        SchedStmt::If { true_block, .. } => if block_count(true_block@) == 0 {
            1
        } else {
            2
        },
        _ => 1,
    }
}

/// The name of the `k`-th returned value.
pub open spec fn ret_name(k: int) -> Seq<char> {
    "_r"@ + decimal(k as nat)
}

/// The destinations `_r0`, `_r1`, ... of `c` returned values, without types.
pub open spec fn ret_dests(dests: Seq<(String, Option<FullType>)>, c: nat) -> bool {
    &&& dests.len() == c
    &&& forall|k: int| 0 <= k < c ==> #[trigger] dests[k].0@ == ret_name(k) && dests[k].1 is None
}

/// `st` returns, at `info`, the variable `_r0` when `c` is one, otherwise the
/// tuple of `_r0`, `_r1`, ... (`c` of them).
pub open spec fn ret_stmt(info: Info, c: nat, st: SchedStmt) -> bool {
    match st {
        SchedStmt::Return(i, e) => i == info && if c == 1 {
            match e {
                NestedExpr::Term(SchedTerm::Var { info: i3, name, tag: t3 }) => i3 == info && name@ == ret_name(0)
                    && t3 is None,
                _ => false,
            }
        } else {
            match e {
            NestedExpr::Term(SchedTerm::Lit { info: i2, lit: SchedLiteral::Tuple(v), tag }) => i2 == info
                && tag is None && v@.len() == c && forall|k: int|
                0 <= k < c ==> match #[trigger] v@[k] {
                    NestedExpr::Term(SchedTerm::Var { info: i3, name, tag: t3 }) => i3 == info && name@
                        == ret_name(k) && t3 is None,
                    _ => false,
                },
            _ => false,
        }
        },
        _ => false,
    }
}

/// `r` is the `if` statement `st` with both branches converted.
pub open spec fn if_out(st: SchedStmt, r: SchedStmt) -> bool
    decreases st, 0int,
{
    match st {
        SchedStmt::If { guard, true_block, false_block, info, tag } => match r {
            SchedStmt::If { guard: g, true_block: t, false_block: f, info: i2, tag: tg } => g == guard && i2
                == info && tg == tag && block_out_from(true_block@, 0, t@) && block_out_from(
                false_block@,
                0,
                f@,
            ),
            _ => false,
        },
        _ => false,
    }
}

/// `out` is what the statements of `s` from index `i` on become.
pub open spec fn block_out_from(s: Seq<SchedStmt>, i: int, out: Seq<SchedStmt>) -> bool
    decreases s, s.len() - i,
{
    if i < 0 || i >= s.len() {
        out.len() == 0
    } else {
        let k = piece_len(s[i]);
        k <= out.len() && stmt_out(s[i], out.take(k as int)) && block_out_from(s, i + 1, out.skip(k as int))
    }
}

/// `piece` is what the statement `st` becomes.
pub open spec fn stmt_out(st: SchedStmt, piece: Seq<SchedStmt>) -> bool
    decreases st, 1int,
{
    match st {
        SchedStmt::If { true_block, info, .. } => {
            let c = block_count(true_block@);
            if c == 0 {
                piece.len() == 1 && if_out(st, piece[0])
            } else {
                piece.len() == 2 && match piece[0] {
                    SchedStmt::Sequence { info: i2, dests, block, is_const } => i2 == info && is_const
                        && ret_dests(dests@, c) && if_out(st, *block),
                    _ => false,
                } && ret_stmt(info, c, piece[1])
            }
        },
        SchedStmt::Block(info, ss) => piece.len() == 1 && match piece[0] {
            SchedStmt::Block(i2, ss2) => i2 == info && block_out_from(ss@, 0, ss2@),
            _ => false,
        },
        SchedStmt::Sequence { info, dests, block, is_const } => piece.len() == 1 && match piece[0] {
            SchedStmt::Sequence { info: i2, dests: d2, block: b2, is_const: c2 } => i2 == info && d2 == dests
                && c2 == is_const && seq_block_out_stmt(info, *block, *b2),
            _ => false,
        },
        _ => piece == seq![st],
    }
}

/// `b` is the body that the body `blk` of a sequence at `seq_info` becomes: the
/// one statement it is converted to, or a block of them.
pub open spec fn seq_block_out_stmt(seq_info: Info, blk: SchedStmt, b: SchedStmt) -> bool
    decreases blk, 2int,
{
    match blk {
        SchedStmt::Block(_, inner) => seq_block_out(seq_info, inner@, b),
        SchedStmt::If { .. } => if_out(blk, b),
        _ => false,
    }
}

/// `b` is the body that the statements `ss` of a sequence body become.
pub open spec fn seq_block_out(seq_info: Info, ss: Seq<SchedStmt>, b: SchedStmt) -> bool
    decreases ss, ss.len() + 1,
{
    if ss.len() == 1 {
        seq_block_out_stmt(seq_info, ss[0], b)
    } else {
        block_out_from(ss, 0, seq![b]) || match b {
            SchedStmt::Block(i3, rv) => i3 == seq_info && rv@.len() != 1 && block_out_from(ss, 0, rv@),
            _ => false,
        }
    }
}

/// `r` is what the body `blk` of a sequence at `seq_info` becomes.
pub open spec fn seq_res_out_stmt(seq_info: Info, blk: SchedStmt, r: Seq<SchedStmt>) -> bool
    decreases blk, 2int,
{
    match blk {
        SchedStmt::Block(_, inner) => seq_res_out(seq_info, inner@, r),
        SchedStmt::If { .. } => r.len() == 1 && if_out(blk, r[0]),
        _ => false,
    }
}

/// `r` is what the statements `ss` of a sequence body become.
pub open spec fn seq_res_out(seq_info: Info, ss: Seq<SchedStmt>, r: Seq<SchedStmt>) -> bool
    decreases ss, ss.len() + 1,
{
    if ss.len() == 1 {
        seq_res_out_stmt(seq_info, ss[0], r)
    } else {
        block_out_from(ss, 0, r)
    }
}

/// `e` is the type error `x`: its message, at its location.
pub open spec fn is_type_error(e: LocalError, x: (Info, Seq<char>)) -> bool {
    &&& e.kind matches ErrorKind::TypeError(m) && m@ == x.1
    &&& e.location == ErrorLocation::Double(x.0)
}

/// Appending a statement and what it becomes keeps the conversion relation.
proof fn lemma_block_out_push(p: Seq<SchedStmt>, x: SchedStmt, o: Seq<SchedStmt>, piece: Seq<SchedStmt>, j: int)
    requires
        0 <= j <= p.len(),
        block_out_from(p, j, o),
        stmt_out(x, piece),
        piece.len() == piece_len(x),
    ensures
        block_out_from(p.push(x), j, o + piece),
    decreases p.len() - j,
{
    let q = p.push(x);
    if j == p.len() {
        assert(o.len() == 0);
        assert((o + piece).take(piece_len(x) as int) =~= piece);
        assert((o + piece).skip(piece_len(x) as int) =~= Seq::<SchedStmt>::empty());
        assert(q[j] == x);
        assert(block_out_from(q, j + 1, Seq::<SchedStmt>::empty()));
    } else {
        let k = piece_len(p[j]);
        lemma_block_out_push(p, x, o.skip(k as int), piece, j + 1);
        assert(q[j] == p[j]);
        assert((o + piece).take(k as int) =~= o.take(k as int));
        assert((o + piece).skip(k as int) =~= o.skip(k as int) + piece);
    }
}

/// The type error `msg` at `info`.
fn err_at(info: Info, msg: &str) -> (res: LocalError)
    ensures
        is_type_error(res, (info, msg@)),
{
    type_error(info, msg)
}

/// The name of the `k`-th returned value, `_r{k}`.
fn ret_name_exec(k: usize) -> (res: String)
    ensures
        res@ == ret_name(k as int),
{
    let mut s = text_of("_r");
    s.append(usize_to_text(k).as_str());
    s
}

/// Converts the `if` statement `st`, the `idx`-th of `num_stmts` statements:
/// both branches are converted, and when they return values, the `if` becomes a
/// sequence into `_r0`, `_r1`, ... followed by a return of those.
fn convert_if_to_seq(st: SchedStmt, idx: usize, num_stmts: usize) -> (res: Result<(Vec<SchedStmt>, usize), LocalError>)
    requires
        st is If,
        stmt_ok(st),
        idx < num_stmts,
    ensures
        res is Err <==> stmt_err(st, idx == num_stmts - 1) is Some,
        res matches Err(e) ==> is_type_error(e, stmt_err(st, idx == num_stmts - 1)->0),
        res matches Ok(p) ==> p.0@.len() == piece_len(st) && stmt_out(st, p.0@) && p.1 == block_count(
            st->If_true_block@,
        ),
    decreases st, 0int,
{
    let ghost st0 = st;
    match st {
        SchedStmt::If { guard, true_block, false_block, info, tag } => {
            let (tb, true_count) = match final_if_to_seq_helper(true_block) {
                Err(e) => {
                    return Err(e);
                },
                Ok(p) => p,
            };
            let (fb, false_count) = match final_if_to_seq_helper(false_block) {
                Err(e) => {
                    return Err(e);
                },
                Ok(p) => p,
            };
            if true_count != false_count {
                return Err(err_at(info, "if branches return different numbers of values"));
            }
            let mut ret: Vec<SchedStmt> = Vec::new();
            if true_count == 0 {
                ret.push(SchedStmt::If { guard, true_block: tb, false_block: fb, info, tag });
                assert(ret@ =~= seq![ret@[0]]);
                return Ok((ret, 0));
            }
            if idx != num_stmts - 1 {
                return Err(err_at(info, "Return from if statement is not the last statement in the block"));
            }
            let mut dests: Vec<(String, Option<FullType>)> = Vec::new();
            let mut vars: Vec<SchedExpr> = Vec::new();
            let mut k: usize = 0;
            while k < true_count
                invariant
                    k <= true_count,
                    dests@.len() == k,
                    vars@.len() == k,
                    forall|i: int| 0 <= i < k ==> (#[trigger] dests@[i]).0@ == ret_name(i),
                    forall|i: int| 0 <= i < k ==> (#[trigger] dests@[i]).1 is None,
                    forall|i: int|
                        0 <= i < k ==> match #[trigger] vars@[i] {
                            NestedExpr::Term(SchedTerm::Var { info: i3, name, tag: t3 }) => i3 == info && name@
                                == ret_name(i) && t3 is None,
                            _ => false,
                        },
                decreases true_count - k,
            {
                dests.push((ret_name_exec(k), None));
                vars.push(NestedExpr::Term(SchedTerm::Var { info, name: ret_name_exec(k), tag: None }));
                k += 1;
            }
            let the_if = SchedStmt::If { guard, true_block: tb, false_block: fb, info, tag };
            ret.push(SchedStmt::Sequence { info, dests, block: Box::new(the_if), is_const: true });
            let returned = if true_count == 1 {
                let mut vars = vars;
                let v = vars.pop().unwrap();
                assert(v == vars@.push(v)[0]);
                v
            } else {
                NestedExpr::Term(SchedTerm::Lit { info, lit: SchedLiteral::Tuple(vars), tag: None })
            };
            ret.push(SchedStmt::Return(info, returned));
            Ok((ret, true_count))
        },
        _ => {
            proof {
                assert(false);
            }
            Ok((Vec::new(), 0))
        },
    }
}

/// Converts the statements of a block: returning `if`s become sequences and
/// returns, recursively. Also gives the number of values the block returns.
fn final_if_to_seq_helper(stmts: Vec<SchedStmt>) -> (res: Result<(Vec<SchedStmt>, usize), LocalError>)
    requires
        list_ok_from(stmts@, 0),
    ensures
        res is Err <==> block_err_from(stmts@, 0) is Some,
        res matches Err(e) ==> is_type_error(e, block_err_from(stmts@, 0)->0),
        res matches Ok(p) ==> block_out_from(stmts@, 0, p.0@) && p.1 == block_count(stmts@),
    decreases stmts, 1int,
{
    let ghost orig = stmts@;
    let ghost v0 = stmts;
    let num_stmts = stmts.len();
    let mut rest = stmts;
    let mut ret: Vec<SchedStmt> = Vec::new();
    let mut ret_count: usize = 0;
    let mut idx: usize = 0;
    while rest.len() > 0
        invariant
            orig == stmts@,
            v0 == stmts,
            orig == v0@,
            num_stmts == orig.len(),
            idx + rest@.len() == orig.len(),
            rest@ == orig.skip(idx as int),
            list_ok_from(orig, idx as int),
            block_err_from(orig, 0) == block_err_from(orig, idx as int),
            block_out_from(orig.take(idx as int), 0, ret@),
            idx < orig.len() ==> ret_count == last_return_count(orig.take(idx as int)),
            idx == orig.len() ==> ret_count == block_count(orig),
        decreases rest@.len(),
    {
        let st = rest.remove(0);
        assert(st == orig[idx as int]);
        let ghost pre = orig.take(idx as int);
        let ghost old_ret = ret@;
        assert(orig.take(idx + 1) =~= pre.push(st));
        assert(orig.take(idx + 1).drop_last() =~= pre);
        assert(orig.take(idx + 1).last() == st);
        assert(stmt_ok(orig[idx as int]) && list_ok_from(orig, idx + 1));
        assert(block_err_from(orig, idx as int) == (match stmt_err(orig[idx as int], idx == orig.len() - 1) {
            Some(e) => Some(e),
            None => block_err_from(orig, idx + 1),
        }));
        assert(idx + 1 == orig.len() ==> orig.take(idx + 1) =~= orig);
        proof {
            assert(decreases_to!(v0 => v0@[idx as int]));
        }
        let is_last = idx == num_stmts - 1;
        match st {
            SchedStmt::If { .. } => {
                let ghost st0 = st;
                let (mut piece, count) = match convert_if_to_seq(st, idx, num_stmts) {
                    Err(e) => {
                        return Err(e);
                    },
                    Ok(p) => p,
                };
                proof {
                    lemma_block_out_push(pre, st0, ret@, piece@, 0);
                }
                let ghost gp = piece@;
                ret.append(&mut piece);
                assert(ret@ =~= old_ret + gp);
                if is_last {
                    ret_count = count;
                }
            },
            SchedStmt::Block(info, ss) => {
                let (ss2, count) = match final_if_to_seq_helper(ss) {
                    Err(e) => {
                        return Err(e);
                    },
                    Ok(p) => p,
                };
                let ghost piece = seq![SchedStmt::Block(info, ss2)];
                proof {
                    lemma_block_out_push(pre, orig[idx as int], ret@, piece, 0);
                }
                ret.push(SchedStmt::Block(info, ss2));
                assert(ret@ =~= old_ret + piece);
                if is_last {
                    ret_count = count;
                }
            },
            SchedStmt::Return(info, expr) => {
                let n = match &expr {
                    NestedExpr::Term(SchedTerm::Lit { lit: SchedLiteral::Tuple(rets), .. }) => rets.len(),
                    _ => 1,
                };
                ret_count = n;
                proof {
                    lemma_block_out_push(pre, orig[idx as int], ret@, seq![orig[idx as int]], 0);
                }
                ret.push(SchedStmt::Return(info, expr));
                assert(ret@ =~= old_ret + seq![orig[idx as int]]);
            },
            SchedStmt::Sequence { block, dests, info, is_const } => {
                let ghost gb = *block;
                let nd = dests.len();
                let mut r = match seq_stmt_helper(info, nd, *block) {
                    Err(e) => {
                        return Err(e);
                    },
                    Ok(r) => r,
                };
                let ghost rs = r@;
                let b = if r.len() == 1 {
                    r.pop().unwrap()
                } else {
                    SchedStmt::Block(info, r)
                };
                let ghost piece = seq![SchedStmt::Sequence { block: Box::new(b), dests, info, is_const }];
                proof {
                    lemma_seq_block_stmt(info, gb, rs);
                    assert(seq_block_out_stmt(info, gb, b));
                    assert(stmt_out(orig[idx as int], piece));
                    lemma_block_out_push(pre, orig[idx as int], ret@, piece, 0);
                }
                ret.push(SchedStmt::Sequence { block: Box::new(b), dests, info, is_const });
                assert(ret@ =~= old_ret + piece);
            },
            st => {
                proof {
                    lemma_block_out_push(pre, st, ret@, seq![st], 0);
                }
                ret.push(st);
                assert(ret@ =~= old_ret + seq![orig[idx as int]]);
            },
        }
        idx += 1;
    }
    assert(orig.take(idx as int) =~= orig);
    Ok((ret, ret_count))
}

/// Converts the body of a sequence at `seq_info` with `seq_dests` destinations,
/// given as one statement: an `if` stays an `if` (its branches converted, and
/// returning as many values as there are destinations); a block is looked into.
fn seq_stmt_helper(seq_info: Info, seq_dests: usize, blk: SchedStmt) -> (res: Result<Vec<SchedStmt>, LocalError>)
    requires
        seq_stmt_ok(blk),
    ensures
        res is Err <==> seq_stmt_err(seq_info, seq_dests as nat, blk) is Some,
        res matches Err(e) ==> is_type_error(e, seq_stmt_err(seq_info, seq_dests as nat, blk)->0),
        res matches Ok(r) ==> seq_res_out_stmt(seq_info, blk, r@),
    decreases blk, 3int,
{
    let ghost b0 = blk;
    match blk {
        SchedStmt::Block(_, stmts) => seq_final_if_to_seq_helper(seq_info, seq_dests, stmts),
        SchedStmt::If { guard, true_block, false_block, info, tag } => {
            let (tb, true_count) = match final_if_to_seq_helper(true_block) {
                Err(e) => {
                    return Err(e);
                },
                Ok(p) => p,
            };
            let (fb, false_count) = match final_if_to_seq_helper(false_block) {
                Err(e) => {
                    return Err(e);
                },
                Ok(p) => p,
            };
            if true_count != false_count {
                return Err(err_at(info, "if branches return different numbers of values"));
            }
            if true_count != seq_dests {
                let mut msg = text_of("Cannot assign ");
                msg.append(usize_to_text(true_count).as_str());
                msg.append(" returns into ");
                msg.append(usize_to_text(seq_dests).as_str());
                msg.append(" destinations");
                return Err(err_at(seq_info, msg.as_str()));
            }
            let mut r: Vec<SchedStmt> = Vec::new();
            r.push(SchedStmt::If { guard, true_block: tb, false_block: fb, info, tag });
            Ok(r)
        },
        _ => {
            proof {
                assert(false);
            }
            Ok(Vec::new())
        },
    }
}

/// Converts the statements of a sequence body at `seq_info` with `seq_dests`
/// destinations: a single statement is looked into (see `seq_stmt_helper`);
/// several are converted as a block.
fn seq_final_if_to_seq_helper(seq_info: Info, seq_dests: usize, stmts: Vec<SchedStmt>) -> (res: Result<
    Vec<SchedStmt>,
    LocalError,
>)
    requires
        seq_list_ok(stmts@),
    ensures
        res is Err <==> seq_list_err(seq_info, seq_dests as nat, stmts@) is Some,
        res matches Err(e) ==> is_type_error(e, seq_list_err(seq_info, seq_dests as nat, stmts@)->0),
        res matches Ok(r) ==> seq_res_out(seq_info, stmts@, r@),
    decreases stmts, 2int,
{
    let ghost v0 = stmts;
    if stmts.len() == 1 {
        let mut stmts = stmts;
        let x = stmts.pop().unwrap();
        proof {
            assert(x == v0@[0]);
            assert(decreases_to!(v0 => v0@[0]));
        }
        return seq_stmt_helper(seq_info, seq_dests, x);
    }
    match final_if_to_seq_helper(stmts) {
        Err(e) => Err(e),
        Ok((out, _)) => Ok(out),
    }
}

/// Converts `if` statements that return values into sequences followed by
/// returns, at every depth of the block `stmts`.
pub fn final_if_to_seq(stmts: Vec<SchedStmt>) -> (res: Result<Vec<SchedStmt>, LocalError>)
    requires
        list_ok_from(stmts@, 0),
    ensures
        res is Err <==> block_err_from(stmts@, 0) is Some,
        res matches Err(e) ==> is_type_error(e, block_err_from(stmts@, 0)->0),
        res matches Ok(out) ==> block_out_from(stmts@, 0, out@),
{
    match final_if_to_seq_helper(stmts) {
        Err(e) => Err(e),
        Ok((out, _)) => Ok(out),
    }
}

/// The statements a sequence body becomes give its new body: the statement
/// itself when there is one, otherwise a block of them.
proof fn lemma_seq_block_stmt(seq_info: Info, blk: SchedStmt, r: Seq<SchedStmt>)
    requires
        seq_res_out_stmt(seq_info, blk, r),
    ensures
        r.len() == 1 ==> seq_block_out_stmt(seq_info, blk, r[0]),
        forall|rv: Vec<SchedStmt>|
            r.len() != 1 && #[trigger] rv@ == r ==> seq_block_out_stmt(seq_info, blk, SchedStmt::Block(seq_info, rv)),
    decreases blk, 2int,
{
    match blk {
        SchedStmt::Block(_, inner) => {
            lemma_seq_block_list(seq_info, inner@, r);
        },
        _ => {},
    }
}

/// The list form of `lemma_seq_block_stmt`.
proof fn lemma_seq_block_list(seq_info: Info, ss: Seq<SchedStmt>, r: Seq<SchedStmt>)
    requires
        seq_res_out(seq_info, ss, r),
    ensures
        r.len() == 1 ==> seq_block_out(seq_info, ss, r[0]),
        forall|rv: Vec<SchedStmt>|
            r.len() != 1 && #[trigger] rv@ == r ==> seq_block_out(seq_info, ss, SchedStmt::Block(seq_info, rv)),
    decreases ss, ss.len() + 1,
{
    if ss.len() == 1 {
        lemma_seq_block_stmt(seq_info, ss[0], r);
    } else if r.len() == 1 {
        assert(r =~= seq![r[0]]);
    }
}

} // verus!
