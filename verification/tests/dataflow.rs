use high_level_caiman::ast::{Binop, DataType, IntSize, SchedTerm};
use high_level_caiman::analysis::{analyze_live_vars, analyze_reaching_defs, Cfg};
use high_level_caiman::cfg::{Edge, FlowGraph};
use high_level_caiman::dataflow::{ActiveFences, Backwards, Forwards, LiveVars, ReachingDefs};
use high_level_caiman::error::Info;
use high_level_caiman::hir::{ret_var_name, BasicBlock, HirBody, HirFuncCall, HirInstr, Terminator};
use high_level_caiman::lower::HirOp;
use high_level_caiman::tags::TripleTag;

fn s(x: &str) -> String {
    String::from(x)
}

fn names(xs: &[&str]) -> Vec<String> {
    xs.iter().map(|x| s(x)).collect()
}

fn var(name: &str) -> SchedTerm {
    SchedTerm::Var { info: Info::default(), name: s(name), tag: None }
}

fn sorted(mut v: Vec<String>) -> Vec<String> {
    v.sort();
    v
}

fn live_of(xs: &[&str]) -> LiveVars {
    let mut l = LiveVars::top();
    let next = Terminator::Next(names(xs));
    l.transfer_instr(HirInstr::Tail(&next), 0, None);
    l
}

fn tagged(xs: &[&str]) -> Vec<(String, TripleTag)> {
    xs.iter().map(|x| (s(x), TripleTag::new_unspecified())).collect()
}

fn call(dests: &[&str], target: &str, args: Vec<Option<String>>) -> Terminator {
    Terminator::Call(tagged(dests), HirFuncCall { target: s(target), args, tag: TripleTag::new_unspecified() })
}

#[test]
fn live_vars_top_is_empty() {
    assert!(LiveVars::top().live_set().is_empty());
}

#[test]
fn live_vars_decl_kills_def_and_adds_use() {
    let mut l = live_of(&["x", "y"]);
    let decl = HirBody::ConstDecl { info: Info::default(), lhs_tag: TripleTag::new_unspecified(), lhs: s("x"), rhs: var("z") };
    l.transfer_instr(HirInstr::Stmt(&decl), 3, None);
    assert_eq!(sorted(l.live_set().clone()), names(&["y", "z"]));
}

#[test]
fn live_vars_ref_store_uses_destination() {
    let mut l = LiveVars::top();
    let store = HirBody::RefStore { info: Info::default(), lhs_tags: TripleTag::new_unspecified(), lhs: s("v"), rhs: var("w") };
    l.transfer_instr(HirInstr::Stmt(&store), 0, None);
    assert_eq!(sorted(l.live_set().clone()), names(&["v", "w"]));
}

#[test]
fn live_vars_op_uses_arguments() {
    let mut l = live_of(&["r"]);
    let op = HirBody::Op {
        info: Info::default(),
        dest: s("r"),
        dest_tag: TripleTag::new_unspecified(),
        op: HirOp::Binary(Binop::Add),
        args: vec![var("a"), var("b"), var("a")],
    };
    l.transfer_instr(HirInstr::Stmt(&op), 0, None);
    assert_eq!(sorted(l.live_set().clone()), names(&["a", "b"]));
}

#[test]
fn live_vars_final_return_uses_out_vars() {
    let mut l = LiveVars::top();
    let fin = Terminator::FinalReturn(2);
    l.transfer_instr(HirInstr::Tail(&fin), 0, None);
    assert_eq!(sorted(l.live_set().clone()), names(&["_out0", "_out1"]));
    assert_eq!(ret_var_name(12), s("_out12"));
}

#[test]
fn live_vars_call_defines_dests_and_uses_filled_args() {
    let mut l = live_of(&["c", "k"]);
    let t = call(&["c"], "f", vec![Some(s("a")), None]);
    l.transfer_instr(HirInstr::Tail(&t), 0, None);
    assert_eq!(sorted(l.live_set().clone()), names(&["a", "k"]));
}

#[test]
fn live_vars_meet_is_union() {
    let a = live_of(&["x", "y"]);
    let b = live_of(&["y", "z"]);
    let m = a.meet(&b);
    assert_eq!(sorted(m.live_set().clone()), names(&["x", "y", "z"]));
}

fn ref_int() -> DataType {
    DataType::Ref(Box::new(DataType::Int(IntSize::I64)))
}

#[test]
fn reaching_defs_top_has_inputs() {
    let r = ReachingDefs::top(&names(&["a", "b", "a"]), &vec![], &vec![]);
    assert_eq!(sorted(r.reaching_defs()), names(&["a", "b"]));
}

#[test]
fn reaching_defs_decl_becomes_available() {
    let mut r = ReachingDefs::top(&names(&["a"]), &vec![], &vec![]);
    let decl = HirBody::ConstDecl { info: Info::default(), lhs_tag: TripleTag::new_unspecified(), lhs: s("x"), rhs: var("a") };
    r.transfer_instr(HirInstr::Stmt(&decl), 1, None);
    assert_eq!(sorted(r.reaching_defs()), names(&["a", "x"]));
}

#[test]
fn reaching_defs_call_kills_consumed_args_and_refs() {
    let mut r = ReachingDefs::top(&names(&["a", "b", "p", "q"]), &vec![(s("p"), ref_int()), (s("q"), DataType::Int(IntSize::I32))], &names(&["b"]));
    let t = call(&["c"], "f", vec![Some(s("a")), Some(s("b"))]);
    r.transfer_instr(HirInstr::Tail(&t), 1, None);
    assert_eq!(sorted(r.reaching_defs()), names(&["b", "c", "q"]));
}

#[test]
fn reaching_defs_hole_argument_kills_everything() {
    let mut r = ReachingDefs::top(&names(&["a", "b"]), &vec![], &vec![]);
    let t = call(&["c"], "f", vec![None]);
    r.transfer_instr(HirInstr::Tail(&t), 1, None);
    assert_eq!(sorted(r.reaching_defs()), names(&["c"]));
}

#[test]
fn reaching_defs_return_kills_returned() {
    let mut r = ReachingDefs::top(&names(&["a", "b"]), &vec![], &vec![]);
    let t = Terminator::Return { dests: tagged(&["_out0"]), rets: names(&["a"]) };
    r.transfer_instr(HirInstr::Tail(&t), 1, None);
    assert_eq!(sorted(r.reaching_defs()), names(&["_out0", "b"]));
}

#[test]
fn reaching_defs_select_dests_available_at_continuation() {
    let mut r = ReachingDefs::top(&names(&["g"]), &vec![], &vec![]);
    let sel = Terminator::Select { dests: tagged(&["d"]), guard: s("g"), tag: TripleTag::new_unspecified() };
    r.transfer_instr(HirInstr::Tail(&sel), 1, Some(5));
    assert_eq!(sorted(r.reaching_defs()), names(&["g"]));
    let other = Terminator::Next(vec![]);
    r.transfer_instr(HirInstr::Tail(&other), 2, None);
    assert_eq!(sorted(r.reaching_defs()), names(&["g"]));
    r.transfer_instr(HirInstr::Tail(&other), 5, None);
    assert_eq!(sorted(r.reaching_defs()), names(&["d", "g"]));
}

#[test]
fn reaching_defs_meet_kills_one_sided_defs() {
    let a = ReachingDefs::top(&names(&["x", "y"]), &vec![], &vec![]);
    let b = ReachingDefs::top(&names(&["x", "z"]), &vec![], &vec![]);
    let m = a.meet(&b);
    assert_eq!(sorted(m.reaching_defs()), names(&["x"]));
}

fn block(id: usize, stmts: Vec<HirBody>, terminator: Terminator, ret_block: Option<usize>) -> BasicBlock {
    BasicBlock { id, stmts, terminator, ret_block, src_loc: Info::default() }
}

#[test]
fn live_vars_block_runs_backwards() {
    // x = a; y = x; return y
    let b = block(
        1,
        vec![
            HirBody::ConstDecl { info: Info::default(), lhs_tag: TripleTag::new_unspecified(), lhs: s("x"), rhs: var("a") },
            HirBody::ConstDecl { info: Info::default(), lhs_tag: TripleTag::new_unspecified(), lhs: s("y"), rhs: var("x") },
        ],
        Terminator::Next(names(&["y"])),
        None,
    );
    let out = LiveVars::top().analyze_basic_block(&b);
    assert_eq!(sorted(out.live_set().clone()), names(&["a"]));
}

#[test]
fn reaching_defs_block_runs_forwards() {
    let b = block(
        1,
        vec![HirBody::ConstDecl { info: Info::default(), lhs_tag: TripleTag::new_unspecified(), lhs: s("x"), rhs: var("a") }],
        Terminator::Call(tagged(&["r"]), HirFuncCall { target: s("f"), args: vec![Some(s("x"))], tag: TripleTag::new_unspecified() }),
        Some(2),
    );
    let out = ReachingDefs::top(&names(&["a"]), &vec![], &vec![]).analyze_basic_block(&b);
    assert_eq!(sorted(out.reaching_defs()), names(&["a", "r"]));
}

#[test]
fn reaching_defs_block_select_feeds_continuation() {
    let b = block(1, vec![], Terminator::Select { dests: tagged(&["d"]), guard: s("g"), tag: TripleTag::new_unspecified() }, Some(4));
    let out = ReachingDefs::top(&names(&["g"]), &vec![], &vec![]).analyze_basic_block(&b);
    let cont = block(4, vec![], Terminator::Pending, None);
    let out2 = out.analyze_basic_block(&cont);
    assert_eq!(sorted(out2.reaching_defs()), names(&["d", "g"]));
}

fn two_block_cfg() -> Cfg {
    // block 1: _out0 = a; next -> block 0: return _out0
    let b1 = block(
        1,
        vec![HirBody::ConstDecl { info: Info::default(), lhs_tag: TripleTag::new_unspecified(), lhs: s("_out0"), rhs: var("a") }],
        Terminator::Next(vec![]),
        None,
    );
    let b0 = block(0, vec![], Terminator::FinalReturn(1), None);
    Cfg {
        blocks: vec![Some(b0), Some(b1)],
        graph: FlowGraph { edges: vec![Some(Edge::End), Some(Edge::Next(0))] },
    }
}

#[test]
fn analyze_live_vars_straight_line() {
    let cfg = two_block_cfg();
    let res = analyze_live_vars(&cfg);
    assert_eq!(sorted(res.get_in_fact(0).live_set().clone()), names(&["_out0"]));
    assert_eq!(sorted(res.get_out_fact(1).live_set().clone()), names(&["_out0"]));
    assert_eq!(sorted(res.get_in_fact(1).live_set().clone()), names(&["a"]));
}

#[test]
fn analyze_live_vars_loop_reaches_fixpoint() {
    // block 1: y = x; next -> block 2: select g (1 | 0); block 0: return z
    let b1 = block(
        1,
        vec![HirBody::ConstDecl { info: Info::default(), lhs_tag: TripleTag::new_unspecified(), lhs: s("y"), rhs: var("x") }],
        Terminator::Next(vec![]),
        None,
    );
    let b2 = block(2, vec![], Terminator::Select { dests: vec![], guard: s("g"), tag: TripleTag::new_unspecified() }, Some(0));
    let b0 = block(0, vec![], Terminator::Next(names(&["z"])), None);
    let cfg = Cfg {
        blocks: vec![Some(b0), Some(b1), Some(b2)],
        graph: FlowGraph {
            edges: vec![
                Some(Edge::End),
                Some(Edge::Next(2)),
                Some(Edge::Select { true_branch: 1, false_branch: 0 }),
            ],
        },
    };
    let res = analyze_live_vars(&cfg);
    assert_eq!(sorted(res.get_in_fact(2).live_set().clone()), names(&["g", "x", "z"]));
    assert_eq!(sorted(res.get_in_fact(1).live_set().clone()), names(&["g", "x", "z"]));
    assert_eq!(sorted(res.get_out_fact(2).live_set().clone()), names(&["g", "x", "z"]));
    assert_eq!(sorted(res.get_out_fact(0).live_set().clone()), Vec::<String>::new());
}

#[test]
fn active_fences_meet_is_intersection() {
    let a = ActiveFences::top(&names(&["f1", "f2", "f1"]));
    assert_eq!(sorted(a.active_fences.clone()), names(&["f1", "f2"]));
    let b = ActiveFences::top(&names(&["f2", "f3"]));
    let mut m = a.meet(&b);
    assert_eq!(sorted(m.active_fences.clone()), names(&["f2"]));
    let decl = HirBody::ConstDecl { info: Info::default(), lhs_tag: TripleTag::new_unspecified(), lhs: s("x"), rhs: var("a") };
    m.transfer_instr(HirInstr::Stmt(&decl), 1, None);
    assert_eq!(sorted(m.active_fences.clone()), names(&["f2"]));
}

#[test]
fn directions_have_roots_and_adjacency() {
    let g = FlowGraph { edges: vec![Some(Edge::End), Some(Edge::Next(2)), Some(Edge::Select { true_branch: 0, false_branch: 1 })] };
    assert_eq!(Backwards::root_id(), 0);
    assert_eq!(Forwards::root_id(), 1);
    let fwd = Forwards::get_adj_list(&g);
    assert_eq!(fwd.adj[2], vec![0, 1]);
    assert_eq!(fwd.adj[1], vec![2]);
    let bwd = Backwards::get_adj_list(&g);
    assert_eq!(bwd.adj[0], vec![2]);
    assert_eq!(bwd.adj[1], vec![2]);
    assert_eq!(bwd.adj[2], vec![1]);
}

#[test]
fn analyze_reaching_defs_straight_line() {
    let b1 = block(
        1,
        vec![HirBody::ConstDecl { info: Info::default(), lhs_tag: TripleTag::new_unspecified(), lhs: s("x"), rhs: var("a") }],
        Terminator::Next(vec![]),
        None,
    );
    let b0 = block(0, vec![], Terminator::FinalReturn(0), None);
    let cfg = Cfg {
        blocks: vec![Some(b0), Some(b1)],
        graph: FlowGraph { edges: vec![Some(Edge::End), Some(Edge::Next(0))] },
    };
    let top = ReachingDefs::top(&names(&["a"]), &vec![], &vec![]);
    let res = analyze_reaching_defs(&cfg, &top);
    assert_eq!(sorted(res.get_out_fact(1).reaching_defs()), names(&["a", "x"]));
    // every entry fact starts at `top`, so a definition missing from `top`
    // is one-sided at the first meet and is killed there
    assert_eq!(sorted(res.get_in_fact(0).reaching_defs()), names(&["a"]));
}

#[test]
fn analyze_reaching_defs_join_kills_one_sided_defs() {
    // 1: select g -> 2 | 3; 2: y = a; 3: z = a; both -> 0
    let b1 = block(1, vec![], Terminator::Select { dests: vec![], guard: s("g"), tag: TripleTag::new_unspecified() }, Some(0));
    let b2 = block(
        2,
        vec![HirBody::ConstDecl { info: Info::default(), lhs_tag: TripleTag::new_unspecified(), lhs: s("y"), rhs: var("a") }],
        Terminator::Next(vec![]),
        None,
    );
    let b3 = block(
        3,
        vec![HirBody::ConstDecl { info: Info::default(), lhs_tag: TripleTag::new_unspecified(), lhs: s("z"), rhs: var("a") }],
        Terminator::Next(vec![]),
        None,
    );
    let b0 = block(0, vec![], Terminator::FinalReturn(0), None);
    let cfg = Cfg {
        blocks: vec![Some(b0), Some(b1), Some(b2), Some(b3)],
        graph: FlowGraph {
            edges: vec![
                Some(Edge::End),
                Some(Edge::Select { true_branch: 2, false_branch: 3 }),
                Some(Edge::Next(0)),
                Some(Edge::Next(0)),
            ],
        },
    };
    let top = ReachingDefs::top(&names(&["a", "g"]), &vec![], &vec![]);
    let res = analyze_reaching_defs(&cfg, &top);
    assert_eq!(sorted(res.get_out_fact(2).reaching_defs()), names(&["a", "g", "y"]));
    assert_eq!(sorted(res.get_out_fact(3).reaching_defs()), names(&["a", "g", "z"]));
    assert_eq!(sorted(res.get_in_fact(0).reaching_defs()), names(&["a", "g"]));
}

#[test]
fn reaching_defs_are_in_increasing_order() {
    let r = ReachingDefs::top(&names(&["b", "a", "b"]), &vec![], &vec![]);
    assert_eq!(r.reaching_defs(), names(&["a", "b"]));
}

#[test]
fn live_set_is_in_increasing_order() {
    let l = live_of(&["z", "b", "y", "a"]);
    assert_eq!(l.live_set().clone(), names(&["a", "b", "y", "z"]));
}

#[test]
fn analyze_live_vars_exit_fact_is_union_of_successors() {
    // 1: select g -> 2 | 3; 2: needs p; 3: needs q; both -> 0
    let b1 = block(1, vec![], Terminator::Select { dests: vec![], guard: s("g"), tag: TripleTag::new_unspecified() }, Some(0));
    let b2 = block(2, vec![], Terminator::Next(names(&["p"])), None);
    let b3 = block(3, vec![], Terminator::Next(names(&["q"])), None);
    let b0 = block(0, vec![], Terminator::FinalReturn(0), None);
    let cfg = Cfg {
        blocks: vec![Some(b0), Some(b1), Some(b2), Some(b3)],
        graph: FlowGraph {
            edges: vec![
                Some(Edge::End),
                Some(Edge::Select { true_branch: 2, false_branch: 3 }),
                Some(Edge::Next(0)),
                Some(Edge::Next(0)),
            ],
        },
    };
    let res = analyze_live_vars(&cfg);
    assert_eq!(res.get_out_fact(1).live_set().clone(), names(&["p", "q"]));
    assert_eq!(res.get_in_fact(1).live_set().clone(), names(&["g", "p", "q"]));
}
