use high_level_caiman::ast::{
    ArgsOrEnc, Binop, ClassMembers, NestedExpr, SchedExpr, SchedFuncCall, SchedLiteral, SchedStmt, SchedTerm, SpecExpr,
    SpecStmt, SpecTerm, TopLevel,
};
use high_level_caiman::error::{ErrorKind, ErrorLocation, Info};
use high_level_caiman::if_to_seq::final_if_to_seq;
use high_level_caiman::normalize::normalize_ast;
use high_level_caiman::yields::CallGraph;

fn at(l: usize) -> Info {
    Info { start_ln_and_col: (l, 0), end_ln_and_col: (l, 1) }
}

fn var(name: &str) -> SchedExpr {
    NestedExpr::Term(SchedTerm::Var { info: at(0), name: String::from(name), tag: None })
}

fn ret(e: SchedExpr) -> SchedStmt {
    SchedStmt::Return(at(0), e)
}

fn tuple(names: &[&str]) -> SchedExpr {
    NestedExpr::Term(SchedTerm::Lit {
        info: at(0),
        lit: SchedLiteral::Tuple(names.iter().map(|n| var(n)).collect()),
        tag: None,
    })
}

fn if_stmt(l: usize, t: Vec<SchedStmt>, f: Vec<SchedStmt>) -> SchedStmt {
    SchedStmt::If { info: at(l), guard: var("c"), tag: None, true_block: t, false_block: f }
}

#[test]
fn returning_if_becomes_sequence_and_return() {
    let out = final_if_to_seq(vec![if_stmt(5, vec![ret(var("a"))], vec![ret(var("b"))])]).ok().unwrap();
    assert_eq!(out.len(), 2);
    match &out[0] {
        SchedStmt::Sequence { dests, block, is_const, info } => {
            assert!(*is_const);
            assert_eq!(*info, at(5));
            assert_eq!(dests.len(), 1);
            assert_eq!(dests[0].0, "_r0");
            assert!(matches!(**block, SchedStmt::If { .. }));
        },
        _ => panic!("expected a sequence"),
    }
    match &out[1] {
        SchedStmt::Return(_, NestedExpr::Term(SchedTerm::Var { name, .. })) => assert_eq!(name, "_r0"),
        _ => panic!("expected a return of the result variable"),
    }
}

#[test]
fn tuple_returns_name_each_result() {
    let out = final_if_to_seq(vec![if_stmt(1, vec![ret(tuple(&["a", "b"]))], vec![ret(tuple(&["c", "d"]))])])
        .ok()
        .unwrap();
    match &out[0] {
        SchedStmt::Sequence { dests, .. } => {
            let names: Vec<&str> = dests.iter().map(|d| d.0.as_str()).collect();
            assert_eq!(names, vec!["_r0", "_r1"]);
        },
        _ => panic!("expected a sequence"),
    }
}

#[test]
fn if_without_returns_stays() {
    let out = final_if_to_seq(vec![if_stmt(1, vec![SchedStmt::Hole(at(2))], vec![]), ret(var("x"))]).ok().unwrap();
    assert_eq!(out.len(), 2);
    assert!(matches!(out[0], SchedStmt::If { .. }));
}

fn type_error_message(r: Result<Vec<SchedStmt>, high_level_caiman::error::LocalError>) -> (String, ErrorLocation) {
    match r {
        Ok(_) => panic!("expected an error"),
        Err(e) => match e.kind {
            ErrorKind::TypeError(m) => (m, e.location),
            _ => panic!("expected a type error"),
        },
    }
}

#[test]
fn if_to_seq_errors() {
    let (m, loc) = type_error_message(final_if_to_seq(vec![if_stmt(3, vec![ret(var("a"))], vec![ret(tuple(&["b", "c"]))])]));
    assert_eq!(m, "if branches return different numbers of values");
    assert_eq!(loc, ErrorLocation::Double(at(3)));
    let (m, _) = type_error_message(final_if_to_seq(vec![
        if_stmt(4, vec![ret(var("a"))], vec![ret(var("b"))]),
        SchedStmt::Hole(at(9)),
    ]));
    assert_eq!(m, "Return from if statement is not the last statement in the block");
    let seq = SchedStmt::Sequence {
        info: at(7),
        dests: vec![(String::from("x"), None), (String::from("y"), None)],
        block: Box::new(if_stmt(8, vec![ret(var("a"))], vec![ret(var("b"))])),
        is_const: true,
    };
    let (m, loc) = type_error_message(final_if_to_seq(vec![seq]));
    assert_eq!(m, "Cannot assign 1 returns into 2 destinations");
    assert_eq!(loc, ErrorLocation::Double(at(7)));
}

#[test]
fn sequences_keep_their_if() {
    let seq = SchedStmt::Sequence {
        info: at(7),
        dests: vec![(String::from("x"), None)],
        block: Box::new(SchedStmt::Block(at(8), vec![if_stmt(8, vec![ret(var("a"))], vec![ret(var("b"))])])),
        is_const: false,
    };
    let out = final_if_to_seq(vec![seq]).ok().unwrap();
    assert_eq!(out.len(), 1);
    match &out[0] {
        SchedStmt::Sequence { block, is_const, .. } => {
            assert!(!*is_const);
            assert!(matches!(**block, SchedStmt::If { .. }));
        },
        _ => panic!("expected a sequence"),
    }
}

fn call(target: &str) -> SchedFuncCall {
    SchedFuncCall {
        target: Box::new(var(target)),
        templates: None,
        args: Box::new(ArgsOrEnc::Args(vec![])),
        tag: None,
        yield_call: false,
    }
}

fn func(name: &str, calls: &[&str]) -> TopLevel {
    TopLevel::SchedulingFunc {
        info: at(0),
        name: String::from(name),
        input: vec![],
        output: vec![],
        specs: vec![],
        statements: calls.iter().map(|c| SchedStmt::Call(at(0), call(c))).collect(),
    }
}

fn yield_flags(p: &[TopLevel]) -> Vec<bool> {
    let mut res = vec![];
    for d in p {
        if let TopLevel::SchedulingFunc { statements, .. } = d {
            for s in statements {
                if let SchedStmt::Call(_, c) = s {
                    res.push(c.yield_call);
                }
            }
        }
    }
    res
}

#[test]
fn yields_break_a_cycle() {
    let mut p = vec![func("a", &["b"]), func("b", &["a"])];
    let g = CallGraph::new(&p);
    assert_eq!(g.edge_count, 2);
    assert_eq!(g.names.len(), 2);
    let back = g.insert_yields(&mut p);
    // the search starts at `a`, so the call from `b` back to `a` closes the cycle
    assert_eq!(back, vec![false, true]);
    assert_eq!(yield_flags(&p), vec![false, true]);
}

#[test]
fn yields_leave_acyclic_calls_alone() {
    let mut p = vec![func("main", &["f", "g"]), func("f", &["g"]), func("g", &[])];
    let g = CallGraph::new(&p);
    let back = g.insert_yields(&mut p);
    assert!(back.iter().all(|b| !*b));
    assert_eq!(yield_flags(&p), vec![false, false, false]);
}

#[test]
fn yields_on_self_calls() {
    let mut p = vec![func("loop", &["loop"])];
    let g = CallGraph::new(&p);
    let back = g.insert_yields(&mut p);
    assert_eq!(back, vec![true]);
    assert_eq!(yield_flags(&p), vec![true]);
}

fn spec_var(n: &str) -> SpecExpr {
    NestedExpr::Term(SpecTerm::Var { info: at(0), name: String::from(n) })
}

#[test]
fn normalize_ast_runs_every_stage() {
    let body = vec![
        SchedStmt::Decl {
            info: at(1),
            lhs: vec![(String::from("x"), None)],
            is_const: true,
            expr: Some(NestedExpr::Binop {
                info: at(1),
                op: Binop::Add,
                lhs: Box::new(var("a")),
                rhs: Box::new(NestedExpr::Binop {
                    info: at(1),
                    op: Binop::Mul,
                    lhs: Box::new(var("a")),
                    rhs: Box::new(var("a")),
                }),
            }),
        },
        ret(var("x")),
    ];
    let sched = TopLevel::SchedulingFunc {
        info: at(0),
        name: String::from("main"),
        input: vec![(String::from("a"), None)],
        output: vec![],
        specs: vec![],
        statements: body,
    };
    let class = TopLevel::FunctionClass {
        info: at(0),
        name: String::from("c"),
        members: vec![ClassMembers::ValueFunclet {
            info: at(0),
            name: String::from("v"),
            input: vec![],
            output: vec![],
            statements: vec![SpecStmt::Returns(
                at(2),
                SpecExpr::Binop { info: at(2), op: Binop::Sub, lhs: Box::new(spec_var("p")), rhs: Box::new(spec_var("q")) },
            )],
        }],
    };
    let out = normalize_ast(vec![sched, class]).ok().unwrap();
    assert_eq!(out.len(), 2);
    match &out[0] {
        TopLevel::SchedulingFunc { input, statements, .. } => {
            assert_eq!(input[0].0, "a_0");
            assert_eq!(statements.len(), 3);
            match &statements[0] {
                SchedStmt::Decl { lhs, expr: Some(NestedExpr::Binop { lhs: l, rhs: r, .. }), .. } => {
                    assert_eq!(lhs[0].0, "_f0_0");
                    assert!(matches!(&**l, NestedExpr::Term(SchedTerm::Var { name, .. }) if name == "a_0"));
                    assert!(matches!(&**r, NestedExpr::Term(SchedTerm::Var { name, .. }) if name == "a_0"));
                },
                _ => panic!("expected the temporary"),
            }
            match &statements[1] {
                SchedStmt::Decl { lhs, .. } => assert_eq!(lhs[0].0, "x_0"),
                _ => panic!("expected the declaration"),
            }
        },
        _ => panic!("expected the scheduling function"),
    }
    match &out[1] {
        TopLevel::FunctionClass { members, .. } => match &members[0] {
            ClassMembers::ValueFunclet { statements, .. } => {
                assert_eq!(statements.len(), 2);
                assert!(matches!(&statements[0], SpecStmt::Assign { lhs, .. } if lhs[0].0 == "_f0"));
            },
            _ => panic!("expected a value funclet"),
        },
        _ => panic!("expected the class"),
    }
}

#[test]
fn normalize_ast_reports_if_errors() {
    let bad = TopLevel::SchedulingFunc {
        info: at(0),
        name: String::from("main"),
        input: vec![],
        output: vec![],
        specs: vec![],
        statements: vec![if_stmt(9, vec![ret(tuple(&["a", "b"]))], vec![ret(var("c"))])],
    };
    match normalize_ast(vec![bad]) {
        Err(e) => assert_eq!(e.location, ErrorLocation::Double(at(9))),
        Ok(_) => panic!("expected an error"),
    }
}
