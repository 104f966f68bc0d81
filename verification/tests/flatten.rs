use high_level_caiman::ast::{
    ArgsOrEnc, Binop, NestedExpr, SchedExpr, SchedFuncCall, SchedLiteral, SchedStmt, SchedTerm, SpecExpr,
    SpecLiteral, SpecStmt, SpecTerm, TemplateArgs,
};
use high_level_caiman::error::Info;
use high_level_caiman::flatten::{flatten_rec, flatten_schedule, flatten_spec, flatten_top_level};

fn at(l: usize) -> Info {
    Info { start_ln_and_col: (l, 0), end_ln_and_col: (l, 1) }
}

fn var(name: &str) -> SchedExpr {
    NestedExpr::Term(SchedTerm::Var { info: at(0), name: String::from(name), tag: None })
}

fn num(v: &str) -> SchedExpr {
    NestedExpr::Term(SchedTerm::Lit { info: at(0), lit: SchedLiteral::Int(String::from(v)), tag: None })
}

fn bin(l: SchedExpr, op: Binop, r: SchedExpr) -> SchedExpr {
    NestedExpr::Binop { info: at(0), op, lhs: Box::new(l), rhs: Box::new(r) }
}

fn name_of(e: &SchedExpr) -> String {
    match e {
        NestedExpr::Term(SchedTerm::Var { name, .. }) => name.clone(),
        _ => panic!("expected a variable"),
    }
}

fn decl_parts(s: &SchedStmt) -> (String, &SchedExpr, bool) {
    match s {
        SchedStmt::Decl { lhs, expr: Some(e), is_const, .. } => {
            assert_eq!(lhs.len(), 1);
            (lhs[0].0.clone(), e, *is_const)
        },
        _ => panic!("expected a declaration with a value"),
    }
}

fn bin_names(e: &SchedExpr) -> (String, String) {
    match e {
        NestedExpr::Binop { lhs, rhs, .. } => (name_of(lhs), name_of(rhs)),
        _ => panic!("expected a binary operation"),
    }
}

#[test]
fn flatten_rec_nested_operation() {
    // a + b * c
    let e = bin(var("a"), Binop::Add, bin(var("b"), Binop::Mul, var("c")));
    let (ins, next, r) = flatten_rec(e, at(7), 0);
    assert_eq!(next, 2);
    assert_eq!(ins.len(), 2);
    let (n0, e0, c0) = decl_parts(&ins[0]);
    assert_eq!(n0, "_f0");
    assert!(c0);
    assert_eq!(bin_names(e0), (String::from("b"), String::from("c")));
    let (n1, e1, _) = decl_parts(&ins[1]);
    assert_eq!(n1, "_f1");
    assert_eq!(bin_names(e1), (String::from("a"), String::from("_f0")));
    assert_eq!(name_of(&r), "_f1");
    match &r {
        NestedExpr::Term(SchedTerm::Var { info, .. }) => assert_eq!(*info, at(7)),
        _ => panic!("expected a variable"),
    }
}

#[test]
fn flatten_rec_numbers_continue() {
    let e = bin(num("1"), Binop::Add, num("2"));
    let (ins, next, r) = flatten_rec(e, at(0), 5);
    assert_eq!(next, 8);
    let names: Vec<String> = ins.iter().map(|s| decl_parts(s).0).collect();
    assert_eq!(names, vec!["_f5", "_f6", "_f7"]);
    assert_eq!(name_of(&r), "_f7");
    assert_eq!(bin_names(decl_parts(&ins[2]).1), (String::from("_f5"), String::from("_f6")));
}

#[test]
fn flatten_top_level_keeps_operation() {
    let e = bin(var("a"), Binop::Add, bin(var("b"), Binop::Mul, var("c")));
    let (ins, next, r) = flatten_top_level(e, at(0), 0);
    assert_eq!(next, 1);
    assert_eq!(ins.len(), 1);
    assert_eq!(decl_parts(&ins[0]).0, "_f0");
    assert_eq!(bin_names(&r), (String::from("a"), String::from("_f0")));
}

#[test]
fn flatten_top_level_conditional_uses_a_number() {
    let e = NestedExpr::Conditional {
        info: at(0),
        if_true: Box::new(var("x")),
        guard: Box::new(var("g")),
        if_false: Box::new(var("y")),
    };
    let (ins, next, r) = flatten_top_level(e, at(0), 3);
    assert!(ins.is_empty());
    assert_eq!(next, 4);
    assert!(matches!(r, NestedExpr::Conditional { .. }));
}

fn call(target: &str, args: Vec<SchedExpr>, templates: Option<TemplateArgs>) -> SchedExpr {
    NestedExpr::Term(SchedTerm::Call(
        at(2),
        SchedFuncCall {
            target: Box::new(var(target)),
            templates,
            args: Box::new(ArgsOrEnc::Args(args)),
            tag: None,
            yield_call: false,
        },
    ))
}

#[test]
fn flatten_rec_call_arguments_first() {
    let e = call("f", vec![bin(var("x"), Binop::Add, num("1")), var("y")], None);
    let (ins, next, r) = flatten_rec(e, at(0), 0);
    assert_eq!(next, 3);
    let names: Vec<String> = ins.iter().map(|s| decl_parts(s).0).collect();
    assert_eq!(names, vec!["_f0", "_f1", "_f2"]);
    match decl_parts(&ins[2]).1 {
        NestedExpr::Term(SchedTerm::Call(_, c)) => match &*c.args {
            ArgsOrEnc::Args(a) => {
                assert_eq!(name_of(&a[0]), "_f1");
                assert_eq!(name_of(&a[1]), "y");
            },
            _ => panic!("expected arguments"),
        },
        _ => panic!("expected a call"),
    }
    assert_eq!(name_of(&r), "_f2");
}

#[test]
fn flatten_rec_template_values_become_variables() {
    let tmpl = SpecExpr::Binop {
        info: at(0),
        op: Binop::Add,
        lhs: Box::new(NestedExpr::Term(SpecTerm::Var { info: at(0), name: String::from("n") })),
        rhs: Box::new(NestedExpr::Term(SpecTerm::Var { info: at(0), name: String::from("m") })),
    };
    let e = call("g", vec![], Some(TemplateArgs::Vals(vec![tmpl])));
    let (ins, next, _) = flatten_rec(e, at(0), 0);
    assert_eq!(next, 2);
    assert_eq!(decl_parts(&ins[0]).0, "_f0");
    assert_eq!(bin_names(decl_parts(&ins[0]).1), (String::from("n"), String::from("m")));
    match decl_parts(&ins[1]).1 {
        NestedExpr::Term(SchedTerm::Call(_, c)) => match &c.templates {
            Some(TemplateArgs::Vals(v)) => match &v[0] {
                NestedExpr::Term(SpecTerm::Var { name, info }) => {
                    assert_eq!(name, "_f0");
                    assert_eq!(*info, at(2));
                },
                _ => panic!("expected a variable"),
            },
            _ => panic!("expected value templates"),
        },
        _ => panic!("expected a call"),
    }
}

#[test]
fn flatten_rec_tuple_keeps_shape() {
    let e = NestedExpr::Term(SchedTerm::Lit {
        info: at(0),
        lit: SchedLiteral::Tuple(vec![var("a"), bin(var("b"), Binop::Sub, var("c"))]),
        tag: None,
    });
    let (ins, next, r) = flatten_rec(e, at(0), 0);
    assert_eq!(next, 1);
    assert_eq!(ins.len(), 1);
    match r {
        NestedExpr::Term(SchedTerm::Lit { lit: SchedLiteral::Tuple(w), .. }) => {
            assert_eq!(name_of(&w[0]), "a");
            assert_eq!(name_of(&w[1]), "_f0");
        },
        _ => panic!("expected a tuple"),
    }
}

#[test]
fn flatten_schedule_statements() {
    let stmts = vec![
        SchedStmt::Decl {
            info: at(1),
            lhs: vec![(String::from("x"), None)],
            is_const: true,
            expr: Some(bin(var("a"), Binop::Add, bin(var("b"), Binop::Mul, var("c")))),
        },
        SchedStmt::If {
            info: at(2),
            guard: bin(var("x"), Binop::Lt, num("3")),
            tag: None,
            true_block: vec![SchedStmt::Return(at(3), bin(var("x"), Binop::Add, num("1")))],
            false_block: vec![SchedStmt::Hole(at(4))],
        },
    ];
    let out = flatten_schedule(stmts);
    // let _f0 = b * c; let x = a + _f0; let _f1 = 3; let _f2 = x < _f1; if _f2 { .. } else { .. }
    assert_eq!(out.len(), 5);
    assert_eq!(decl_parts(&out[0]).0, "_f0");
    let (xn, xe, xc) = decl_parts(&out[1]);
    assert_eq!(xn, "x");
    assert!(xc);
    assert_eq!(bin_names(xe), (String::from("a"), String::from("_f0")));
    assert_eq!(decl_parts(&out[2]).0, "_f1");
    assert_eq!(decl_parts(&out[3]).0, "_f2");
    match &out[4] {
        SchedStmt::If { guard, true_block, false_block, .. } => {
            assert_eq!(name_of(guard), "_f2");
            assert_eq!(true_block.len(), 3);
            assert_eq!(decl_parts(&true_block[0]).0, "_f3");
            assert_eq!(decl_parts(&true_block[1]).0, "_f4");
            match &true_block[2] {
                SchedStmt::Return(_, e) => assert_eq!(name_of(e), "_f4"),
                _ => panic!("expected a return"),
            }
            assert_eq!(false_block.len(), 1);
        },
        _ => panic!("expected an if"),
    }
}

#[test]
fn flatten_spec_statements() {
    let v = |n: &str| NestedExpr::Term(SpecTerm::Var { info: at(0), name: String::from(n) });
    let stmts = vec![
        SpecStmt::Assign {
            info: at(1),
            lhs: vec![(String::from("y"), None)],
            rhs: SpecExpr::Binop {
                info: at(1),
                op: Binop::Mul,
                lhs: Box::new(v("a")),
                rhs: Box::new(SpecExpr::Binop { info: at(1), op: Binop::Add, lhs: Box::new(v("b")), rhs: Box::new(v("c")) }),
            },
        },
        SpecStmt::Returns(
            at(2),
            NestedExpr::Term(SpecTerm::Lit { info: at(2), lit: SpecLiteral::Int(String::from("4")) }),
        ),
    ];
    let out = flatten_spec(stmts);
    assert_eq!(out.len(), 4);
    match &out[0] {
        SpecStmt::Assign { lhs, .. } => assert_eq!(lhs[0].0, "_f0"),
        _ => panic!("expected an assignment"),
    }
    match &out[1] {
        SpecStmt::Assign { lhs, rhs, .. } => {
            assert_eq!(lhs[0].0, "y");
            match rhs {
                SpecExpr::Binop { rhs, .. } => {
                    assert!(matches!(&**rhs, NestedExpr::Term(SpecTerm::Var { name, .. }) if name == "_f0"))
                },
                _ => panic!("expected an operation"),
            }
        },
        _ => panic!("expected an assignment"),
    }
    match &out[2] {
        SpecStmt::Assign { lhs, .. } => assert_eq!(lhs[0].0, "_f1"),
        _ => panic!("expected an assignment"),
    }
    match &out[3] {
        SpecStmt::Returns(_, NestedExpr::Term(SpecTerm::Var { name, .. })) => assert_eq!(name, "_f1"),
        _ => panic!("expected a return of a temporary"),
    }
}

#[test]
fn flatten_schedule_constant_tuple() {
    // let x = (a + b * c, d);
    let tuple = NestedExpr::Term(SchedTerm::Lit {
        info: at(1),
        lit: SchedLiteral::Tuple(vec![bin(var("a"), Binop::Add, bin(var("b"), Binop::Mul, var("c"))), var("d")]),
        tag: None,
    });
    let stmts = vec![SchedStmt::Decl {
        info: at(1),
        lhs: vec![(String::from("x"), None)],
        is_const: true,
        expr: Some(tuple),
    }];
    let out = flatten_schedule(stmts);
    assert_eq!(out.len(), 3);
    assert_eq!(decl_parts(&out[0]).0, "_f0");
    assert_eq!(bin_names(decl_parts(&out[0]).1), (String::from("b"), String::from("c")));
    assert_eq!(decl_parts(&out[1]).0, "_f1");
    assert_eq!(bin_names(decl_parts(&out[1]).1), (String::from("a"), String::from("_f0")));
    let (name, value, _) = decl_parts(&out[2]);
    assert_eq!(name, "x");
    match value {
        NestedExpr::Term(SchedTerm::Lit { lit: SchedLiteral::Tuple(w), .. }) => {
            assert_eq!(name_of(&w[0]), "_f1");
            assert_eq!(name_of(&w[1]), "d");
        },
        _ => panic!("expected a tuple"),
    }
}
