use high_level_caiman::ast::{
    ArgsOrEnc, Binop, NestedExpr, SchedExpr, SchedFuncCall, SchedLiteral, SchedStmt, SchedTerm, SpecExpr,
    SpecTerm, TemplateArgs,
};
use high_level_caiman::error::Info;
use high_level_caiman::sched_rename::rename_vars;

fn var(name: &str) -> SchedExpr {
    NestedExpr::Term(SchedTerm::Var { info: Info::default(), name: String::from(name), tag: None })
}

fn int_lit(v: &str) -> SchedExpr {
    NestedExpr::Term(SchedTerm::Lit { info: Info::default(), lit: SchedLiteral::Int(String::from(v)), tag: None })
}

fn bin(l: SchedExpr, op: Binop, r: SchedExpr) -> SchedExpr {
    NestedExpr::Binop { info: Info::default(), op, lhs: Box::new(l), rhs: Box::new(r) }
}

fn let_stmt(name: &str, e: SchedExpr) -> SchedStmt {
    SchedStmt::Decl { info: Info::default(), lhs: vec![(String::from(name), None)], is_const: true, expr: Some(e) }
}

fn var_decl(name: &str) -> SchedStmt {
    SchedStmt::Decl { info: Info::default(), lhs: vec![(String::from(name), None)], is_const: false, expr: None }
}

fn assign(name: &str, e: SchedExpr) -> SchedStmt {
    SchedStmt::Assign { info: Info::default(), lhs: var(name), rhs: e, lhs_is_ref: false }
}

fn var_name(e: &SchedExpr) -> String {
    match e {
        NestedExpr::Term(SchedTerm::Var { name, .. }) => name.clone(),
        _ => panic!("expected a variable"),
    }
}

fn decl_name(s: &SchedStmt) -> String {
    match s {
        SchedStmt::Decl { lhs, .. } => lhs[0].0.clone(),
        _ => panic!("expected a declaration"),
    }
}

fn decl_expr(s: &SchedStmt) -> &SchedExpr {
    match s {
        SchedStmt::Decl { expr: Some(e), .. } => e,
        _ => panic!("expected a declaration with a value"),
    }
}

fn binop_sides(e: &SchedExpr) -> (String, &SchedExpr) {
    match e {
        NestedExpr::Binop { lhs, rhs, .. } => (var_name(lhs), rhs),
        _ => panic!("expected a binary expression"),
    }
}

/// The example of the renaming pass: scopes get fresh names, a reassigned
/// variable keeps its one name.
#[test]
fn rename_scopes_example() {
    let mut stmts = vec![
        let_stmt("x", int_lit("1")),
        var_decl("v"),
        SchedStmt::If {
            info: Info::default(),
            guard: bin(var("x"), Binop::Gt, int_lit("0")),
            tag: None,
            true_block: vec![
                let_stmt("x", bin(var("x"), Binop::Add, int_lit("1"))),
                let_stmt("c", bin(var("x"), Binop::Lt, int_lit("2"))),
                assign("v", var("x")),
            ],
            false_block: vec![
                let_stmt("x", bin(var("x"), Binop::Sub, int_lit("1"))),
                let_stmt("c", bin(var("x"), Binop::Mul, int_lit("2"))),
                assign("v", var("x")),
            ],
        },
    ];
    let mut inputs = vec![];
    rename_vars(&mut stmts, &mut inputs);
    assert_eq!(decl_name(&stmts[0]), "x_0");
    assert_eq!(decl_name(&stmts[1]), "v_0");
    match &stmts[2] {
        SchedStmt::If { guard, true_block, false_block, .. } => {
            assert_eq!(binop_sides(guard).0, "x_0");
            assert_eq!(decl_name(&true_block[0]), "x_1");
            assert_eq!(binop_sides(decl_expr(&true_block[0])).0, "x_0");
            assert_eq!(decl_name(&true_block[1]), "c_0");
            assert_eq!(binop_sides(decl_expr(&true_block[1])).0, "x_1");
            match &true_block[2] {
                SchedStmt::Assign { lhs, rhs, .. } => {
                    assert_eq!(var_name(lhs), "v_0");
                    assert_eq!(var_name(rhs), "x_1");
                },
                _ => panic!("expected an assignment"),
            }
            assert_eq!(decl_name(&false_block[0]), "x_2");
            assert_eq!(binop_sides(decl_expr(&false_block[0])).0, "x_0");
            assert_eq!(decl_name(&false_block[1]), "c_1");
            assert_eq!(binop_sides(decl_expr(&false_block[1])).0, "x_2");
            match &false_block[2] {
                SchedStmt::Assign { lhs, rhs, .. } => {
                    assert_eq!(var_name(lhs), "v_0");
                    assert_eq!(var_name(rhs), "x_2");
                },
                _ => panic!("expected an assignment"),
            }
        },
        _ => panic!("expected an if"),
    }
}

#[test]
fn rename_inputs_and_undeclared_names() {
    let mut inputs = vec![(String::from("a"), None), (String::from("b"), None)];
    let mut stmts = vec![
        let_stmt("a", bin(var("a"), Binop::Add, var("z"))),
        SchedStmt::Return(Info::default(), bin(var("a"), Binop::Add, var("b"))),
    ];
    rename_vars(&mut stmts, &mut inputs);
    assert_eq!(inputs[0].0, "a_0");
    assert_eq!(inputs[1].0, "b_0");
    assert_eq!(decl_name(&stmts[0]), "a_1");
    match decl_expr(&stmts[0]) {
        NestedExpr::Binop { lhs, rhs, .. } => {
            assert_eq!(var_name(lhs), "a_0");
            assert_eq!(var_name(rhs), "z");
        },
        _ => panic!("expected a binary expression"),
    }
    match &stmts[1] {
        SchedStmt::Return(_, NestedExpr::Binop { lhs, rhs, .. }) => {
            assert_eq!(var_name(lhs), "a_1");
            assert_eq!(var_name(rhs), "b_0");
        },
        _ => panic!("expected a return"),
    }
}

#[test]
fn rename_block_scope_ends() {
    let mut inputs = vec![];
    let mut stmts = vec![
        let_stmt("y", int_lit("3")),
        SchedStmt::Block(Info::default(), vec![let_stmt("y", var("y"))]),
        SchedStmt::Return(Info::default(), var("y")),
    ];
    rename_vars(&mut stmts, &mut inputs);
    match &stmts[1] {
        SchedStmt::Block(_, inner) => {
            assert_eq!(decl_name(&inner[0]), "y_1");
            assert_eq!(var_name(decl_expr(&inner[0])), "y_0");
        },
        _ => panic!("expected a block"),
    }
    match &stmts[2] {
        SchedStmt::Return(_, e) => assert_eq!(var_name(e), "y_0"),
        _ => panic!("expected a return"),
    }
}

#[test]
fn rename_call_arguments_and_templates() {
    let templates: Vec<SpecExpr> =
        vec![NestedExpr::Term(SpecTerm::Var { info: Info::default(), name: String::from("q") })];
    let call = SchedFuncCall {
        target: Box::new(var("f")),
        templates: Some(TemplateArgs::Vals(templates)),
        args: Box::new(ArgsOrEnc::Args(vec![var("q")])),
        tag: None,
        yield_call: false,
    };
    let mut inputs = vec![(String::from("q"), None)];
    let mut stmts = vec![SchedStmt::Call(Info::default(), call)];
    rename_vars(&mut stmts, &mut inputs);
    match &stmts[0] {
        SchedStmt::Call(_, c) => {
            assert_eq!(var_name(&c.target), "f");
            match &*c.args {
                ArgsOrEnc::Args(v) => assert_eq!(var_name(&v[0]), "q_0"),
                _ => panic!("expected arguments"),
            }
            match &c.templates {
                Some(TemplateArgs::Vals(v)) => match &v[0] {
                    NestedExpr::Term(SpecTerm::Var { name, .. }) => assert_eq!(name, "q_0"),
                    _ => panic!("expected a variable"),
                },
                _ => panic!("expected value templates"),
            }
        },
        _ => panic!("expected a call"),
    }
}

#[test]
fn rename_sequence_destinations_after_body() {
    let mut inputs = vec![];
    let body = SchedStmt::Block(Info::default(), vec![let_stmt("r", int_lit("1")), SchedStmt::Return(Info::default(), var("r"))]);
    let mut stmts = vec![
        SchedStmt::Sequence {
            info: Info::default(),
            dests: vec![(String::from("r"), None)],
            block: Box::new(body),
            is_const: true,
        },
        SchedStmt::Return(Info::default(), var("r")),
    ];
    rename_vars(&mut stmts, &mut inputs);
    match &stmts[0] {
        SchedStmt::Sequence { dests, block, .. } => {
            assert_eq!(dests[0].0, "r_1");
            match &**block {
                SchedStmt::Block(_, inner) => assert_eq!(decl_name(&inner[0]), "r_0"),
                _ => panic!("expected a block"),
            }
        },
        _ => panic!("expected a sequence"),
    }
    match &stmts[1] {
        SchedStmt::Return(_, e) => assert_eq!(var_name(e), "r_1"),
        _ => panic!("expected a return"),
    }
}

fn collect_declared(stmts: &[SchedStmt], out: &mut Vec<String>) {
    for s in stmts {
        match s {
            SchedStmt::Decl { lhs, .. } => out.extend(lhs.iter().map(|p| p.0.clone())),
            SchedStmt::If { true_block, false_block, .. } => {
                collect_declared(true_block, out);
                collect_declared(false_block, out);
            },
            SchedStmt::Block(_, ss) => collect_declared(ss, out),
            SchedStmt::Sequence { dests, block, .. } => {
                collect_declared(std::slice::from_ref(&**block), out);
                out.extend(dests.iter().map(|p| p.0.clone()));
            },
            _ => {},
        }
    }
}

/// Every declaration ends up with a name of its own, however often a name is
/// shadowed (names that already look internal included).
#[test]
fn rename_declarations_distinct() {
    let mut inputs = vec![(String::from("a"), None), (String::from("a_1"), None)];
    let mut stmts = vec![
        let_stmt("a", var("a")),
        SchedStmt::Block(Info::default(), vec![let_stmt("a", var("a")), let_stmt("a_1", var("a"))]),
        SchedStmt::If {
            info: Info::default(),
            guard: var("a"),
            tag: None,
            true_block: vec![let_stmt("a", int_lit("1"))],
            false_block: vec![SchedStmt::Block(Info::default(), vec![let_stmt("a", int_lit("2"))])],
        },
        SchedStmt::Sequence {
            info: Info::default(),
            dests: vec![(String::from("a"), None)],
            block: Box::new(SchedStmt::Block(Info::default(), vec![let_stmt("a", int_lit("3"))])),
            is_const: true,
        },
    ];
    rename_vars(&mut stmts, &mut inputs);
    let mut names: Vec<String> = inputs.iter().map(|p| p.0.clone()).collect();
    collect_declared(&stmts, &mut names);
    assert_eq!(names.len(), 9);
    for i in 0..names.len() {
        for j in 0..names.len() {
            if i != j {
                assert_ne!(names[i], names[j]);
            }
        }
    }
    assert_eq!(names[0], "a_0");
    assert_eq!(names[1], "a_1_0");
    assert_eq!(names[2], "a_1");
}
