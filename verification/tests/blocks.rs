use high_level_caiman::ast::{NestedExpr, SchedExpr, SchedStmt, SchedTerm};
use high_level_caiman::cfg::flatten_stmts;
use high_level_caiman::error::Info;

fn at(l: usize) -> Info {
    Info { start_ln_and_col: (l, 0), end_ln_and_col: (l, 1) }
}

fn var(name: &str) -> SchedExpr {
    NestedExpr::Term(SchedTerm::Var { info: at(0), name: String::from(name), tag: None })
}

fn hole(l: usize) -> SchedStmt {
    SchedStmt::Hole(at(l))
}

#[test]
fn blocks_are_spliced_in() {
    let stmts = vec![hole(1), SchedStmt::Block(at(2), vec![hole(3), SchedStmt::Block(at(4), vec![hole(5)])]), hole(6)];
    let out = flatten_stmts(stmts);
    let lines: Vec<usize> = out
        .iter()
        .map(|s| match s {
            SchedStmt::Hole(i) => i.start_ln_and_col.0,
            _ => panic!("expected a hole"),
        })
        .collect();
    assert_eq!(lines, vec![1, 3, 5, 6]);
}

#[test]
fn sequence_of_block_becomes_declaration() {
    let body = SchedStmt::Block(at(0), vec![hole(1), SchedStmt::Return(at(7), var("r"))]);
    let stmts = vec![SchedStmt::Sequence {
        info: at(9),
        dests: vec![(String::from("x"), None)],
        block: Box::new(body),
        is_const: true,
    }];
    let out = flatten_stmts(stmts);
    assert_eq!(out.len(), 2);
    assert!(matches!(out[0], SchedStmt::Hole(_)));
    match &out[1] {
        SchedStmt::Decl { info, lhs, is_const, expr: Some(e) } => {
            assert_eq!(*info, at(7));
            assert_eq!(lhs[0].0, "x");
            assert!(*is_const);
            assert!(matches!(e, NestedExpr::Term(SchedTerm::Var { name, .. }) if name == "r"));
        },
        _ => panic!("expected a declaration"),
    }
}

#[test]
fn blocks_inside_if_branches_are_removed() {
    let stmts = vec![SchedStmt::If {
        info: at(1),
        guard: var("c"),
        tag: None,
        true_block: vec![SchedStmt::Block(at(2), vec![hole(3)])],
        false_block: vec![],
    }];
    let out = flatten_stmts(stmts);
    assert_eq!(out.len(), 1);
    match &out[0] {
        SchedStmt::If { true_block, false_block, .. } => {
            assert_eq!(true_block.len(), 1);
            assert!(matches!(true_block[0], SchedStmt::Hole(_)));
            assert!(false_block.is_empty());
        },
        _ => panic!("expected an if"),
    }
}
