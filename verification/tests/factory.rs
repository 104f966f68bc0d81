use high_level_caiman::ast::{
    Binop, DataType, ExternDefMembers, ExternResource, Flow, InputOrOutputVal, IntSize, NestedExpr, Quotient,
    QuotientReference, ResourceMembers, SchedLiteral, SchedTerm, SpecExpr, SpecLiteral, SpecStmt, SpecTerm,
    SpecType, TemplateArgs, TopLevel, Uop,
};
use high_level_caiman::ast_factory::ASTFactory;
use high_level_caiman::flatten::spec_to_sched;
use high_level_caiman::error::{ErrorKind, ErrorLocation, Info};
use high_level_caiman::parse::{make_error, parse_error_to_error, ParseFailure};

fn factory() -> ASTFactory {
    ASTFactory::new("f.cm", "ab\ncd\n")
}

#[test]
fn lines_and_columns() {
    let f = factory();
    assert_eq!(f.line_and_column(0), (1, 0));
    assert_eq!(f.line_and_column(1), (1, 1));
    assert_eq!(f.line_and_column(2), (1, 2));
    assert_eq!(f.line_and_column(3), (2, 1));
    assert_eq!(f.line_and_column(5), (2, 3));
    assert_eq!(f.line_and_column(6), (3, 1));
    let i = f.info(1, 4);
    assert_eq!(i.start_ln_and_col, (1, 1));
    assert_eq!(i.end_ln_and_col, (2, 2));
    let empty = ASTFactory::new("e", "");
    assert_eq!(empty.line_and_column(0), (1, 0));
}

#[test]
fn multibyte_offsets_count_bytes() {
    let f = ASTFactory::new("u", "é\nx");
    // é takes two bytes, so the newline is at byte 2
    assert_eq!(f.line_and_column(3), (2, 1));
}

fn start() -> Info {
    Info { start_ln_and_col: (1, 0), end_ln_and_col: (1, 0) }
}

fn num(name: &str, v: &str) -> ResourceMembers {
    ResourceMembers::Numeric(String::from(name), String::from(v))
}

#[test]
fn extern_resources() {
    let f = factory();
    let r = f
        .extern_resource(0, vec![num("binding", "0"), num("group", "1"), ResourceMembers::Input(String::from("x"))], 0)
        .ok()
        .unwrap();
    assert_eq!(r.binding, 0);
    assert_eq!(r.group, 1);
    assert!(matches!(r.caiman_val, InputOrOutputVal::Input(ref s) if s == "x"));
    // a later member overrides an earlier one
    let r = f
        .extern_resource(
            0,
            vec![num("binding", "0"), num("binding", "5"), num("group", "1"), ResourceMembers::Output(String::from("o"))],
            0,
        )
        .ok()
        .unwrap();
    assert_eq!(r.binding, 5);
    assert!(matches!(r.caiman_val, InputOrOutputVal::Output(ref s) if s == "o"));
}

fn resource_err(members: Vec<ResourceMembers>) -> String {
    match factory().extern_resource(0, members, 0) {
        Ok(_) => panic!("expected an error"),
        Err(e) => {
            assert_eq!(e.loc, start());
            e.msg
        },
    }
}

#[test]
fn extern_resource_errors() {
    assert_eq!(resource_err(vec![num("group", "1")]), "Resource at 1:0 - 1:0 missing field \"binding\"");
    assert_eq!(resource_err(vec![num("binding", "1")]), "Resource at 1:0 - 1:0 missing field \"group\"");
    assert_eq!(
        resource_err(vec![num("binding", "1"), num("group", "1")]),
        "Resource at 1:0 - 1:0 must have exactly one input or output field"
    );
    assert_eq!(
        resource_err(vec![num("binding", "1"), num("group", "1"), ResourceMembers::Input(String::from("a")),
            ResourceMembers::Output(String::from("b"))]),
        "Resource at 1:0 - 1:0 must have exactly one input or output field"
    );
    assert_eq!(resource_err(vec![num("binding", "1"), num("size", "4")]), "Invalid member 'size: 4' in extern definition");
    assert_eq!(
        resource_err(vec![num("binding", "x"), num("group", "1"), ResourceMembers::Input(String::from("a"))]),
        "Resource at 1:0 - 1:0 has invalid binding invalid digit found in string"
    );
    assert_eq!(
        resource_err(vec![num("binding", "1"), num("group", ""), ResourceMembers::Input(String::from("a"))]),
        "Resource at 1:0 - 1:0 has invalid group cannot parse integer from empty string"
    );
}

fn sv(k: &str, v: &str) -> ExternDefMembers {
    ExternDefMembers::StrVal(String::from(k), String::from(v))
}

#[test]
fn extern_definitions() {
    let f = factory();
    let res = ExternResource { binding: 0, group: 0, caiman_val: InputOrOutputVal::Input(String::from("x")) };
    let d = f
        .extern_def(
            0,
            vec![
                sv("path", "gpu.comp"),
                sv("entry", "main"),
                ExternDefMembers::Dimensions(String::from("dimensions"), String::from("3")),
                ExternDefMembers::Resource(res),
            ],
            0,
        )
        .ok()
        .unwrap();
    assert_eq!(d.path, "gpu.comp");
    assert_eq!(d.entry, "main");
    assert_eq!(d.dimensions, 3);
    assert_eq!(d.resources.len(), 1);
    let e = f.extern_def(0, vec![sv("entry", "main")], 0).err().unwrap();
    assert_eq!(e.msg, "Extern definition at 1:0 - 1:0 missing field \"path\"");
    let e = f.extern_def(0, vec![sv("path", "p")], 0).err().unwrap();
    assert_eq!(e.msg, "Extern definition at 1:0 - 1:0 missing field \"path\"");
    let e = f.extern_def(0, vec![sv("path", "p"), sv("entry", "m")], 0).err().unwrap();
    assert_eq!(e.msg, "Extern definition at 1:0 - 1:0 missing field \"dimensions\"");
    let e = f.extern_def(0, vec![sv("path", "p"), sv("color", "red")], 0).err().unwrap();
    assert_eq!(e.msg, "Extern definition at 1:0 - 1:0 has invalid member color: red");
}

#[test]
fn program_versions() {
    let f = factory();
    assert!(f.program("0.1", "0", vec![]).is_ok());
    let e = f.program("0.2", "0", vec![]).err().unwrap();
    assert_eq!(e.msg, "Version mismatch: expected 0.1.0 but found 0.2.0");
    assert_eq!(e.loc, Info { start_ln_and_col: (0, 0), end_ln_and_col: (0, 0) });
    let e = f.program("01", "0", vec![]).err().unwrap();
    assert_eq!(e.msg, "Invalid version string: 01.0");
    let e = f.program("0.1.2", "0", vec![]).err().unwrap();
    assert_eq!(e.msg, "Invalid version string: 0.1.2.0");
}

#[test]
fn user_defined_types() {
    let mut f = factory();
    let t = f.type_def(0, String::from("T"), DataType::Int(IntSize::I64), 1);
    assert!(matches!(t, TopLevel::Typedef { ref name, .. } if name == "T"));
    let d = f.user_defined_type(0, String::from("T"), 0).ok().unwrap();
    assert!(d.same_as(&DataType::Int(IntSize::I64)));
    f.type_def(0, String::from("T"), DataType::Bool, 1);
    assert!(f.user_defined_type(0, String::from("T"), 0).ok().unwrap().same_as(&DataType::Bool));
    let e = f.user_defined_type(0, String::from("U"), 0).err().unwrap();
    assert_eq!(e.msg, "Undefined type U");
}

fn sched_var(name: &str, tagged: bool) -> NestedExpr<SchedTerm> {
    NestedExpr::Term(SchedTerm::Var {
        info: start(),
        name: String::from(name),
        tag: if tagged { Some(vec![]) } else { None },
    })
}

#[test]
fn scheduling_to_spec_expressions() {
    let f = factory();
    let e = f.binop(0, sched_var("a", false), Binop::Add, sched_var("b", false), 1);
    let s = ASTFactory::sched_to_spec_expr(e).ok().unwrap();
    match s {
        NestedExpr::Binop { op, lhs, .. } => {
            assert_eq!(op, Binop::Add);
            assert!(matches!(*lhs, NestedExpr::Term(SpecTerm::Var { ref name, .. }) if name == "a"));
        },
        _ => panic!("expected a binary operation"),
    }
    let e = ASTFactory::sched_to_spec_expr(sched_var("a", true)).err().unwrap();
    assert_eq!(e.msg, "A tag cannot occur in this context");
    let hole = NestedExpr::Term(SchedTerm::Hole(start()));
    let e = ASTFactory::sched_to_spec_expr(f.uop(0, Uop::Neg, hole, 0)).err().unwrap();
    assert_eq!(e.msg, "Holes cannot occur in this context");
    let tuple = NestedExpr::Term(SchedTerm::Lit {
        info: start(),
        lit: SchedLiteral::Tuple(vec![sched_var("x", false), sched_var("y", true)]),
        tag: None,
    });
    let e = ASTFactory::sched_to_spec_expr(tuple).err().unwrap();
    assert_eq!(e.msg, "A tag cannot occur in this context");
}

#[test]
fn constant_expressions() {
    let f = factory();
    let lit: SpecExpr = NestedExpr::Term(SpecTerm::Lit { info: start(), lit: SpecLiteral::Int(String::from("3")) });
    assert!(f.const_expr(lit).is_ok());
    let call: SpecExpr = NestedExpr::Term(SpecTerm::Call {
        info: Info { start_ln_and_col: (2, 4), end_ln_and_col: (2, 9) },
        function: Box::new(NestedExpr::Term(SpecTerm::Var { info: start(), name: String::from("g") })),
        args: vec![],
        template: None,
    });
    let e = f.const_expr(NestedExpr::Uop { info: start(), op: Uop::Neg, expr: Box::new(call) }).err().unwrap();
    assert_eq!(e.msg, "Non constant expression found in a constant context at 2:4 - 2:9");
    assert_eq!(e.loc.start_ln_and_col, (2, 4));
    let ok = f.template_args(vec![sched_var("n", false)]).ok().unwrap();
    assert!(matches!(ok, TemplateArgs::Vals(ref v) if v.len() == 1));
    let c = f.const_def(0, String::from("K"), sched_var("n", false), 1).ok().unwrap();
    assert!(matches!(c, TopLevel::Const { ref name, .. } if name == "K"));
}

#[test]
fn spec_statements() {
    let f = factory();
    let st = f.spec_returns(0, sched_var("r", false), 1).ok().unwrap();
    assert!(matches!(st, SpecStmt::Returns(i, _) if i.start_ln_and_col == (1, 0)));
    let st = f.spec_decl(0, vec![(String::from("x"), None)], sched_var("y", false), 4).ok().unwrap();
    assert!(matches!(st, SpecStmt::Assign { ref lhs, .. } if lhs.len() == 1));
    assert!(f.spec_decl(0, vec![], sched_var("y", true), 4).is_err());
}

#[test]
fn tags_and_flagged_types() {
    let qr = QuotientReference { spec_type: SpecType::Value, spec_var: Some(String::from("x")) };
    let t = ASTFactory::tag(Quotient::Node, qr.clone(), Some(Some(Flow::Usable)));
    assert_eq!(t.quot, Some(Quotient::Node));
    assert_eq!(t.flow, Some(Flow::Usable));
    let t = ASTFactory::flow_tag(qr, None);
    assert_eq!(t.quot, None);
    let f = factory();
    let ft = f.flagged_type(
        0,
        DataType::Int(IntSize::I64),
        Some(vec![(String::from("storage"), None), (String::from("align"), Some(String::from("8")))]),
        1,
    );
    assert_eq!(ft.flags, vec![String::from("storage")]);
    assert_eq!(ft.settings, vec![(String::from("align"), String::from("8"))]);
}

#[test]
fn parser_failures_become_syntax_errors() {
    let f = factory();
    let e = parse_error_to_error(ParseFailure::InvalidToken { location: 3 }, &f);
    assert_eq!(e.kind, ErrorKind::SyntaxParsing(String::from("Invalid token")));
    assert_eq!(e.location, ErrorLocation::Single(2, 1));
    let e = parse_error_to_error(
        ParseFailure::UnrecognizedToken { start: 4, token: String::from("x"), expected: String::from("[]") },
        &f,
    );
    assert_eq!(e.kind, ErrorKind::SyntaxParsing(String::from("Unrecognized token: 'x', expected one of []")));
    assert_eq!(e.location, ErrorLocation::Single(2, 2));
    let e = parse_error_to_error(ParseFailure::ExtraToken { start: 0, token: String::from("\"y\"") }, &f);
    assert_eq!(e.kind, ErrorKind::SyntaxParsing(String::from("Extra token: '\"y\"'")));
    let e = parse_error_to_error(ParseFailure::UnrecognizedEof { location: 6, expected: String::from("[]") }, &f);
    assert_eq!(e.kind, ErrorKind::SyntaxParsing(String::from("Unexpected EOF, expected one of: []")));
    assert_eq!(e.location, ErrorLocation::Single(3, 1));
    let user = high_level_caiman::error::CustomParsingError {
        loc: Info { start_ln_and_col: (9, 8), end_ln_and_col: (9, 9) },
        msg: String::from("custom"),
    };
    let e = parse_error_to_error(ParseFailure::User { error: user }, &f);
    assert_eq!(e.location, ErrorLocation::Single(9, 8));
    let m = make_error((1, 2), "p");
    assert_eq!(m.kind, ErrorKind::SyntaxParsing(String::from("p")));
}

#[test]
fn scheduling_constructors_place_and_shape() {
    let f = factory();
    let span = f.info(1, 4);
    let g = NestedExpr::Term(f.sched_var(0, String::from("g"), None, 1));
    let else_stmt = f.sched_hole_stmt(3, 4);
    match f.sched_if(1, None, g, vec![], Some(else_stmt), 4) {
        high_level_caiman::ast::SchedStmt::If { info, true_block, false_block, .. } => {
            assert_eq!(info, span);
            assert!(true_block.is_empty());
            assert_eq!(false_block.len(), 1);
        },
        _ => panic!("expected an if"),
    }
    let g2 = NestedExpr::Term(f.sched_var(0, String::from("g"), None, 1));
    match f.sched_if(1, None, g2, vec![], None, 4) {
        high_level_caiman::ast::SchedStmt::If { false_block, .. } => assert!(false_block.is_empty()),
        _ => panic!("expected an if"),
    }
    let x = NestedExpr::Term(f.sched_lit(0, SchedLiteral::Int(String::from("1")), None, 1));
    match f.sched_let_decl(1, vec![(String::from("x"), None)], x, 4) {
        high_level_caiman::ast::SchedStmt::Decl { is_const, expr, info, .. } => {
            assert!(is_const);
            assert!(expr.is_some());
            assert_eq!(info, span);
        },
        _ => panic!("expected a declaration"),
    }
    match f.sched_var_decl(1, vec![(String::from("v"), None)], None, 4) {
        high_level_caiman::ast::SchedStmt::Decl { is_const, expr, .. } => {
            assert!(!is_const);
            assert!(expr.is_none());
        },
        _ => panic!("expected a declaration"),
    }
    let body = f.sched_block(1, vec![], 4);
    match f.sched_var_seq(1, vec![], body, 4) {
        high_level_caiman::ast::SchedStmt::Sequence { is_const, .. } => assert!(!is_const),
        _ => panic!("expected a sequence"),
    }
    let target = NestedExpr::Term(f.sched_var(0, String::from("h"), None, 1));
    let call = f.sched_fn_call(0, target, None, vec![], None, 2);
    assert!(call.args.is_args());
    assert!(!call.yield_call);
    match f.sched_function(0, String::from("main"), vec![], None, vec![], vec![], 6) {
        TopLevel::SchedulingFunc { output, name, .. } => {
            assert!(output.is_empty());
            assert_eq!(name, "main");
        },
        _ => panic!("expected a scheduling function"),
    }
}

#[test]
fn extern_constructors_and_classes() {
    let f = factory();
    let ext = f.extern_pure_func(0, String::from("cpu"), String::from("e"), vec![], None, None, 2);
    match &ext {
        high_level_caiman::ast::ClassMembers::Extern { pure, output, .. } => {
            assert!(*pure);
            assert!(output.is_empty());
        },
        _ => panic!("expected an extern"),
    }
    let eff = f.extern_func(0, String::from("gpu"), String::from("k"), vec![], Some(vec![]), None, 2);
    assert!(matches!(eff, high_level_caiman::ast::ClassMembers::Extern { pure: false, .. }));
    match f.singleton_function_class(ext) {
        TopLevel::FunctionClass { name, members, info } => {
            assert_eq!(name, "e");
            assert_eq!(members.len(), 1);
            assert_eq!(info, f.info(0, 2));
        },
        _ => panic!("expected a class"),
    }
}

fn template_expr() -> SpecExpr {
    let lit = NestedExpr::Term(SpecTerm::Lit { info: start(), lit: SpecLiteral::Int(String::from("2")) });
    let tup = NestedExpr::Term(SpecTerm::Lit {
        info: start(),
        lit: SpecLiteral::Tuple(vec![NestedExpr::Term(SpecTerm::Var { info: start(), name: String::from("b") })]),
    });
    NestedExpr::Binop {
        info: start(),
        op: Binop::Mul,
        lhs: Box::new(NestedExpr::Term(SpecTerm::Var { info: start(), name: String::from("a") })),
        rhs: Box::new(NestedExpr::Binop {
            info: start(),
            op: Binop::Add,
            lhs: Box::new(NestedExpr::Uop { info: start(), op: Uop::Neg, expr: Box::new(lit) }),
            rhs: Box::new(tup),
        }),
    }
}

#[test]
fn spec_to_sched_round_trip() {
    let back = ASTFactory::sched_to_spec_expr(spec_to_sched(template_expr())).ok().unwrap();
    assert_eq!(format!("{:?}", back), format!("{:?}", template_expr()));
}
