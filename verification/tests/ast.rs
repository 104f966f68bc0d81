use high_level_caiman::ast::{
    ArgsOrEnc, ClassMembers, DataType, ExternDefMembers, FloatSize, Flow, IntSize, NestedExpr, Quotient,
    QuotientReference, ResourceMembers, SchedFuncCall, SchedStmt, SchedTerm, SpecType, Tag,
};
use high_level_caiman::error::Info;

fn info(l: usize) -> Info {
    Info { start_ln_and_col: (l, 1), end_ln_and_col: (l, 2) }
}

#[test]
fn data_type_text() {
    let i64t = DataType::Int(IntSize::I64);
    assert_eq!(i64t.to_text(false), "i64");
    assert_eq!(DataType::Float(FloatSize::F64).to_text(true), "f64");
    let slice = DataType::Slice(Box::new(DataType::Int(IntSize::I64)));
    assert_eq!(slice.to_text(false), "[i64]");
    assert_eq!(slice.to_text(true), "_a_i64");
    let r = DataType::Ref(Box::new(DataType::Int(IntSize::I32)));
    assert_eq!(r.to_text(false), "&i32");
    assert_eq!(r.to_text(true), "_r_i32");
    let nested = DataType::Ref(Box::new(DataType::Slice(Box::new(DataType::Bool))));
    assert_eq!(nested.to_text(true), "_r_[bool]");
    assert_eq!(DataType::UserDefined(String::from("Foo")).to_text(true), "Foo");
    assert_eq!(DataType::BufferSpace.to_text(false), "BufferSpace");
    assert_eq!(DataType::Event.to_text(false), "Event");
}

#[test]
fn data_type_refines() {
    let i64t = DataType::Int(IntSize::I64);
    let r = DataType::Ref(Box::new(DataType::Int(IntSize::I64)));
    assert!(i64t.refines(&DataType::Int(IntSize::I64)));
    assert!(r.refines(&i64t));
    assert!(!i64t.refines(&r));
    assert!(!i64t.refines(&DataType::Int(IntSize::I32)));
    assert!(DataType::Bool.same_as(&DataType::Bool));
    assert!(!DataType::Bool.same_as(&DataType::Event));
    assert!(DataType::UserDefined(String::from("a")).same_as(&DataType::UserDefined(String::from("a"))));
    assert!(!DataType::UserDefined(String::from("a")).same_as(&DataType::UserDefined(String::from("b"))));
    let d = r.duplicate();
    assert!(d.same_as(&r));
}

#[test]
fn quotients_and_meta_ids() {
    assert!(Quotient::Nil.is_none());
    assert!(!Quotient::Node.is_none());
    assert_eq!(SpecType::Value.get_meta_id(), "val");
    assert_eq!(SpecType::Timeline.get_meta_id(), "tmln");
    assert_eq!(SpecType::Spatial.get_meta_id(), "sptl");
}

fn tag(quot: Option<Quotient>, var: Option<&str>, flow: Option<Flow>) -> Tag {
    Tag {
        quot,
        quot_var: QuotientReference { spec_type: SpecType::Value, spec_var: var.map(String::from) },
        flow,
    }
}

#[test]
fn tag_merging() {
    let t = Tag::new_unspecified(SpecType::Timeline);
    assert!(t.quot.is_none() && t.quot_var.spec_var.is_none() && t.flow.is_none());
    assert_eq!(t.quot_var.spec_type, SpecType::Timeline);

    let mut a = tag(Some(Quotient::Node), None, Some(Flow::Usable));
    a.set_specified_info(tag(None, Some("x"), Some(Flow::Dead)));
    assert!(a.same_as(&tag(Some(Quotient::Node), Some("x"), Some(Flow::Dead))));

    let mut b = tag(Some(Quotient::Node), None, Some(Flow::Usable));
    b.override_unknown_info(tag(Some(Quotient::Input), Some("y"), Some(Flow::Save)));
    assert!(b.same_as(&tag(Some(Quotient::Node), Some("y"), Some(Flow::Usable))));
    assert!(!b.same_as(&tag(Some(Quotient::Input), Some("y"), Some(Flow::Usable))));
}

#[test]
fn member_texts() {
    let m = ResourceMembers::Numeric(String::from("group"), String::from("0"));
    assert_eq!(m.to_text(), "group: 0");
    assert_eq!(ResourceMembers::Input(String::from("x")).to_text(), "input: x");
    assert_eq!(ResourceMembers::Output(String::from("y")).to_text(), "output: y");
    let d = ExternDefMembers::StrVal(String::from("path"), String::from("a.comp"));
    assert_eq!(d.to_text(), "path: a.comp");
}

fn var(name: &str) -> NestedExpr<SchedTerm> {
    NestedExpr::Term(SchedTerm::Var { info: info(1), name: String::from(name), tag: None })
}

#[test]
fn calls_and_statements() {
    let call = SchedFuncCall {
        target: Box::new(var("f")),
        templates: None,
        args: Box::new(ArgsOrEnc::Args(vec![var("a"), var("b")])),
        tag: None,
        yield_call: false,
    };
    assert!(call.args.is_args());
    let local = call.unwrap_local_call();
    assert_eq!(local.args.len(), 2);
    assert!(!local.yield_call);
    let term = SchedTerm::Var { info: info(1), name: String::from("v"), tag: Some(vec![]) };
    assert!(term.get_tags().is_some());
    assert!(SchedTerm::Hole(info(1)).get_tags().is_none());
    let st = SchedStmt::Hole(info(7));
    assert_eq!(*st.get_info(), info(7));
}

#[test]
fn class_member_signature() {
    let m = ClassMembers::Extern {
        info: info(3),
        name: String::from("ext"),
        device: String::from("cpu"),
        pure: true,
        input: vec![(None, DataType::Int(IntSize::I64)), (Some(String::from("b")), DataType::Bool)],
        output: vec![(None, DataType::Int(IntSize::I32))],
        def: None,
    };
    assert_eq!(m.get_name(), "ext");
    assert_eq!(m.get_info(), info(3));
    let (ins, outs) = m.get_type_signature();
    assert_eq!(ins.len(), 2);
    assert!(ins[0].same_as(&DataType::Int(IntSize::I64)));
    assert!(ins[1].same_as(&DataType::Bool));
    assert_eq!(outs.len(), 1);
    assert!(outs[0].same_as(&DataType::Int(IntSize::I32)));
}
