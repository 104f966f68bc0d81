use high_level_caiman::ast::{DataType, Flow, IntSize, Quotient, SchedTerm, SpecType};
use high_level_caiman::error::Info;
use high_level_caiman::hir::{HirBody, Terminator};
use high_level_caiman::tags::{TagAnalysis, TripleTag};

fn s(x: &str) -> String {
    String::from(x)
}

fn var(name: &str) -> SchedTerm {
    SchedTerm::Var { info: Info::default(), name: s(name), tag: None }
}

fn int_type() -> DataType {
    DataType::Int(IntSize::I64)
}

fn reference() -> DataType {
    DataType::Ref(Box::new(int_type()))
}

fn analysis() -> TagAnalysis {
    let mut a_tag = TripleTag::new_unspecified();
    a_tag.value.quot = Some(Quotient::Node);
    let input = vec![(s("a"), a_tag), (s("r"), TripleTag::new_unspecified())];
    let dt = vec![(s("a"), int_type()), (s("r"), reference()), (s("x"), int_type()), (s("y"), int_type()), (s("z"), int_type())];
    TagAnalysis::top(&input, &vec![TripleTag::new_none_usable()], dt, vec![], 1)
}

#[test]
fn top_gives_inputs_input_quotients() {
    let t = analysis();
    let a = t.get_tag("a").unwrap();
    assert_eq!(a.value.quot, Some(Quotient::Node));
    assert_eq!(a.value.flow, Some(Flow::Usable));
    assert_eq!(a.spatial.quot, Some(Quotient::Nil));
    assert_eq!(a.spatial.flow, Some(Flow::Usable));
    assert_eq!(a.timeline.flow, Some(Flow::Usable));
    let r = t.get_tag("r").unwrap();
    assert_eq!(r.spatial.flow, Some(Flow::Save));
    // filling the unknown parts gives the value a `none()` quotient first
    assert_eq!(r.value.quot, Some(Quotient::Nil));
    assert!(t.get_tag("x").is_none());
    assert!(t.get_input_override("a").is_none());
}

#[test]
fn top_tags_dimension_arguments() {
    let t = analysis();
    let d = t.get_tag("_dim0").unwrap();
    assert_eq!(d.value.quot, Some(Quotient::Input));
    assert_eq!(d.value.quot_var.spec_type, SpecType::Value);
    assert_eq!(d.value.quot_var.spec_var, Some(s("_dim0")));
    assert!(t.get_tag("_dim1").is_none());
}

#[test]
fn const_decl_takes_value_tag_of_its_source() {
    let mut t = analysis();
    let decl = HirBody::ConstDecl { info: Info::default(), lhs: s("x"), lhs_tag: TripleTag::new_unspecified(), rhs: var("a") };
    t.transfer_stmt(&decl);
    let x = t.get_tag("x").unwrap();
    assert_eq!(x.value.quot, Some(Quotient::Node));
    assert_eq!(x.spatial.quot, Some(Quotient::Nil));
    assert_eq!(x.spatial.flow, Some(Flow::Usable));
}

#[test]
fn var_decl_without_value_is_dead_and_saved() {
    let mut t = analysis();
    let decl = HirBody::VarDecl { info: Info::default(), lhs: s("y"), lhs_tag: TripleTag::new_unspecified(), rhs: None };
    t.transfer_stmt(&decl);
    let y = t.get_tag("y").unwrap();
    assert_eq!(y.value.flow, Some(Flow::Dead));
    assert_eq!(y.value.quot, Some(Quotient::Nil));
    assert_eq!(y.spatial.flow, Some(Flow::Save));
    assert_eq!(y.spatial.quot, Some(Quotient::Nil));
}

#[test]
fn ref_load_makes_saved_usable() {
    let mut t = analysis();
    let load = HirBody::RefLoad { dest: s("z"), typ: int_type(), src: s("r") };
    t.transfer_stmt(&load);
    assert_eq!(t.get_tag("z").unwrap().spatial.flow, Some(Flow::Usable));
}

#[test]
fn ref_store_sets_given_parts_and_value_of_source() {
    let mut t = analysis();
    let mut given = TripleTag::new_unspecified();
    given.timeline.flow = Some(Flow::Need);
    let store = HirBody::RefStore { info: Info::default(), lhs_tags: given, lhs: s("r"), rhs: var("a") };
    t.transfer_stmt(&store);
    let r = t.get_tag("r").unwrap();
    assert_eq!(r.timeline.flow, Some(Flow::Need));
    assert_eq!(r.value.quot, Some(Quotient::Node));
    assert_eq!(r.spatial.flow, Some(Flow::Save));
}

#[test]
fn in_annotation_overrides_input_tags() {
    let mut t = analysis();
    let mut given = TripleTag::new_unspecified();
    given.value.quot = Some(Quotient::Input);
    let ann = HirBody::InAnnotation(Info::default(), vec![(s("a"), given.copy()), (s("w"), given)]);
    t.transfer_stmt(&ann);
    assert_eq!(t.get_tag("a").unwrap().value.quot, Some(Quotient::Input));
    assert_eq!(t.get_tag("a").unwrap().value.flow, Some(Flow::Usable));
    assert_eq!(t.get_input_override("a").unwrap().value.quot, Some(Quotient::Input));
    assert_eq!(t.get_tag("w").unwrap().value.quot, Some(Quotient::Input));
    assert_eq!(t.get_tag("w").unwrap().value.flow, None);
}

#[test]
fn final_block_adds_return_tags_once() {
    let mut t = analysis();
    assert!(t.get_tag("_out0").is_none());
    t.special_process_block(0);
    assert_eq!(t.get_tag("_out0").unwrap().value.flow, Some(Flow::Usable));
    let mut given = TripleTag::new_unspecified();
    given.value.flow = Some(Flow::Dead);
    let ann = HirBody::InAnnotation(Info::default(), vec![(s("a"), given)]);
    t.transfer_stmt(&ann);
    t.special_process_block(0);
    assert!(t.get_input_override("a").is_some());
    t.special_process_block(2);
    assert!(t.get_input_override("a").is_none());
}

#[test]
fn return_gives_destinations_the_returned_tags() {
    let mut t = analysis();
    let mut ret = Terminator::Return { dests: vec![(s("x"), TripleTag::new_unspecified())], rets: vec![s("a")] };
    t.transfer_tail(&mut ret, 5);
    let x = t.get_tag("x").unwrap();
    assert_eq!(x.value.quot, Some(Quotient::Node));
    assert_eq!(x.spatial.flow, Some(Flow::Usable));
}

#[test]
fn select_defines_its_destinations() {
    let mut t = analysis();
    let mut dt = TripleTag::new_unspecified();
    dt.timeline.flow = Some(Flow::Need);
    let mut sel = Terminator::Select { dests: vec![(s("y"), dt)], guard: s("a"), tag: TripleTag::new_unspecified() };
    t.transfer_tail(&mut sel, 5);
    let y = t.get_tag("y").unwrap();
    assert_eq!(y.timeline.flow, Some(Flow::Need));
    assert_eq!(y.value.quot, Some(Quotient::Nil));
    match sel {
        Terminator::Select { tag, .. } => {
            assert_eq!(tag.value.quot, Some(Quotient::Nil));
            assert_eq!(tag.spatial.flow, Some(Flow::Usable));
        },
        _ => panic!("expected a select"),
    }
}

#[test]
fn end_of_start_block_turns_inputs_into_nodes() {
    let mut t = analysis();
    assert_eq!(t.get_tag("_dim0").unwrap().value.quot, Some(Quotient::Input));
    t.transfer_tail(&mut Terminator::Next(vec![]), 1);
    assert_eq!(t.get_tag("_dim0").unwrap().value.quot, Some(Quotient::Node));
    assert_eq!(t.get_tag("a").unwrap().value.quot, Some(Quotient::Node));
}

#[test]
fn meet_fills_unknown_parts_and_keeps_one_sided_tags() {
    let mut a = analysis();
    let mut b = analysis();
    let mut wa = TripleTag::new_unspecified();
    wa.value.quot = Some(Quotient::Input);
    a.transfer_stmt(&HirBody::InAnnotation(Info::default(), vec![(s("w"), wa)]));
    let mut wb = TripleTag::new_unspecified();
    wb.value.flow = Some(Flow::Need);
    b.transfer_stmt(&HirBody::InAnnotation(Info::default(), vec![(s("w"), wb)]));
    let decl = HirBody::VarDecl { info: Info::default(), lhs: s("y"), lhs_tag: TripleTag::new_unspecified(), rhs: None };
    b.transfer_stmt(&decl);
    let m = a.meet(&b);
    let w = m.get_tag("w").unwrap();
    assert_eq!(w.value.quot, Some(Quotient::Input));
    assert_eq!(w.value.flow, Some(Flow::Need));
    assert_eq!(m.get_tag("y").unwrap().value.flow, Some(Flow::Dead));
    assert_eq!(m.get_tag("a").unwrap().value.quot, Some(Quotient::Node));
}
