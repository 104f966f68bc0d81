use high_level_caiman::ast::{Binop, DataType, FloatSize, IntSize, Uop};
use high_level_caiman::lower::{binop_to_str, tuple_id, uop_to_str, FfiType, HirOp, BOOL_FFI_TYPE};

#[test]
fn operator_function_names() {
    assert_eq!(binop_to_str(Binop::Add, "i64", "i64"), "_add_i64_i64");
    assert_eq!(binop_to_str(Binop::Leq, "i32", "i64"), "_leq_i32_i64");
    assert_eq!(binop_to_str(Binop::AShr, "a", "b"), "_ashr_a_b");
    assert_eq!(uop_to_str(Uop::LNot, "bool"), "_lnot_bool");
    assert_eq!(uop_to_str(Uop::Deref, "i64"), "_deref_i64");
}

#[test]
fn tuple_ids() {
    assert_eq!(tuple_id(&[String::from("x")]), "_tx");
    assert_eq!(tuple_id(&[String::from("a"), String::from("b"), String::from("c")]), "_t_a_b_c");
    assert_eq!(tuple_id(&[]), "_t_");
}

#[test]
fn lowered_operations() {
    assert_eq!(HirOp::FFI(String::from("_add_i64_i64")).lower(), "_add_i64_i64");
}

#[test]
fn assembly_types() {
    assert_eq!(DataType::Bool.ffi(), Some(BOOL_FFI_TYPE));
    assert_eq!(DataType::Int(IntSize::I64).ffi(), Some(FfiType::I64));
    assert_eq!(DataType::Float(FloatSize::F64).ffi(), Some(FfiType::F64));
    assert_eq!(DataType::Event.ffi(), None);
    let r = DataType::Ref(Box::new(DataType::Ref(Box::new(DataType::Int(IntSize::I32)))));
    assert_eq!(r.storage_type(), FfiType::I32);
    assert_eq!(r.asm_type(), "&&i32");
    assert_eq!(DataType::UserDefined(String::from("T")).asm_type(), "T");
}
