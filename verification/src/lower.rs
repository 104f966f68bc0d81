//! Names used when lowering to Caiman assembly: the external functions that
//! operators become, the ids of call results, and the assembly names of types.
use vstd::prelude::*;

use crate::ast::{Binop, DataType, FloatSize, IntSize, Name, Uop};
use crate::text::text_of;

verus! {

/// The name of a binary operator in the names of external functions.
pub open spec fn binop_text(op: Binop) -> Seq<char> {
    match op {
        Binop::Lt => "lt"@,
        Binop::Leq => "leq"@,
        Binop::Gt => "gt"@,
        Binop::Geq => "geq"@,
        Binop::Eq => "eq"@,
        Binop::Neq => "neq"@,
        Binop::Add => "add"@,
        Binop::Sub => "sub"@,
        Binop::Mul => "mul"@,
        Binop::Div => "div"@,
        Binop::Mod => "mod"@,
        Binop::And => "and"@,
        Binop::Or => "or"@,
        Binop::Xor => "xor"@,
        Binop::Shl => "shl"@,
        Binop::Shr => "shr"@,
        Binop::Dot => "dot"@,
        Binop::Cons => "cons"@,
        Binop::Index => "index"@,
        Binop::Land => "land"@,
        Binop::Lor => "lor"@,
        Binop::AShr => "ashr"@,
        Binop::Range => "range"@,
    }
}

/// The name of a unary operator in the names of external functions.
pub open spec fn uop_text(op: Uop) -> Seq<char> {
    match op {
        Uop::Neg => "neg"@,
        Uop::Not => "not"@,
        Uop::LNot => "lnot"@,
        Uop::Deref => "deref"@,
        Uop::Ref => "ref"@,
    }
}

/// Each binary operator lowers to the external function of its own Caiman
/// name: `lt` for `<`, `gt` for `>`, `add` for `+`, and so on.
pub proof fn law_binop_names()
    ensures
        binop_text(Binop::Lt) == "lt"@,
        binop_text(Binop::Leq) == "leq"@,
        binop_text(Binop::Gt) == "gt"@,
        binop_text(Binop::Geq) == "geq"@,
        binop_text(Binop::Eq) == "eq"@,
        binop_text(Binop::Neq) == "neq"@,
        binop_text(Binop::Add) == "add"@,
        binop_text(Binop::Sub) == "sub"@,
        binop_text(Binop::Mul) == "mul"@,
        binop_text(Binop::Div) == "div"@,
        binop_text(Binop::Mod) == "mod"@,
        binop_text(Binop::And) == "and"@,
        binop_text(Binop::Or) == "or"@,
        binop_text(Binop::Xor) == "xor"@,
        binop_text(Binop::Shl) == "shl"@,
        binop_text(Binop::Shr) == "shr"@,
        binop_text(Binop::Dot) == "dot"@,
        binop_text(Binop::Cons) == "cons"@,
        binop_text(Binop::Index) == "index"@,
        binop_text(Binop::Land) == "land"@,
        binop_text(Binop::Lor) == "lor"@,
        binop_text(Binop::AShr) == "ashr"@,
        binop_text(Binop::Range) == "range"@,
{
}

/// Each unary operator lowers to the external function of its own Caiman name.
pub proof fn law_uop_names()
    ensures
        uop_text(Uop::Neg) == "neg"@,
        uop_text(Uop::Not) == "not"@,
        uop_text(Uop::LNot) == "lnot"@,
        uop_text(Uop::Deref) == "deref"@,
        uop_text(Uop::Ref) == "ref"@,
{
}

/// Different binary operators lower to different external functions: their
/// names differ.
pub proof fn law_binop_text_injective(a: Binop, b: Binop)
    requires
        binop_text(a) == binop_text(b),
    ensures
        a == b,
{
    reveal_strlit("lt");
    reveal_strlit("leq");
    reveal_strlit("gt");
    reveal_strlit("geq");
    reveal_strlit("eq");
    reveal_strlit("neq");
    reveal_strlit("add");
    reveal_strlit("sub");
    reveal_strlit("mul");
    reveal_strlit("div");
    reveal_strlit("mod");
    reveal_strlit("and");
    reveal_strlit("or");
    reveal_strlit("xor");
    reveal_strlit("shl");
    reveal_strlit("shr");
    reveal_strlit("dot");
    reveal_strlit("cons");
    reveal_strlit("index");
    reveal_strlit("land");
    reveal_strlit("lor");
    reveal_strlit("ashr");
    reveal_strlit("range");
    let ta = binop_text(a);
    let tb = binop_text(b);
    assert(ta.len() == tb.len() && ta[0] == tb[0] && ta[1] == tb[1] && ta[ta.len() - 1] == tb[tb.len() - 1]);
}

/// Different unary operators lower to different external functions: their
/// names differ.
pub proof fn law_uop_text_injective(a: Uop, b: Uop)
    requires
        uop_text(a) == uop_text(b),
    ensures
        a == b,
{
    reveal_strlit("neg");
    reveal_strlit("not");
    reveal_strlit("lnot");
    reveal_strlit("deref");
    reveal_strlit("ref");
    let ta = uop_text(a);
    let tb = uop_text(b);
    assert(ta.len() == tb.len() && ta[0] == tb[0] && ta[1] == tb[1] && ta[ta.len() - 1] == tb[tb.len() - 1]);
}

/// On the same operand types, different binary operators give different
/// external functions.
pub proof fn law_binop_to_str_distinct(a: Binop, b: Binop, l: Seq<char>, r: Seq<char>)
    requires
        a != b,
    ensures
        "_"@ + binop_text(a) + "_"@ + l + "_"@ + r != "_"@ + binop_text(b) + "_"@ + l + "_"@ + r,
{
    let x = "_"@ + binop_text(a) + "_"@ + l + "_"@ + r;
    let y = "_"@ + binop_text(b) + "_"@ + l + "_"@ + r;
    if x == y {
        lemma_op_name_prefix(binop_text(a), binop_text(b), l, r);
        law_binop_text_injective(a, b);
    }
}

/// Two names built as `_t_l_r` from the same `l` and `r` are equal only for
/// the same `t`.
proof fn lemma_op_name_prefix(t1: Seq<char>, t2: Seq<char>, l: Seq<char>, r: Seq<char>)
    requires
        "_"@ + t1 + "_"@ + l + "_"@ + r == "_"@ + t2 + "_"@ + l + "_"@ + r,
    ensures
        t1 == t2,
{
    reveal_strlit("_");
    let x = "_"@ + t1 + "_"@ + l + "_"@ + r;
    let y = "_"@ + t2 + "_"@ + l + "_"@ + r;
    assert(x.len() == 3 + t1.len() + l.len() + r.len());
    assert(y.len() == 3 + t2.len() + l.len() + r.len());
    assert(t1.len() == t2.len());
    assert(t1 =~= x.subrange(1, 1 + t1.len() as int));
    assert(t2 =~= y.subrange(1, 1 + t2.len() as int));
}

/// The name of a binary operator.
fn binop_name(op: Binop) -> (res: &'static str)
    ensures
        res@ == binop_text(op),
{
    match op {
        Binop::Lt => "lt",
        Binop::Leq => "leq",
        Binop::Gt => "gt",
        Binop::Geq => "geq",
        Binop::Eq => "eq",
        Binop::Neq => "neq",
        Binop::Add => "add",
        Binop::Sub => "sub",
        Binop::Mul => "mul",
        Binop::Div => "div",
        Binop::Mod => "mod",
        Binop::And => "and",
        Binop::Or => "or",
        Binop::Xor => "xor",
        Binop::Shl => "shl",
        Binop::Shr => "shr",
        Binop::Dot => "dot",
        Binop::Cons => "cons",
        Binop::Index => "index",
        Binop::Land => "land",
        Binop::Lor => "lor",
        Binop::AShr => "ashr",
        Binop::Range => "range",
    }
}

/// The name of a unary operator.
fn uop_name(op: Uop) -> (res: &'static str)
    ensures
        res@ == uop_text(op),
{
    match op {
        Uop::Neg => "neg",
        Uop::Not => "not",
        Uop::LNot => "lnot",
        Uop::Deref => "deref",
        Uop::Ref => "ref",
    }
}

/// The external function that applies `op` to operands of the given types:
/// `_op_left_right`.
pub fn binop_to_str(op: Binop, type_left: &str, type_right: &str) -> (res: String)
    ensures
        res@ == "_"@ + binop_text(op) + "_"@ + type_left@ + "_"@ + type_right@,
{
    let mut s = text_of("_");
    s.append(binop_name(op));
    s.append("_");
    s.append(type_left);
    s.append("_");
    s.append(type_right);
    s
}

/// The external function that applies `op` to an operand of the given type: `_op_in`.
pub fn uop_to_str(op: Uop, type_in: &str) -> (res: String)
    ensures
        res@ == "_"@ + uop_text(op) + "_"@ + type_in@,
{
    let mut s = text_of("_");
    s.append(uop_name(op));
    s.append("_");
    s.append(type_in);
    s
}

/// The names joined with `_` between them.
pub open spec fn joined(names: Seq<String>) -> Seq<char>
    decreases names.len(),
{
    if names.len() == 0 {
        Seq::empty()
    } else if names.len() == 1 {
        names[0]@
    } else {
        joined(names.drop_last()) + "_"@ + names.last()@
    }
}

/// The id of the direct result of an operation or call whose results are `names`:
/// `_t` and the name for one result, otherwise `_t_` and the names joined by `_`.
pub fn tuple_id(names: &[String]) -> (res: String)
    requires
        forall|i: int|
            0 <= i < names@.len() ==> #[trigger] names@[i]@.len() > 0 && !('0' <= names@[i]@[0]
                && names@[i]@[0] <= '9'),
    ensures
        names@.len() == 1 ==> res@ == "_t"@ + names@[0]@,
        names@.len() != 1 ==> res@ == "_t_"@ + joined(names@),
{
    if names.len() == 1 {
        let mut s = text_of("_t");
        s.append(names[0].as_str());
        return s;
    }
    let mut s = text_of("_t_");
    let ghost start = s@;
    let mut i: usize = 0;
    while i < names.len()
        invariant
            start == "_t_"@,
            i <= names@.len(),
            names@.len() != 1,
            s@ == start + joined(names@.take(i as int)),
        decreases names@.len() - i,
    {
        assert(names@.take(i + 1).drop_last() =~= names@.take(i as int));
        if i > 0 {
            s.append("_");
        }
        s.append(names[i].as_str());
        proof {
            if i == 0 {
                assert(joined(names@.take(1)) == names@[0]@);
            }
        }
        i += 1;
    }
    assert(names@.take(i as int) =~= names@);
    s
}

/// An operation of the high-level IR: unlowered, or lowered to an external call.
#[derive(Debug)]
pub enum HirOp {
    /// an unlowered binary operation
    Binary(Binop),
    /// an unlowered unary operation
    Unary(Uop),
    /// an operation lowered into a call of this external function
    FFI(Name),
}

impl HirOp {
    /// The external function a lowered operation calls.
    pub fn lower(&self) -> (res: Name)
        requires
            *self is FFI,
        ensures
            res@ == self->FFI_0@,
    {
        match self {
            HirOp::FFI(name) => name.clone(),
            _ => {
                proof {
                    assert(false);
                }
                String::new()
            },
        }
    }
}

/// How a statement uses a variable.
#[derive(Clone, Copy, Debug, PartialEq, Eq, Structural)]
pub enum UseType {
    Write,
    Read,
}

/// A type that values passed to and from external functions can have.
#[derive(Clone, Copy, Debug, PartialEq, Eq, Structural)]
pub enum FfiType {
    I32,
    I64,
    F64,
}

/// The type booleans are passed as.
pub const BOOL_FFI_TYPE: FfiType = FfiType::I32;

/// The external counterpart of a value type.
pub open spec fn ffi_of(t: DataType) -> Option<FfiType> {
    match t {
        DataType::Bool => Some(BOOL_FFI_TYPE),
        DataType::Int(IntSize::I32) => Some(FfiType::I32),
        DataType::Int(IntSize::I64) => Some(FfiType::I64),
        DataType::Float(FloatSize::F64) => Some(FfiType::F64),
        _ => None,
    }
}

/// The type under all references of `t`.
pub open spec fn stored_type(t: DataType) -> DataType
    decreases t,
{
    match t {
        DataType::Ref(d) => stored_type(*d),
        _ => t,
    }
}

/// The assembly name of a type.
pub open spec fn asm_type_text(t: DataType) -> Seq<char>
    decreases t,
{
    match t {
        DataType::Bool => "bool"@,
        DataType::Int(IntSize::I32) => "i32"@,
        DataType::Int(IntSize::I64) => "i64"@,
        DataType::Float(FloatSize::F64) => "f64"@,
        DataType::BufferSpace => "BufferSpace"@,
        DataType::Event => "Event"@,
        DataType::UserDefined(name) => name@,
        DataType::Ref(d) => "&"@ + asm_type_text(*d),
        _ => Seq::empty(),
    }
}

/// Whether the type has an assembly name: no arrays or slices in it.
pub open spec fn has_asm_type(t: DataType) -> bool
    decreases t,
{
    match t {
        DataType::Array(..) => false,
        DataType::Slice(..) => false,
        DataType::Ref(d) => has_asm_type(*d),
        _ => true,
    }
}

impl DataType {
    /// The external counterpart of a value type; `None` for other types.
    pub fn ffi(&self) -> (res: Option<FfiType>)
        ensures
            res == ffi_of(*self),
    {
        match self {
            DataType::Bool => Some(BOOL_FFI_TYPE),
            DataType::Int(IntSize::I32) => Some(FfiType::I32),
            DataType::Int(IntSize::I64) => Some(FfiType::I64),
            DataType::Float(FloatSize::F64) => Some(FfiType::F64),
            _ => None,
        }
    }

    /// The external type of what a value of this type is stored as, looking
    /// through references.
    pub fn storage_type(&self) -> (res: FfiType)
        requires
            ffi_of(stored_type(*self)) is Some,
        ensures
            res == ffi_of(stored_type(*self))->Some_0,
        decreases self,
    {
        match self {
            DataType::Ref(d) => (&**d).storage_type(),
            _ => match self.ffi() {
                Some(t) => t,
                None => {
                    proof {
                        assert(false);
                    }
                    FfiType::I32
                },
            },
        }
    }

    /// The assembly name of the type (`&` before a referenced type).
    pub fn asm_type(&self) -> (res: String)
        requires
            has_asm_type(*self),
        ensures
            res@ == asm_type_text(*self),
        decreases self,
    {
        match self {
            DataType::Bool => text_of("bool"),
            DataType::Int(IntSize::I32) => text_of("i32"),
            DataType::Int(IntSize::I64) => text_of("i64"),
            DataType::Float(FloatSize::F64) => text_of("f64"),
            DataType::BufferSpace => text_of("BufferSpace"),
            DataType::Event => text_of("Event"),
            DataType::UserDefined(name) => name.clone(),
            DataType::Ref(d) => {
                let mut s = text_of("&");
                s.append((&**d).asm_type().as_str());
                s
            },
            _ => String::new(),
        }
    }
}

} // verus!
