//! The abstract syntax tree of the high-level Caiman language.
use vstd::prelude::*;

use crate::error::Info;
use crate::text::text_of;

verus! {

/// A name in the source.
pub type Name = String;

/// A named argument.
pub type Arg<T> = (String, T);

/// An argument whose annotation may be missing.
pub type MaybeArg<T> = (String, Option<T>);

/// An output that may be named.
pub type NamedOutput<T> = (Option<String>, T);

/// A numeric data type.
#[derive(Clone, Copy, Debug, PartialEq, Eq, Structural, Hash)]
pub enum IntSize {
    I32,
    I64,
}

/// A floating point data type.
#[derive(Clone, Copy, Debug, PartialEq, Eq, Structural, Hash)]
pub enum FloatSize {
    F64,
}

/// A core data type available in the value and scheduling languages
/// (`i64`, `bool`, `i32`, ...).
#[derive(Debug)]
pub enum DataType {
    Int(IntSize),
    Float(FloatSize),
    Bool,
    BufferSpace,
    Event,
    Array(Box<DataType>, Box<SpecExpr>),
    Slice(Box<DataType>),
    UserDefined(String),
    Ref(Box<DataType>),
}

/// Whether comparing `a` and `b` is defined: it is not for two array types.
pub open spec fn comparable(a: DataType, b: DataType) -> bool
    decreases a,
{
    match a {
        DataType::Array(..) => !(b is Array),
        DataType::Slice(x) => match b {
            DataType::Slice(y) => comparable(*x, *y),
            _ => true,
        },
        DataType::Ref(x) => match b {
            DataType::Ref(y) => comparable(*x, *y),
            _ => true,
        },
        _ => true,
    }
}

/// Equality of data types: same kind, with equal sizes, names and element types.
pub open spec fn same_type(a: DataType, b: DataType) -> bool
    decreases a,
{
    match a {
        DataType::Int(x) => b matches DataType::Int(y) && x == y,
        DataType::Float(x) => b matches DataType::Float(y) && x == y,
        DataType::Bool => b is Bool,
        DataType::BufferSpace => b is BufferSpace,
        DataType::Event => b is Event,
        DataType::Array(..) => b is Array,
        DataType::Slice(x) => match b {
            DataType::Slice(y) => same_type(*x, *y),
            _ => false,
        },
        DataType::UserDefined(x) => b matches DataType::UserDefined(y) && x@ == y@,
        DataType::Ref(x) => match b {
            DataType::Ref(y) => same_type(*x, *y),
            _ => false,
        },
    }
}

/// Whether an array type occurs in `t`.
pub open spec fn has_array(t: DataType) -> bool
    decreases t,
{
    match t {
        DataType::Array(..) => true,
        DataType::Slice(x) => has_array(*x),
        DataType::Ref(x) => has_array(*x),
        _ => false,
    }
}

/// The text of a data type; the alternate form is the mangled one, which only
/// changes the outermost slice or reference.
pub open spec fn type_text(t: DataType, alternate: bool) -> Seq<char>
    decreases t,
{
    match t {
        DataType::Int(IntSize::I32) => "i32"@,
        DataType::Int(IntSize::I64) => "i64"@,
        DataType::Float(FloatSize::F64) => "f64"@,
        DataType::Bool => "bool"@,
        DataType::BufferSpace => "BufferSpace"@,
        DataType::Event => "Event"@,
        DataType::Array(..) => Seq::empty(),
        DataType::Slice(x) => if alternate {
            "_a_"@ + type_text(*x, false)
        } else {
            "["@ + type_text(*x, false) + "]"@
        },
        DataType::UserDefined(name) => name@,
        DataType::Ref(x) => if alternate {
            "_r_"@ + type_text(*x, false)
        } else {
            "&"@ + type_text(*x, false)
        },
    }
}

impl DataType {
    /// Whether `self` and `b` are the same type.
    pub fn same_as(&self, b: &Self) -> (res: bool)
        requires
            comparable(*self, *b),
        ensures
            res == same_type(*self, *b),
        decreases self,
    {
        match (self, b) {
            (DataType::Int(x), DataType::Int(y)) => *x == *y,
            (DataType::Float(x), DataType::Float(y)) => *x == *y,
            (DataType::Bool, DataType::Bool) => true,
            (DataType::BufferSpace, DataType::BufferSpace) => true,
            (DataType::Event, DataType::Event) => true,
            (DataType::Slice(x), DataType::Slice(y)) => (&**x).same_as(&**y),
            (DataType::Ref(x), DataType::Ref(y)) => (&**x).same_as(&**y),
            (DataType::UserDefined(x), DataType::UserDefined(y)) => *x == *y,
            _ => false,
        }
    }

    /// Whether `self` refines `b`: it is the same as `b` or a reference to `b`.
    pub fn refines(&self, b: &Self) -> (res: bool)
        requires
            comparable(*self, *b),
            !same_type(*self, *b) ==> (self matches DataType::Ref(a) ==> comparable(*b, **a)),
        ensures
            res == (same_type(*self, *b) || (self matches DataType::Ref(a) && same_type(*b, **a))),
    {
        if self.same_as(b) {
            return true;
        }
        match self {
            DataType::Ref(a) => b.same_as(&**a),
            _ => false,
        }
    }

    /// The text of the type; with `alternate`, the mangled text.
    pub fn to_text(&self, alternate: bool) -> (res: String)
        requires
            !has_array(*self),
        ensures
            res@ == type_text(*self, alternate),
        decreases self,
    {
        match self {
            DataType::Int(IntSize::I32) => text_of("i32"),
            DataType::Int(IntSize::I64) => text_of("i64"),
            DataType::Float(FloatSize::F64) => text_of("f64"),
            DataType::Bool => text_of("bool"),
            DataType::BufferSpace => text_of("BufferSpace"),
            DataType::Event => text_of("Event"),
            DataType::Slice(x) => {
                let inner = (&**x).to_text(false);
                if alternate {
                    let mut s = text_of("_a_");
                    s.append(inner.as_str());
                    s
                } else {
                    let mut s = text_of("[");
                    s.append(inner.as_str());
                    s.append("]");
                    s
                }
            },
            DataType::UserDefined(name) => name.clone(),
            DataType::Ref(x) => {
                let inner = (&**x).to_text(false);
                let mut s = if alternate {
                    text_of("_r_")
                } else {
                    text_of("&")
                };
                s.append(inner.as_str());
                s
            },
            DataType::Array(..) => String::new(),
        }
    }
}

/// Binary operators in the value and scheduling languages.
#[derive(Clone, Copy, Debug, PartialEq, Eq, Structural, Hash)]
pub enum Binop {
    Dot,
    Add,
    Mul,
    Sub,
    Div,
    Land,
    Lor,
    Eq,
    Neq,
    Lt,
    Gt,
    Leq,
    Geq,
    Index,
    Range,
    Cons,
    Xor,
    Or,
    And,
    Shl,
    Shr,
    AShr,
    Mod,
}

/// Unary operators in the value and scheduling languages.
#[derive(Clone, Copy, Debug, PartialEq, Eq, Structural, Hash)]
pub enum Uop {
    Neg,
    LNot,
    Not,
    Ref,
    Deref,
}

/// A literal in the spec languages.
#[derive(Debug)]
pub enum SpecLiteral {
    Int(String),
    Float(String),
    Bool(bool),
    Array(Vec<SpecExpr>),
    Tuple(Vec<SpecExpr>),
}

/// A literal in the scheduling language.
#[derive(Debug)]
pub enum SchedLiteral {
    Int(String),
    Float(String),
    Bool(bool),
    Array(Vec<SchedExpr>),
    Tuple(Vec<SchedExpr>),
}

/// An expression in the spec language.
pub type SpecExpr = NestedExpr<SpecTerm>;

/// A term of the spec language: a variable, a literal or a call.
#[derive(Debug)]
pub enum SpecTerm {
    Var { info: Info, name: Name },
    Lit { info: Info, lit: SpecLiteral },
    Call { info: Info, function: Box<SpecExpr>, args: Vec<SpecExpr>, template: Option<FlaggedType> },
}

/// The top of an expression tree, the same for spec and scheduling expressions.
#[derive(Debug)]
pub enum NestedExpr<T> {
    Binop { info: Info, op: Binop, lhs: Box<NestedExpr<T>>, rhs: Box<NestedExpr<T>> },
    Uop { info: Info, op: Uop, expr: Box<NestedExpr<T>> },
    Conditional {
        info: Info,
        if_true: Box<NestedExpr<T>>,
        guard: Box<NestedExpr<T>>,
        if_false: Box<NestedExpr<T>>,
    },
    Term(T),
}

/// A statement of a specification function.
#[derive(Debug)]
pub enum SpecStmt {
    Assign { info: Info, lhs: Vec<(Name, Option<DataType>)>, rhs: SpecExpr },
    Returns(Info, SpecExpr),
}

/// A quotient as written in the source.
#[derive(Clone, Copy, Debug, PartialEq, Eq, Structural)]
pub enum Quotient {
    Node,
    Input,
    Nil,
}

impl Quotient {
    /// Whether this is the `none` quotient (`Nil`).
    pub fn is_none(self) -> (res: bool)
        ensures
            res == (self is Nil),
    {
        match self {
            Quotient::Nil => true,
            _ => false,
        }
    }
}

/// A flow as written in the source.
#[derive(Clone, Copy, Debug, PartialEq, Eq, Structural)]
pub enum Flow {
    Usable,
    Save,
    Dead,
    Need,
}

/// The kind of a spec.
#[derive(Clone, Copy, Debug, PartialEq, Eq, Structural)]
pub enum SpecType {
    Value,
    Timeline,
    Spatial,
}

/// The meta id naming each kind of spec.
pub open spec fn meta_id_text(s: SpecType) -> Seq<char> {
    match s {
        SpecType::Value => "val"@,
        SpecType::Timeline => "tmln"@,
        SpecType::Spatial => "sptl"@,
    }
}

impl SpecType {
    /// The name of the meta id of this kind of spec.
    pub fn get_meta_id(self) -> (res: String)
        ensures
            res@ == meta_id_text(self),
    {
        match self {
            SpecType::Value => text_of("val"),
            SpecType::Timeline => text_of("tmln"),
            SpecType::Spatial => text_of("sptl"),
        }
    }
}

/// The part of a type annotation that names a spec and, maybe, a variable in it.
#[derive(Clone, Debug)]
pub struct QuotientReference {
    pub spec_type: SpecType,
    pub spec_var: Option<String>,
}

/// A tag of the front end.
#[derive(Clone, Debug)]
pub struct Tag {
    pub quot: Option<Quotient>,
    pub quot_var: QuotientReference,
    pub flow: Option<Flow>,
}

/// Equal optional strings.
pub open spec fn same_opt_text(a: Option<String>, b: Option<String>) -> bool {
    match (a, b) {
        (Some(x), Some(y)) => x@ == y@,
        (None, None) => true,
        _ => false,
    }
}

/// Equality of tags: the same quotient, spec, variable and flow.
pub open spec fn same_tag(a: Tag, b: Tag) -> bool {
    &&& a.quot == b.quot
    &&& a.quot_var.spec_type == b.quot_var.spec_type
    &&& same_opt_text(a.quot_var.spec_var, b.quot_var.spec_var)
    &&& a.flow == b.flow
}

/// `t` with every part that `o` gives taken from `o`.
pub open spec fn with_specified(t: Tag, o: Tag) -> Tag {
    Tag {
        quot: if o.quot is Some { o.quot } else { t.quot },
        quot_var: QuotientReference {
            spec_type: t.quot_var.spec_type,
            spec_var: if o.quot_var.spec_var is Some {
                o.quot_var.spec_var
            } else {
                t.quot_var.spec_var
            },
        },
        flow: if o.flow is Some { o.flow } else { t.flow },
    }
}

/// `t` with every part that it lacks taken from `o`.
pub open spec fn with_unknown_filled(t: Tag, o: Tag) -> Tag {
    Tag {
        quot: if t.quot is None { o.quot } else { t.quot },
        quot_var: QuotientReference {
            spec_type: t.quot_var.spec_type,
            spec_var: if t.quot_var.spec_var is None {
                o.quot_var.spec_var
            } else {
                t.quot_var.spec_var
            },
        },
        flow: if t.flow is None { o.flow } else { t.flow },
    }
}

/// Filling the unknown parts of `t` from `o` is taking `o` and setting the parts
/// that `t` gives, for tags of the same spec.
pub proof fn law_fill_is_reverse_set(t: Tag, o: Tag)
    requires
        t.quot_var.spec_type == o.quot_var.spec_type,
    ensures
        with_unknown_filled(t, o) == with_specified(o, t),
{
}

/// Setting the parts a tag gives twice is setting them once.
pub proof fn law_set_specified_idempotent(t: Tag, o: Tag)
    ensures
        with_specified(with_specified(t, o), o) == with_specified(t, o),
{
}

impl Tag {
    /// A tag of the spec `spec_type` with no quotient, variable or flow.
    pub fn new_unspecified(spec_type: SpecType) -> (res: Self)
        ensures
            res.quot is None,
            res.quot_var.spec_type == spec_type,
            res.quot_var.spec_var is None,
            res.flow is None,
    {
        Tag { quot: None, quot_var: QuotientReference { spec_type, spec_var: None }, flow: None }
    }

    /// Copies every part of `other` that is given into `self`.
    pub fn set_specified_info(&mut self, other: Self)
        ensures
            *final(self) == with_specified(*old(self), other),
    {
        if other.quot.is_some() {
            self.quot = other.quot;
        }
        if other.quot_var.spec_var.is_some() {
            self.quot_var.spec_var = other.quot_var.spec_var;
        }
        if other.flow.is_some() {
            self.flow = other.flow;
        }
    }

    /// Fills every part of `self` that is missing from `other`.
    pub fn override_unknown_info(&mut self, other: Self)
        ensures
            *final(self) == with_unknown_filled(*old(self), other),
    {
        if self.quot.is_none() {
            self.quot = other.quot;
        }
        if self.quot_var.spec_var.is_none() {
            self.quot_var.spec_var = other.quot_var.spec_var;
        }
        if self.flow.is_none() {
            self.flow = other.flow;
        }
    }

    /// Whether two tags are equal.
    pub fn same_as(&self, other: &Self) -> (res: bool)
        ensures
            res == same_tag(*self, *other),
    {
        let quot_eq = match (self.quot, other.quot) {
            (Some(a), Some(b)) => a == b,
            (None, None) => true,
            _ => false,
        };
        let var_eq = match (&self.quot_var.spec_var, &other.quot_var.spec_var) {
            (Some(a), Some(b)) => *a == *b,
            (None, None) => true,
            _ => false,
        };
        let flow_eq = match (self.flow, other.flow) {
            (Some(a), Some(b)) => a == b,
            (None, None) => true,
            _ => false,
        };
        quot_eq && self.quot_var.spec_type == other.quot_var.spec_type && var_eq && flow_eq
    }
}

/// A base type with optional WGPU flags and settings (`i64<storage, map_write, alignment_bits=8>`).
#[derive(Debug)]
pub struct FlaggedType {
    pub info: Info,
    pub base: DataType,
    /// WGPU flags, can be empty.
    pub flags: Vec<String>,
    /// WGPU settings (flags with values, such as `alignment_bits`), can be empty.
    pub settings: Vec<(String, String)>,
}

/// A full scheduling type: a flagged base type and tags.
#[derive(Debug)]
pub struct FullType {
    pub base: Option<FlaggedType>,
    pub tags: Vec<Tag>,
}

/// The arguments of a call, or its encoded statement.
#[derive(Debug)]
pub enum ArgsOrEnc {
    Args(Vec<SchedExpr>),
    Encode(EncodedStmt),
}

impl ArgsOrEnc {
    /// Whether these are plain arguments.
    pub fn is_args(&self) -> (res: bool)
        ensures
            res == (self is Args),
    {
        match self {
            ArgsOrEnc::Args(_) => true,
            ArgsOrEnc::Encode(_) => false,
        }
    }
}

/// Template arguments: a list of expressions or a type.
#[derive(Debug)]
pub enum TemplateArgs {
    Vals(Vec<SpecExpr>),
    Type(FlaggedType),
}

/// A list of tags.
pub type Tags = Vec<Tag>;

/// A call in the scheduling language, with arguments or an encoded statement.
#[derive(Debug)]
pub struct SchedFuncCall {
    pub target: Box<SchedExpr>,
    pub templates: Option<TemplateArgs>,
    pub args: Box<ArgsOrEnc>,
    pub tag: Option<Tags>,
    pub yield_call: bool,
}

/// A borrowed view of a call with plain arguments.
#[derive(Debug)]
pub struct SchedLocalCall<'a> {
    pub target: &'a SchedExpr,
    pub templates: &'a Option<TemplateArgs>,
    pub args: &'a [SchedExpr],
    pub tag: &'a Option<Tags>,
    pub yield_call: bool,
}

impl SchedFuncCall {
    /// The call as a local call; it must have plain arguments.
    pub fn unwrap_local_call(&self) -> (res: SchedLocalCall<'_>)
        requires
            *self.args is Args,
        ensures
            *res.target == *self.target,
            *res.templates == self.templates,
            res.args@ == (*self.args)->Args_0@,
            *res.tag == self.tag,
            res.yield_call == self.yield_call,
    {
        match &*self.args {
            ArgsOrEnc::Args(args) => SchedLocalCall {
                target: &*self.target,
                templates: &self.templates,
                args: args.as_slice(),
                tag: &self.tag,
                yield_call: self.yield_call,
            },
            ArgsOrEnc::Encode(..) => {
                proof {
                    assert(false);
                }
                SchedLocalCall {
                    target: &*self.target,
                    templates: &self.templates,
                    args: &[],
                    tag: &self.tag,
                    yield_call: self.yield_call,
                }
            },
        }
    }
}

/// A term of a scheduling expression.
#[derive(Debug)]
pub enum SchedTerm {
    Lit { info: Info, lit: SchedLiteral, tag: Option<Tags> },
    Var { info: Info, name: Name, tag: Option<Tags> },
    Call(Info, SchedFuncCall),
    Hole(Info),
}

/// The tags of a scheduling term.
pub open spec fn term_tags(t: SchedTerm) -> Option<Tags> {
    match t {
        SchedTerm::Lit { tag, .. } => tag,
        SchedTerm::Var { tag, .. } => tag,
        SchedTerm::Call(_, call) => call.tag,
        SchedTerm::Hole(_) => None,
    }
}

impl SchedTerm {
    /// The tags of the term, if it has any.
    pub fn get_tags(&self) -> (res: Option<&Tags>)
        ensures
            res matches Some(t) ==> term_tags(*self) == Some(*t),
            res is None ==> term_tags(*self) is None,
    {
        match self {
            SchedTerm::Lit { tag, .. } => tag.as_ref(),
            SchedTerm::Var { tag, .. } => tag.as_ref(),
            SchedTerm::Call(_, call) => call.tag.as_ref(),
            SchedTerm::Hole(_) => None,
        }
    }
}

/// An expression of the scheduling language.
pub type SchedExpr = NestedExpr<SchedTerm>;

/// An encoded statement of the scheduling language (`x <- y` in `e.encode_copy[x <- y]`).
#[derive(Debug)]
pub enum EncodedStmt {
    Move { info: Info, lhs: Vec<(Name, Option<FlaggedType>)>, rhs: SchedExpr },
}

/// A statement of the scheduling language.
#[derive(Debug)]
pub enum SchedStmt {
    Decl { info: Info, lhs: Vec<(Name, Option<FullType>)>, is_const: bool, expr: Option<SchedExpr> },
    Assign {
        info: Info,
        lhs: SchedExpr,
        rhs: SchedExpr,
        /// whether the left side is a reference (`*x = y`)
        lhs_is_ref: bool,
    },
    If {
        info: Info,
        guard: SchedExpr,
        tag: Option<Tags>,
        true_block: Vec<SchedStmt>,
        false_block: Vec<SchedStmt>,
    },
    InEdgeAnnotation { info: Info, tags: Vec<Arg<Tags>> },
    OutEdgeAnnotation { info: Info, tags: Vec<Arg<Tags>> },
    Block(Info, Vec<SchedStmt>),
    Return(Info, SchedExpr),
    Hole(Info),
    Call(Info, SchedFuncCall),
    Sequence { info: Info, dests: Vec<(Name, Option<FullType>)>, block: Box<SchedStmt>, is_const: bool },
}

/// The source location of a scheduling statement.
pub open spec fn stmt_info(s: SchedStmt) -> Info {
    match s {
        SchedStmt::Decl { info, .. } => info,
        SchedStmt::Assign { info, .. } => info,
        SchedStmt::If { info, .. } => info,
        SchedStmt::InEdgeAnnotation { info, .. } => info,
        SchedStmt::OutEdgeAnnotation { info, .. } => info,
        SchedStmt::Block(info, _) => info,
        SchedStmt::Return(info, _) => info,
        SchedStmt::Hole(info) => info,
        SchedStmt::Call(info, _) => info,
        SchedStmt::Sequence { info, .. } => info,
    }
}

impl SchedStmt {
    /// The source location of this statement.
    pub fn get_info(&self) -> (res: &Info)
        ensures
            *res == stmt_info(*self),
    {
        match self {
            SchedStmt::Decl { info, .. } => info,
            SchedStmt::Assign { info, .. } => info,
            SchedStmt::If { info, .. } => info,
            SchedStmt::InEdgeAnnotation { info, .. } => info,
            SchedStmt::OutEdgeAnnotation { info, .. } => info,
            SchedStmt::Block(info, _) => info,
            SchedStmt::Return(info, _) => info,
            SchedStmt::Hole(info) => info,
            SchedStmt::Call(info, _) => info,
            SchedStmt::Sequence { info, .. } => info,
        }
    }
}

/// A scheduling function.
#[derive(Debug)]
pub struct SchedulingFunc {
    pub info: Info,
    pub name: String,
    pub input: Vec<MaybeArg<FullType>>,
    pub output: Vec<FullType>,
    pub specs: Vec<String>,
    pub statements: Vec<SchedStmt>,
}

/// The input or output binding of a resource of an extern function.
#[derive(Clone, Debug)]
pub enum InputOrOutputVal {
    Input(Name),
    Output(Name),
}

/// A resource used by an extern function.
#[derive(Clone, Debug)]
pub struct ExternResource {
    pub binding: usize,
    pub group: usize,
    pub caiman_val: InputOrOutputVal,
}

/// A member of an extern function's resource, in any order.
pub enum ResourceMembers {
    Numeric(String, String),
    Input(Name),
    Output(Name),
}

/// The text of a resource member (`name: value`, `input: x`, `output: x`).
pub open spec fn resource_member_text(m: ResourceMembers) -> Seq<char> {
    match m {
        ResourceMembers::Numeric(name, val) => name@ + ": "@ + val@,
        ResourceMembers::Input(val) => "input: "@ + val@,
        ResourceMembers::Output(val) => "output: "@ + val@,
    }
}

impl ResourceMembers {
    /// The text of the member (what `Display` prints).
    pub fn to_text(&self) -> (res: String)
        ensures
            res@ == resource_member_text(*self),
    {
        match self {
            ResourceMembers::Numeric(name, val) => {
                let mut s = name.clone();
                s.append(": ");
                s.append(val.as_str());
                s
            },
            ResourceMembers::Input(val) => {
                let mut s = text_of("input: ");
                s.append(val.as_str());
                s
            },
            ResourceMembers::Output(val) => {
                let mut s = text_of("output: ");
                s.append(val.as_str());
                s
            },
        }
    }
}

/// The definition of an extern function: shader path, entry point, dimensions
/// and resources.
#[derive(Clone, Debug)]
pub struct ExternDef {
    pub path: String,
    pub entry: String,
    pub dimensions: usize,
    pub resources: Vec<ExternResource>,
}

/// A member of an extern definition, in any order.
pub enum ExternDefMembers {
    StrVal(String, String),
    Dimensions(String, String),
    Resource(ExternResource),
}

/// The text of an extern definition member (`name: value`; nothing for a resource).
pub open spec fn extern_member_text(m: ExternDefMembers) -> Seq<char> {
    match m {
        ExternDefMembers::StrVal(name, val) => name@ + ": "@ + val@,
        ExternDefMembers::Dimensions(name, val) => name@ + ": "@ + val@,
        ExternDefMembers::Resource(_) => Seq::empty(),
    }
}

impl ExternDefMembers {
    /// The text of the member (what `Display` prints).
    pub fn to_text(&self) -> (res: String)
        ensures
            res@ == extern_member_text(*self),
    {
        match self {
            ExternDefMembers::StrVal(name, val) | ExternDefMembers::Dimensions(name, val) => {
                let mut s = name.clone();
                s.append(": ");
                s.append(val.as_str());
                s
            },
            ExternDefMembers::Resource(_) => String::new(),
        }
    }
}

/// A member of a function class: a value funclet or an extern function.
#[derive(Debug)]
pub enum ClassMembers {
    ValueFunclet {
        info: Info,
        name: String,
        input: Vec<Arg<DataType>>,
        output: Vec<(Option<String>, DataType)>,
        statements: Vec<SpecStmt>,
    },
    Extern {
        info: Info,
        name: String,
        device: String,
        pure: bool,
        input: Vec<(Option<String>, DataType)>,
        output: Vec<(Option<String>, DataType)>,
        def: Option<ExternDef>,
    },
}

/// The name of a class member.
pub open spec fn member_name(m: ClassMembers) -> String {
    match m {
        ClassMembers::ValueFunclet { name, .. } => name,
        ClassMembers::Extern { name, .. } => name,
    }
}

/// The source location of a class member.
pub open spec fn member_info(m: ClassMembers) -> Info {
    match m {
        ClassMembers::ValueFunclet { info, .. } => info,
        ClassMembers::Extern { info, .. } => info,
    }
}

/// `res` holds copies of the types of the (possibly named) values `s`, in order.
pub open spec fn copies_of_types<K>(s: Seq<(K, DataType)>, res: Seq<DataType>) -> bool {
    &&& res.len() == s.len()
    &&& forall|i: int| 0 <= i < s.len() ==> same_data_type(#[trigger] s[i].1, res[i])
}

/// Copies the types of a list of (possibly named) values.
fn copy_types<K>(v: &Vec<(K, DataType)>) -> (res: Vec<DataType>)
    ensures
        copies_of_types(v@, res@),
{
    let mut res: Vec<DataType> = Vec::new();
    let mut i: usize = 0;
    while i < v.len()
        invariant
            i <= v@.len(),
            res@.len() == i,
            forall|k: int| 0 <= k < i ==> same_data_type(#[trigger] v@[k].1, res@[k]),
        decreases v@.len() - i,
    {
        res.push(v[i].1.duplicate());
        i += 1;
    }
    res
}

impl ClassMembers {
    /// The name of the function.
    pub fn get_name(&self) -> (res: String)
        ensures
            res@ == member_name(*self)@,
    {
        match self {
            ClassMembers::ValueFunclet { name, .. } => name.clone(),
            ClassMembers::Extern { name, .. } => name.clone(),
        }
    }

    /// The source location of the function.
    pub fn get_info(&self) -> (res: Info)
        ensures
            res == member_info(*self),
    {
        match self {
            ClassMembers::ValueFunclet { info, .. } => *info,
            ClassMembers::Extern { info, .. } => *info,
        }
    }

    /// Copies of the input and output types of the function.
    pub fn get_type_signature(&self) -> (res: (Vec<DataType>, Vec<DataType>))
        ensures
            *self matches ClassMembers::ValueFunclet { input, output, .. } ==> copies_of_types(
                input@,
                res.0@,
            ) && copies_of_types(output@, res.1@),
            *self matches ClassMembers::Extern { input, output, .. } ==> copies_of_types(input@, res.0@)
                && copies_of_types(output@, res.1@),
    {
        match self {
            ClassMembers::ValueFunclet { input, output, .. } => (copy_types(input), copy_types(output)),
            ClassMembers::Extern { input, output, .. } => (copy_types(input), copy_types(output)),
        }
    }
}

/// A top level declaration of the source language.
#[derive(Debug)]
pub enum TopLevel {
    FunctionClass { info: Info, name: String, members: Vec<ClassMembers> },
    TimelineFunclet {
        info: Info,
        name: String,
        input: Vec<Arg<DataType>>,
        output: NamedOutput<DataType>,
        statements: Vec<SpecStmt>,
    },
    SpatialFunclet {
        info: Info,
        name: String,
        input: Vec<Arg<DataType>>,
        output: NamedOutput<DataType>,
        statements: Vec<SpecStmt>,
    },
    SchedulingFunc {
        info: Info,
        name: String,
        input: Vec<MaybeArg<FullType>>,
        output: Vec<FullType>,
        specs: Vec<String>,
        statements: Vec<SchedStmt>,
    },
    Pipeline { info: Info, name: String, entry: String },
    Typedef { info: Info, name: String, typ: FlaggedType },
    Const { info: Info, name: String, expr: SpecExpr },
    Import { info: Info, path: String },
}

/// A program: its top level declarations.
pub type Program = Vec<TopLevel>;

/// Structural equality of data types, with array sizes compared as expressions.
pub open spec fn same_data_type(a: DataType, b: DataType) -> bool
    decreases a,
{
    match a {
        DataType::Array(x, e) => match b {
            DataType::Array(y, f) => same_data_type(*x, *y) && same_spec_expr(*e, *f),
            _ => false,
        },
        DataType::Slice(x) => match b {
            DataType::Slice(y) => same_data_type(*x, *y),
            _ => false,
        },
        DataType::Ref(x) => match b {
            DataType::Ref(y) => same_data_type(*x, *y),
            _ => false,
        },
        DataType::UserDefined(x) => b matches DataType::UserDefined(y) && x@ == y@,
        DataType::Int(x) => b matches DataType::Int(y) && x == y,
        DataType::Float(x) => b matches DataType::Float(y) && x == y,
        DataType::Bool => b is Bool,
        DataType::BufferSpace => b is BufferSpace,
        DataType::Event => b is Event,
    }
}

/// Structural equality of spec expressions.
pub open spec fn same_spec_expr(a: SpecExpr, b: SpecExpr) -> bool
    decreases a,
{
    match a {
        NestedExpr::Binop { info, op, lhs, rhs } => match b {
            NestedExpr::Binop { info: i2, op: o2, lhs: l2, rhs: r2 } => info == i2 && op == o2
                && same_spec_expr(*lhs, *l2) && same_spec_expr(*rhs, *r2),
            _ => false,
        },
        NestedExpr::Uop { info, op, expr } => match b {
            NestedExpr::Uop { info: i2, op: o2, expr: e2 } => info == i2 && op == o2 && same_spec_expr(
                *expr,
                *e2,
            ),
            _ => false,
        },
        NestedExpr::Conditional { info, if_true, guard, if_false } => match b {
            NestedExpr::Conditional { info: i2, if_true: t2, guard: g2, if_false: f2 } => info == i2
                && same_spec_expr(*if_true, *t2) && same_spec_expr(*guard, *g2) && same_spec_expr(
                *if_false,
                *f2,
            ),
            _ => false,
        },
        NestedExpr::Term(t) => match b {
            NestedExpr::Term(t2) => same_spec_term(t, t2),
            _ => false,
        },
    }
}

/// Structural equality of spec terms.
pub open spec fn same_spec_term(a: SpecTerm, b: SpecTerm) -> bool
    decreases a,
{
    match a {
        SpecTerm::Var { info, name } => b matches SpecTerm::Var { info: i2, name: n2 } && info == i2
            && name@ == n2@,
        SpecTerm::Lit { info, lit } => match b {
            SpecTerm::Lit { info: i2, lit: l2 } => info == i2 && same_spec_lit(lit, l2),
            _ => false,
        },
        SpecTerm::Call { info, function, args, template } => match b {
            SpecTerm::Call { info: i2, function: f2, args: a2, template: t2 } => info == i2
                && same_spec_expr(*function, *f2) && same_spec_exprs(args@, a2@) && match template {
                Some(t) => t2 matches Some(u) && same_flagged(t, u),
                None => t2 is None,
            },
            _ => false,
        },
    }
}

/// Structural equality of spec literals.
pub open spec fn same_spec_lit(a: SpecLiteral, b: SpecLiteral) -> bool
    decreases a,
{
    match a {
        SpecLiteral::Int(x) => b matches SpecLiteral::Int(y) && x@ == y@,
        SpecLiteral::Float(x) => b matches SpecLiteral::Float(y) && x@ == y@,
        SpecLiteral::Bool(x) => b matches SpecLiteral::Bool(y) && x == y,
        SpecLiteral::Array(x) => match b {
            SpecLiteral::Array(y) => same_spec_exprs(x@, y@),
            _ => false,
        },
        SpecLiteral::Tuple(x) => match b {
            SpecLiteral::Tuple(y) => same_spec_exprs(x@, y@),
            _ => false,
        },
    }
}

/// Pointwise structural equality of lists of spec expressions.
pub open spec fn same_spec_exprs(a: Seq<SpecExpr>, b: Seq<SpecExpr>) -> bool
    decreases a,
{
    a.len() == b.len() && forall|i: int| 0 <= i < a.len() ==> same_spec_expr(#[trigger] a[i], b[i])
}

/// Structural equality of flagged types.
pub open spec fn same_flagged(a: FlaggedType, b: FlaggedType) -> bool
    decreases a,
{
    &&& a.info == b.info
    &&& same_data_type(a.base, b.base)
    &&& a.flags@.len() == b.flags@.len()
    &&& forall|i: int| 0 <= i < a.flags@.len() ==> #[trigger] a.flags@[i]@ == b.flags@[i]@
    &&& a.settings@.len() == b.settings@.len()
    &&& forall|i: int|
        0 <= i < a.settings@.len() ==> #[trigger] a.settings@[i].0@ == b.settings@[i].0@
            && a.settings@[i].1@ == b.settings@[i].1@
}

impl DataType {
    /// A structurally equal copy of the type.
    pub fn duplicate(&self) -> (res: Self)
        ensures
            same_data_type(*self, res),
        decreases self,
    {
        match self {
            DataType::Int(x) => DataType::Int(*x),
            DataType::Float(x) => DataType::Float(*x),
            DataType::Bool => DataType::Bool,
            DataType::BufferSpace => DataType::BufferSpace,
            DataType::Event => DataType::Event,
            DataType::Array(x, e) => DataType::Array(
                Box::new((&**x).duplicate()),
                Box::new(dup_spec_expr(&**e)),
            ),
            DataType::Slice(x) => DataType::Slice(Box::new((&**x).duplicate())),
            DataType::UserDefined(name) => DataType::UserDefined(name.clone()),
            DataType::Ref(x) => DataType::Ref(Box::new((&**x).duplicate())),
        }
    }
}

/// A structurally equal copy of a spec expression.
pub fn dup_spec_expr(e: &SpecExpr) -> (res: SpecExpr)
    ensures
        same_spec_expr(*e, res),
    decreases e,
{
    match e {
        NestedExpr::Binop { info, op, lhs, rhs } => NestedExpr::Binop {
            info: *info,
            op: *op,
            lhs: Box::new(dup_spec_expr(&**lhs)),
            rhs: Box::new(dup_spec_expr(&**rhs)),
        },
        NestedExpr::Uop { info, op, expr } => NestedExpr::Uop {
            info: *info,
            op: *op,
            expr: Box::new(dup_spec_expr(&**expr)),
        },
        NestedExpr::Conditional { info, if_true, guard, if_false } => NestedExpr::Conditional {
            info: *info,
            if_true: Box::new(dup_spec_expr(&**if_true)),
            guard: Box::new(dup_spec_expr(&**guard)),
            if_false: Box::new(dup_spec_expr(&**if_false)),
        },
        NestedExpr::Term(t) => NestedExpr::Term(dup_spec_term(t)),
    }
}

/// A structurally equal copy of a spec term.
pub fn dup_spec_term(t: &SpecTerm) -> (res: SpecTerm)
    ensures
        same_spec_term(*t, res),
    decreases t,
{
    match t {
        SpecTerm::Var { info, name } => SpecTerm::Var { info: *info, name: name.clone() },
        SpecTerm::Lit { info, lit } => SpecTerm::Lit { info: *info, lit: dup_spec_lit(lit) },
        SpecTerm::Call { info, function, args, template } => {
            let f = dup_spec_expr(&**function);
            let a = dup_spec_exprs(args);
            let tp = match template {
                Some(ft) => Some(dup_flagged(ft)),
                None => None,
            };
            SpecTerm::Call { info: *info, function: Box::new(f), args: a, template: tp }
        },
    }
}

/// A structurally equal copy of a spec literal.
pub fn dup_spec_lit(l: &SpecLiteral) -> (res: SpecLiteral)
    ensures
        same_spec_lit(*l, res),
    decreases l,
{
    match l {
        SpecLiteral::Int(x) => SpecLiteral::Int(x.clone()),
        SpecLiteral::Float(x) => SpecLiteral::Float(x.clone()),
        SpecLiteral::Bool(x) => SpecLiteral::Bool(*x),
        SpecLiteral::Array(x) => SpecLiteral::Array(dup_spec_exprs(x)),
        SpecLiteral::Tuple(x) => SpecLiteral::Tuple(dup_spec_exprs(x)),
    }
}

/// Structurally equal copies of a list of spec expressions.
pub fn dup_spec_exprs(v: &Vec<SpecExpr>) -> (res: Vec<SpecExpr>)
    ensures
        same_spec_exprs(v@, res@),
    decreases v,
{
    let mut res: Vec<SpecExpr> = Vec::new();
    let mut i: usize = 0;
    while i < v.len()
        invariant
            i <= v@.len(),
            res@.len() == i,
            forall|k: int| 0 <= k < i ==> same_spec_expr(#[trigger] v@[k], res@[k]),
        decreases v@.len() - i,
    {
        proof {
            assert(decreases_to!(v => v@[i as int]));
        }
        res.push(dup_spec_expr(&v[i]));
        i += 1;
    }
    res
}

/// A structurally equal copy of a flagged type.
pub fn dup_flagged(t: &FlaggedType) -> (res: FlaggedType)
    ensures
        same_flagged(*t, res),
    decreases t,
{
    let base = t.base.duplicate();
    let mut flags: Vec<String> = Vec::new();
    let mut i: usize = 0;
    while i < t.flags.len()
        invariant
            i <= t.flags@.len(),
            flags@.len() == i,
            forall|k: int| 0 <= k < i ==> #[trigger] flags@[k]@ == t.flags@[k]@,
        decreases t.flags@.len() - i,
    {
        flags.push(t.flags[i].clone());
        i += 1;
    }
    let mut settings: Vec<(String, String)> = Vec::new();
    let mut i: usize = 0;
    while i < t.settings.len()
        invariant
            i <= t.settings@.len(),
            settings@.len() == i,
            forall|k: int|
                0 <= k < i ==> #[trigger] settings@[k].0@ == t.settings@[k].0@ && settings@[k].1@
                    == t.settings@[k].1@,
        decreases t.settings@.len() - i,
    {
        let (a, b) = &t.settings[i];
        settings.push((a.clone(), b.clone()));
        i += 1;
    }
    FlaggedType { info: t.info, base, flags, settings }
}

/// Structural equality of data types is transitive.
pub proof fn lemma_same_data_type_trans(a: DataType, b: DataType, c: DataType)
    requires
        same_data_type(a, b),
        same_data_type(b, c),
    ensures
        same_data_type(a, c),
    decreases a,
{
    match a {
        DataType::Array(x, e) => {
            lemma_same_data_type_trans(*x, *b->Array_0, *c->Array_0);
            lemma_same_spec_expr_trans(*e, *b->Array_1, *c->Array_1);
        },
        DataType::Slice(x) => {
            lemma_same_data_type_trans(*x, *b->Slice_0, *c->Slice_0);
        },
        DataType::Ref(x) => {
            lemma_same_data_type_trans(*x, *b->Ref_0, *c->Ref_0);
        },
        _ => {},
    }
}

/// Structural equality of spec expressions is transitive.
pub proof fn lemma_same_spec_expr_trans(a: SpecExpr, b: SpecExpr, c: SpecExpr)
    requires
        same_spec_expr(a, b),
        same_spec_expr(b, c),
    ensures
        same_spec_expr(a, c),
    decreases a,
{
    match a {
        NestedExpr::Binop { lhs, rhs, .. } => {
            lemma_same_spec_expr_trans(*lhs, *b->Binop_lhs, *c->Binop_lhs);
            lemma_same_spec_expr_trans(*rhs, *b->Binop_rhs, *c->Binop_rhs);
        },
        NestedExpr::Uop { expr, .. } => {
            lemma_same_spec_expr_trans(*expr, *b->Uop_expr, *c->Uop_expr);
        },
        NestedExpr::Conditional { if_true, guard, if_false, .. } => {
            lemma_same_spec_expr_trans(*if_true, *b->Conditional_if_true, *c->Conditional_if_true);
            lemma_same_spec_expr_trans(*guard, *b->Conditional_guard, *c->Conditional_guard);
            lemma_same_spec_expr_trans(*if_false, *b->Conditional_if_false, *c->Conditional_if_false);
        },
        NestedExpr::Term(t) => {
            lemma_same_spec_term_trans(t, b->Term_0, c->Term_0);
        },
    }
}

/// Structural equality of spec terms is transitive.
pub proof fn lemma_same_spec_term_trans(a: SpecTerm, b: SpecTerm, c: SpecTerm)
    requires
        same_spec_term(a, b),
        same_spec_term(b, c),
    ensures
        same_spec_term(a, c),
    decreases a,
{
    match a {
        SpecTerm::Lit { lit, .. } => {
            lemma_same_spec_lit_trans(lit, b->Lit_lit, c->Lit_lit);
        },
        SpecTerm::Call { function, args, template, .. } => {
            lemma_same_spec_expr_trans(*function, *b->Call_function, *c->Call_function);
            lemma_same_spec_exprs_trans(args@, b->Call_args@, c->Call_args@);
            if let Some(t) = template {
                lemma_same_flagged_trans(t, b->Call_template->Some_0, c->Call_template->Some_0);
            }
        },
        _ => {},
    }
}

/// Structural equality of spec literals is transitive.
pub proof fn lemma_same_spec_lit_trans(a: SpecLiteral, b: SpecLiteral, c: SpecLiteral)
    requires
        same_spec_lit(a, b),
        same_spec_lit(b, c),
    ensures
        same_spec_lit(a, c),
    decreases a,
{
    match a {
        SpecLiteral::Array(x) => {
            lemma_same_spec_exprs_trans(x@, b->Array_0@, c->Array_0@);
        },
        SpecLiteral::Tuple(x) => {
            lemma_same_spec_exprs_trans(x@, b->Tuple_0@, c->Tuple_0@);
        },
        _ => {},
    }
}

/// Pointwise structural equality of lists of spec expressions is transitive.
pub proof fn lemma_same_spec_exprs_trans(a: Seq<SpecExpr>, b: Seq<SpecExpr>, c: Seq<SpecExpr>)
    requires
        same_spec_exprs(a, b),
        same_spec_exprs(b, c),
    ensures
        same_spec_exprs(a, c),
    decreases a,
{
    assert forall|i: int| 0 <= i < a.len() implies same_spec_expr(#[trigger] a[i], c[i]) by {
        lemma_same_spec_expr_trans(a[i], b[i], c[i]);
    }
}

/// Structural equality of flagged types is transitive.
pub proof fn lemma_same_flagged_trans(a: FlaggedType, b: FlaggedType, c: FlaggedType)
    requires
        same_flagged(a, b),
        same_flagged(b, c),
    ensures
        same_flagged(a, c),
    decreases a,
{
    lemma_same_data_type_trans(a.base, b.base, c.base);
}

} // verus!
