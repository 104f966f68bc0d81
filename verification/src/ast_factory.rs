//! Builds AST nodes for the parser: converts byte offsets into line and column
//! numbers, and checks what the grammar alone cannot.
use vstd::prelude::*;
use vstd::string::StringSliceAdditionalSpecFns;

use crate::ast::{
    ArgsOrEnc, Binop, ClassMembers, DataType, EncodedStmt, ExternDef, ExternDefMembers, ExternResource,
    FlaggedType, Flow, FullType, InputOrOutputVal, MaybeArg, Name, NamedOutput, NestedExpr, Program,
    Quotient, QuotientReference, ResourceMembers, SchedExpr, SchedFuncCall, SchedLiteral, SchedStmt,
    SchedTerm, SpecExpr, SpecLiteral, SpecStmt, SpecTerm, Tag, Tags, TemplateArgs, TopLevel, Uop, Arg,
    same_data_type, dup_spec_expr, member_info, member_name, lemma_same_data_type_trans,
};
use crate::error::{info_text, CustomParsingError, Info};
use crate::text::{int_error_message, int_error_text, parse_usize, spec_parse_usize, text_of};
use crate::ast::{resource_member_text, extern_member_text};

verus! {

/// The offsets of the newline bytes of `b`, in order.
pub open spec fn newline_offsets(b: Seq<u8>) -> Seq<usize>
    decreases b.len(),
{
    if b.len() == 0 {
        seq![]
    } else if b.last() == 10u8 {
        newline_offsets(b.drop_last()).push((b.len() - 1) as usize)
    } else {
        newline_offsets(b.drop_last())
    }
}

/// The offsets at which the lines of `b` end: its newlines, then its end.
pub open spec fn line_end_offsets(b: Seq<u8>) -> Seq<usize> {
    newline_offsets(b).push(b.len() as usize)
}

/// The (line, column) of byte offset `u`, given the offsets that end the lines:
/// past the last line end below `u`, the column counts from that line end; on the
/// first line it is `u` itself.
pub open spec fn line_col(ends: Seq<usize>, u: int) -> (int, int)
    decreases ends.len(),
{
    if ends.len() == 0 {
        (1, u)
    } else if u > ends.last() {
        (ends.len() + 1int, u - ends.last())
    } else {
        line_col(ends.drop_last(), u)
    }
}

/// The type most recently defined under `name` in the list of definitions `defs`.
pub open spec fn latest_type(defs: Seq<(String, DataType)>, name: Seq<char>) -> Option<DataType>
    decreases defs.len(),
{
    if defs.len() == 0 {
        None
    } else if defs.last().0@ == name {
        Some(defs.last().1)
    } else {
        latest_type(defs.drop_last(), name)
    }
}

/// There are no more newlines than bytes.
proof fn lemma_newline_count(b: Seq<u8>)
    ensures
        newline_offsets(b).len() <= b.len(),
    decreases b.len(),
{
    if b.len() > 0 {
        lemma_newline_count(b.drop_last());
    }
}

/// Builds AST nodes, converting the byte offsets the parser gives into line and
/// column numbers; also keeps the types defined so far.
pub struct ASTFactory {
    line_ending_byte_offsets: Vec<usize>,
    type_map: Vec<(String, DataType)>,
}

impl ASTFactory {
    /// The offsets at which the lines of the source end.
    pub closed spec fn line_ends(&self) -> Seq<usize> {
        self.line_ending_byte_offsets@
    }

    /// The type definitions seen so far, oldest first.
    pub closed spec fn type_defs(&self) -> Seq<(String, DataType)> {
        self.type_map@
    }

    /// The line ends are known and their count fits below `usize::MAX`.
    pub closed spec fn wf(&self) -> bool {
        0 < self.line_ending_byte_offsets@.len() < usize::MAX
    }

    /// The last byte offset that has a line and column.
    pub open spec fn last_offset(&self) -> int {
        self.line_ends().last() as int
    }

    /// Both offsets have a line and column.
    pub open spec fn in_range(&self, l: usize, r: usize) -> bool {
        self.wf() && l <= self.last_offset() && r <= self.last_offset()
    }

    /// The line and column of byte offset `u`.
    pub open spec fn spec_line_col(&self, u: usize) -> (usize, usize) {
        let lc = line_col(self.line_ends(), u as int);
        (lc.0 as usize, lc.1 as usize)
    }

    /// The source range from byte offset `l` to byte offset `r`.
    pub open spec fn spec_info(&self, l: usize, r: usize) -> Info {
        Info { start_ln_and_col: self.spec_line_col(l), end_ln_and_col: self.spec_line_col(r) }
    }

    /// A factory for the source text `s`, with no types defined yet.
    pub fn new(_filename: &str, s: &str) -> (res: Self)
        requires
            s.spec_bytes().len() + 1 < usize::MAX,
        ensures
            res.wf(),
            res.line_ends() == line_end_offsets(s.spec_bytes()),
            res.type_defs() == Seq::<(String, DataType)>::empty(),
    {
        let bytes = s.as_bytes();
        let ghost b = s.spec_bytes();
        let mut offsets: Vec<usize> = Vec::new();
        let mut i: usize = 0;
        while i < bytes.len()
            invariant
                bytes@ == b,
                i <= b.len(),
                offsets@ == newline_offsets(b.take(i as int)),
            decreases b.len() - i,
        {
            assert(b.take(i + 1).drop_last() =~= b.take(i as int));
            if bytes[i] == 10u8 {
                offsets.push(i);
            }
            i += 1;
        }
        assert(b.take(i as int) =~= b);
        proof {
            lemma_newline_count(b);
        }
        offsets.push(bytes.len());
        ASTFactory { line_ending_byte_offsets: offsets, type_map: Vec::new() }
    }

    /// The line and column of byte offset `u`; `u` may not lie past the end.
    pub fn line_and_column(&self, u: usize) -> (res: (usize, usize))
        requires
            self.wf(),
            u <= self.last_offset(),
        ensures
            (res.0 as int, res.1 as int) == line_col(self.line_ends(), u as int),
            res == self.spec_line_col(u),
    {
        let ends = &self.line_ending_byte_offsets;
        let mut cur: (usize, usize) = (1, u);
        let mut i: usize = 0;
        while i < ends.len()
            invariant
                ends@ == self.line_ends(),
                0 < ends@.len() < usize::MAX,
                i <= ends@.len(),
                (cur.0 as int, cur.1 as int) == line_col(ends@.take(i as int), u as int),
            decreases ends@.len() - i,
        {
            assert(ends@.take(i + 1).drop_last() =~= ends@.take(i as int));
            let c = ends[i];
            if u > c {
                cur = (i + 2, u - c);
            }
            i += 1;
        }
        assert(ends@.take(i as int) =~= ends@);
        cur
    }

    /// The source range from byte offset `l` to byte offset `r`.
    pub fn info(&self, l: usize, r: usize) -> (res: Info)
        requires
            self.in_range(l, r),
        ensures
            res == self.spec_info(l, r),
    {
        Info { start_ln_and_col: self.line_and_column(l), end_ln_and_col: self.line_and_column(r) }
    }
}

impl ASTFactory {
    /// A tag with the quotient `quot`.
    pub fn tag(quot: Quotient, quot_var: QuotientReference, flow: Option<Option<Flow>>) -> (res: Tag)
        ensures
            res.quot == Some(quot),
            res.quot_var == quot_var,
            res.flow == (match flow {
                Some(f) => f,
                None => None,
            }),
    {
        let f = match flow {
            Some(f) => f,
            None => None,
        };
        Tag { quot: Some(quot), quot_var, flow: f }
    }

    /// A tag without a quotient.
    pub fn flow_tag(quot_var: QuotientReference, flow: Option<Flow>) -> (res: Tag)
        ensures
            res.quot is None,
            res.quot_var == quot_var,
            res.flow == flow,
    {
        Tag { quot: None, quot_var, flow }
    }

    /// An import of `path`.
    pub fn import(&self, l: usize, path: String, r: usize) -> (res: TopLevel)
        requires
            self.in_range(l, r),
        ensures
            res == (TopLevel::Import { info: self.spec_info(l, r), path }),
    {
        TopLevel::Import { info: self.info(l, r), path }
    }

    /// The binary operation `lhs op rhs`.
    pub fn binop<T>(&self, l: usize, lhs: NestedExpr<T>, op: Binop, rhs: NestedExpr<T>, r: usize) -> (res:
        NestedExpr<T>)
        requires
            self.in_range(l, r),
        ensures
            res == (NestedExpr::Binop { info: self.spec_info(l, r), op, lhs: Box::new(lhs), rhs: Box::new(rhs) }),
    {
        NestedExpr::Binop { info: self.info(l, r), op, lhs: Box::new(lhs), rhs: Box::new(rhs) }
    }

    /// The range `lhs..rhs`.
    pub fn range<T>(&self, l: usize, lhs: NestedExpr<T>, rhs: NestedExpr<T>, r: usize) -> (res: NestedExpr<T>)
        requires
            self.in_range(l, r),
        ensures
            res == (NestedExpr::Binop {
                info: self.spec_info(l, r),
                op: Binop::Range,
                lhs: Box::new(lhs),
                rhs: Box::new(rhs),
            }),
    {
        NestedExpr::Binop { info: self.info(l, r), op: Binop::Range, lhs: Box::new(lhs), rhs: Box::new(rhs) }
    }

    /// The unary operation `op expr`.
    pub fn uop<T>(&self, l: usize, op: Uop, expr: NestedExpr<T>, r: usize) -> (res: NestedExpr<T>)
        requires
            self.in_range(l, r),
        ensures
            res == (NestedExpr::Uop { info: self.spec_info(l, r), op, expr: Box::new(expr) }),
    {
        NestedExpr::Uop { info: self.info(l, r), op, expr: Box::new(expr) }
    }

    /// The conditional `if_true if guard else if_false`.
    pub fn conditional<T>(
        &self,
        l: usize,
        if_true: NestedExpr<T>,
        guard: NestedExpr<T>,
        if_false: NestedExpr<T>,
        r: usize,
    ) -> (res: NestedExpr<T>)
        requires
            self.in_range(l, r),
        ensures
            res == (NestedExpr::Conditional {
                info: self.spec_info(l, r),
                if_true: Box::new(if_true),
                guard: Box::new(guard),
                if_false: Box::new(if_false),
            }),
    {
        NestedExpr::Conditional {
            info: self.info(l, r),
            if_true: Box::new(if_true),
            guard: Box::new(guard),
            if_false: Box::new(if_false),
        }
    }

    /// A literal of the spec language.
    pub fn spec_lit(&self, l: usize, lit: SpecLiteral, r: usize) -> (res: SpecTerm)
        requires
            self.in_range(l, r),
        ensures
            res == (SpecTerm::Lit { info: self.spec_info(l, r), lit }),
    {
        SpecTerm::Lit { info: self.info(l, r), lit }
    }

    /// A variable of the spec language.
    pub fn spec_var(&self, l: usize, name: Name, r: usize) -> (res: SpecTerm)
        requires
            self.in_range(l, r),
        ensures
            res == (SpecTerm::Var { info: self.spec_info(l, r), name }),
    {
        SpecTerm::Var { info: self.info(l, r), name }
    }

    /// An annotation of the tags on entry.
    pub fn sched_in_annotation(&self, l: usize, tags: Vec<Arg<Tags>>, r: usize) -> (res: SchedStmt)
        requires
            self.in_range(l, r),
        ensures
            res == (SchedStmt::InEdgeAnnotation { info: self.spec_info(l, r), tags }),
    {
        SchedStmt::InEdgeAnnotation { info: self.info(l, r), tags }
    }

    /// An annotation of the tags on exit.
    pub fn sched_out_annotation(&self, l: usize, tags: Vec<Arg<Tags>>, r: usize) -> (res: SchedStmt)
        requires
            self.in_range(l, r),
        ensures
            res == (SchedStmt::OutEdgeAnnotation { info: self.spec_info(l, r), tags }),
    {
        SchedStmt::OutEdgeAnnotation { info: self.info(l, r), tags }
    }

    /// The assignment `lhs = rhs`.
    pub fn sched_assign(&self, l: usize, lhs: SchedExpr, rhs: SchedExpr, r: usize) -> (res: SchedStmt)
        requires
            self.in_range(l, r),
        ensures
            res == (SchedStmt::Assign { info: self.spec_info(l, r), lhs, rhs, lhs_is_ref: false }),
    {
        SchedStmt::Assign { info: self.info(l, r), lhs, rhs, lhs_is_ref: false }
    }

    /// The assignment through a reference `*lhs = rhs`.
    pub fn sched_ref_assign(&self, l: usize, lhs: SchedExpr, rhs: SchedExpr, r: usize) -> (res: SchedStmt)
        requires
            self.in_range(l, r),
        ensures
            res == (SchedStmt::Assign { info: self.spec_info(l, r), lhs, rhs, lhs_is_ref: true }),
    {
        SchedStmt::Assign { info: self.info(l, r), lhs, rhs, lhs_is_ref: true }
    }

    /// A return of `e`.
    pub fn sched_return(&self, l: usize, e: SchedExpr, r: usize) -> (res: SchedStmt)
        requires
            self.in_range(l, r),
        ensures
            res == SchedStmt::Return(self.spec_info(l, r), e),
    {
        SchedStmt::Return(self.info(l, r), e)
    }

    /// A hole statement.
    pub fn sched_hole_stmt(&self, l: usize, r: usize) -> (res: SchedStmt)
        requires
            self.in_range(l, r),
        ensures
            res == SchedStmt::Hole(self.spec_info(l, r)),
    {
        SchedStmt::Hole(self.info(l, r))
    }

    /// A call statement.
    pub fn sched_call_stmt(&self, l: usize, call: SchedFuncCall, r: usize) -> (res: SchedStmt)
        requires
            self.in_range(l, r),
        ensures
            res == SchedStmt::Call(self.spec_info(l, r), call),
    {
        SchedStmt::Call(self.info(l, r), call)
    }

    /// An `if`, with an optional `else` statement.
    pub fn sched_if(
        &self,
        l: usize,
        tags: Option<Tags>,
        guard: SchedExpr,
        true_block: Vec<SchedStmt>,
        false_block: Option<SchedStmt>,
        r: usize,
    ) -> (res: SchedStmt)
        requires
            self.in_range(l, r),
        ensures
            res matches SchedStmt::If { info, guard: g, tag, true_block: t, false_block: f } && info
                == self.spec_info(l, r) && g == guard && tag == tags && t == true_block && f@ == (
            match false_block {
                Some(x) => seq![x],
                None => Seq::<SchedStmt>::empty(),
            }),
    {
        let fb = match false_block {
            Some(x) => vec![x],
            None => Vec::new(),
        };
        SchedStmt::If { info: self.info(l, r), guard, tag: tags, true_block, false_block: fb }
    }

    /// An `if` with an `else` statement.
    pub fn sched_matched_if(
        &self,
        l: usize,
        tags: Option<Tags>,
        guard: SchedExpr,
        true_block: Vec<SchedStmt>,
        false_block: SchedStmt,
        r: usize,
    ) -> (res: SchedStmt)
        requires
            self.in_range(l, r),
        ensures
            res matches SchedStmt::If { info, guard: g, tag, true_block: t, false_block: f } && info
                == self.spec_info(l, r) && g == guard && tag == tags && t == true_block && f@ == seq![
                false_block,
            ],
    {
        SchedStmt::If { info: self.info(l, r), guard, tag: tags, true_block, false_block: vec![false_block] }
    }

    /// A block of statements.
    pub fn sched_block(&self, l: usize, stmts: Vec<SchedStmt>, r: usize) -> (res: SchedStmt)
        requires
            self.in_range(l, r),
        ensures
            res == SchedStmt::Block(self.spec_info(l, r), stmts),
    {
        SchedStmt::Block(self.info(l, r), stmts)
    }

    /// A literal of the scheduling language.
    pub fn sched_lit(&self, l: usize, lit: SchedLiteral, tag: Option<Tags>, r: usize) -> (res: SchedTerm)
        requires
            self.in_range(l, r),
        ensures
            res == (SchedTerm::Lit { info: self.spec_info(l, r), lit, tag }),
    {
        SchedTerm::Lit { info: self.info(l, r), lit, tag }
    }

    /// A variable of the scheduling language.
    pub fn sched_var(&self, l: usize, name: Name, tag: Option<Tags>, r: usize) -> (res: SchedTerm)
        requires
            self.in_range(l, r),
        ensures
            res == (SchedTerm::Var { info: self.spec_info(l, r), name, tag }),
    {
        SchedTerm::Var { info: self.info(l, r), name, tag }
    }

    /// A hole expression.
    pub fn sched_hole_expr(&self, l: usize, r: usize) -> (res: SchedTerm)
        requires
            self.in_range(l, r),
        ensures
            res == SchedTerm::Hole(self.spec_info(l, r)),
    {
        SchedTerm::Hole(self.info(l, r))
    }

    /// A call of `target` with plain arguments.
    pub fn sched_fn_call(
        &self,
        l: usize,
        target: SchedExpr,
        templates: Option<TemplateArgs>,
        args: Vec<SchedExpr>,
        tag: Option<Tags>,
        r: usize,
    ) -> (res: SchedFuncCall)
        requires
            self.in_range(l, r),
        ensures
            res == (SchedFuncCall {
                target: Box::new(target),
                templates,
                args: Box::new(ArgsOrEnc::Args(args)),
                tag,
                yield_call: false,
            }),
    {
        SchedFuncCall {
            target: Box::new(target),
            templates,
            args: Box::new(ArgsOrEnc::Args(args)),
            tag,
            yield_call: false,
        }
    }

    /// A call expression.
    pub fn sched_call_expr(&self, l: usize, call: SchedFuncCall, r: usize) -> (res: SchedTerm)
        requires
            self.in_range(l, r),
        ensures
            res == SchedTerm::Call(self.spec_info(l, r), call),
    {
        SchedTerm::Call(self.info(l, r), call)
    }

    /// A constant declaration `let lhs = rhs`.
    pub fn sched_let_decl(&self, l: usize, lhs: Vec<(String, Option<FullType>)>, rhs: SchedExpr, r: usize) -> (res:
        SchedStmt)
        requires
            self.in_range(l, r),
        ensures
            res == (SchedStmt::Decl { info: self.spec_info(l, r), lhs, is_const: true, expr: Some(rhs) }),
    {
        SchedStmt::Decl { info: self.info(l, r), lhs, is_const: true, expr: Some(rhs) }
    }

    /// A variable declaration `var lhs = rhs`, where the value may be missing.
    pub fn sched_var_decl(
        &self,
        l: usize,
        lhs: Vec<(String, Option<FullType>)>,
        rhs: Option<SchedExpr>,
        r: usize,
    ) -> (res: SchedStmt)
        requires
            self.in_range(l, r),
        ensures
            res == (SchedStmt::Decl { info: self.spec_info(l, r), lhs, is_const: false, expr: rhs }),
    {
        SchedStmt::Decl { info: self.info(l, r), lhs, is_const: false, expr: rhs }
    }

    /// A constant sequence: the values of the statement `rhs` bound to `lhs`.
    pub fn sched_const_seq(&self, l: usize, lhs: Vec<(String, Option<FullType>)>, rhs: SchedStmt, r: usize) -> (res:
        SchedStmt)
        requires
            self.in_range(l, r),
        ensures
            res == (SchedStmt::Sequence {
                info: self.spec_info(l, r),
                dests: lhs,
                block: Box::new(rhs),
                is_const: true,
            }),
    {
        SchedStmt::Sequence { info: self.info(l, r), dests: lhs, block: Box::new(rhs), is_const: true }
    }

    /// A variable sequence: the values of the statement `rhs` bound to `lhs`.
    pub fn sched_var_seq(&self, l: usize, lhs: Vec<(String, Option<FullType>)>, rhs: SchedStmt, r: usize) -> (res:
        SchedStmt)
        requires
            self.in_range(l, r),
        ensures
            res == (SchedStmt::Sequence {
                info: self.spec_info(l, r),
                dests: lhs,
                block: Box::new(rhs),
                is_const: false,
            }),
    {
        SchedStmt::Sequence { info: self.info(l, r), dests: lhs, block: Box::new(rhs), is_const: false }
    }

    /// An encoded statement `lhs <- rhs`.
    pub fn encoded_stmt(&self, l: usize, lhs: Vec<(Name, Option<FlaggedType>)>, rhs: SchedExpr, r: usize) -> (res:
        EncodedStmt)
        requires
            self.in_range(l, r),
        ensures
            res == (EncodedStmt::Move { info: self.spec_info(l, r), lhs, rhs }),
    {
        EncodedStmt::Move { info: self.info(l, r), lhs, rhs }
    }

    /// A value funclet; a missing output list is empty.
    pub fn value_funclet(
        &self,
        l: usize,
        name: String,
        input: Vec<Arg<DataType>>,
        output: Option<Vec<NamedOutput<DataType>>>,
        statements: Vec<SpecStmt>,
        r: usize,
    ) -> (res: ClassMembers)
        requires
            self.in_range(l, r),
        ensures
            res matches ClassMembers::ValueFunclet { info, name: n, input: i, output: o, statements: s }
                && info == self.spec_info(l, r) && n == name && i == input && s == statements && (
            match output {
                Some(v) => o == v,
                None => o@ == Seq::<NamedOutput<DataType>>::empty(),
            }),
    {
        let out = match output {
            Some(v) => v,
            None => Vec::new(),
        };
        ClassMembers::ValueFunclet { info: self.info(l, r), name, input, output: out, statements }
    }

    /// A function class with its members.
    pub fn function_class(&self, l: usize, name: String, members: Vec<ClassMembers>, r: usize) -> (res: TopLevel)
        requires
            self.in_range(l, r),
        ensures
            res == (TopLevel::FunctionClass { info: self.spec_info(l, r), name, members }),
    {
        TopLevel::FunctionClass { info: self.info(l, r), name, members }
    }

    /// A scheduling function; a missing output list is empty.
    pub fn sched_function(
        &self,
        l: usize,
        name: String,
        input: Vec<MaybeArg<FullType>>,
        output: Option<Vec<FullType>>,
        specs: Vec<String>,
        statements: Vec<SchedStmt>,
        r: usize,
    ) -> (res: TopLevel)
        requires
            self.in_range(l, r),
        ensures
            res matches TopLevel::SchedulingFunc { info, name: n, input: i, output: o, specs: sp, statements: s }
                && info == self.spec_info(l, r) && n == name && i == input && sp == specs && s == statements
                && (match output {
                Some(v) => o == v,
                None => o@ == Seq::<FullType>::empty(),
            }),
    {
        let out = match output {
            Some(v) => v,
            None => Vec::new(),
        };
        TopLevel::SchedulingFunc { info: self.info(l, r), name, input, output: out, specs, statements }
    }

    /// An extern function that may have effects; a missing output list is empty.
    pub fn extern_func(
        &self,
        l: usize,
        device: String,
        name: String,
        input: Vec<(Option<String>, DataType)>,
        output: Option<Vec<NamedOutput<DataType>>>,
        def: Option<ExternDef>,
        r: usize,
    ) -> (res: ClassMembers)
        requires
            self.in_range(l, r),
        ensures
            res matches ClassMembers::Extern { info, name: n, device: d, pure, input: i, output: o, def: df }
                && info == self.spec_info(l, r) && n == name && d == device && !pure && i == input && df
                == def && (match output {
                Some(v) => o == v,
                None => o@ == Seq::<NamedOutput<DataType>>::empty(),
            }),
    {
        let out = match output {
            Some(v) => v,
            None => Vec::new(),
        };
        ClassMembers::Extern { info: self.info(l, r), name, device, pure: false, input, output: out, def }
    }

    /// A pure extern function; a missing output list is empty.
    pub fn extern_pure_func(
        &self,
        l: usize,
        device: String,
        name: String,
        input: Vec<(Option<String>, DataType)>,
        output: Option<Vec<NamedOutput<DataType>>>,
        def: Option<ExternDef>,
        r: usize,
    ) -> (res: ClassMembers)
        requires
            self.in_range(l, r),
        ensures
            res matches ClassMembers::Extern { info, name: n, device: d, pure, input: i, output: o, def: df }
                && info == self.spec_info(l, r) && n == name && d == device && pure && i == input && df
                == def && (match output {
                Some(v) => o == v,
                None => o@ == Seq::<NamedOutput<DataType>>::empty(),
            }),
    {
        let out = match output {
            Some(v) => v,
            None => Vec::new(),
        };
        ClassMembers::Extern { info: self.info(l, r), name, device, pure: true, input, output: out, def }
    }

    /// A function class holding just `member`, named and placed as it is.
    pub fn singleton_function_class(&self, member: ClassMembers) -> (res: TopLevel)
        ensures
            res matches TopLevel::FunctionClass { info, name, members } && info == member_info(member)
                && name@ == member_name(member)@ && members@ == seq![member],
    {
        let info = member.get_info();
        let name = member.get_name();
        TopLevel::FunctionClass { info, name, members: vec![member] }
    }

    /// A pipeline named `name` starting at `entry`.
    pub fn pipeline(&self, l: usize, name: String, entry: String, r: usize) -> (res: TopLevel)
        requires
            self.in_range(l, r),
        ensures
            res == (TopLevel::Pipeline { info: self.spec_info(l, r), name, entry }),
    {
        TopLevel::Pipeline { info: self.info(l, r), name, entry }
    }
}

/// An error of the parser's own checks, at `loc`, with the message `msg`.
pub open spec fn parse_error(loc: Info, msg: Seq<char>, e: CustomParsingError) -> bool {
    e.loc == loc && e.msg@ == msg
}

/// The location of the first call in `e`, in source order: calls are what keep an
/// expression from being constant.
pub open spec fn first_call(e: SpecExpr) -> Option<Info>
    decreases e, 0int,
{
    match e {
        NestedExpr::Term(t) => match t {
            SpecTerm::Lit { lit, .. } => match lit {
                SpecLiteral::Array(a) => first_call_from(a@, 0),
                SpecLiteral::Tuple(a) => first_call_from(a@, 0),
                _ => None,
            },
            SpecTerm::Var { .. } => None,
            SpecTerm::Call { info, .. } => Some(info),
        },
        NestedExpr::Binop { lhs, rhs, .. } => match first_call(*lhs) {
            Some(i) => Some(i),
            None => first_call(*rhs),
        },
        NestedExpr::Uop { expr, .. } => first_call(*expr),
        NestedExpr::Conditional { if_true, guard, if_false, .. } => match first_call(*if_true) {
            Some(i) => Some(i),
            None => match first_call(*guard) {
                Some(i) => Some(i),
                None => first_call(*if_false),
            },
        },
    }
}

/// The location of the first call in the expressions of `s` from index `i` on.
pub open spec fn first_call_from(s: Seq<SpecExpr>, i: int) -> Option<Info>
    decreases s, s.len() - i,
{
    if i < 0 || i >= s.len() {
        None
    } else {
        match first_call(s[i]) {
            Some(x) => Some(x),
            None => first_call_from(s, i + 1),
        }
    }
}

/// The message for a call in a constant context.
pub open spec fn non_constant_text(info: Info) -> Seq<char> {
    "Non constant expression found in a constant context at "@ + info_text(info)
}

/// Checks that `e` has no calls; the error is at the first one.
fn sanitize_expr(e: &SpecExpr) -> (res: Result<(), CustomParsingError>)
    ensures
        res is Ok <==> first_call(*e) is None,
        res matches Err(err) ==> first_call(*e) == Some(err.loc) && err.msg@ == non_constant_text(
            err.loc,
        ),
    decreases e, 0int,
{
    match e {
        NestedExpr::Term(t) => match t {
            SpecTerm::Lit { lit, .. } => match lit {
                SpecLiteral::Array(a) => sanitize_exprs(a),
                SpecLiteral::Tuple(a) => sanitize_exprs(a),
                _ => Ok(()),
            },
            SpecTerm::Var { .. } => Ok(()),
            SpecTerm::Call { info, .. } => {
                let mut msg = text_of("Non constant expression found in a constant context at ");
                msg.append(info.to_text().as_str());
                Err(CustomParsingError { loc: *info, msg })
            },
        },
        NestedExpr::Binop { lhs, rhs, .. } => {
            match sanitize_expr(&**lhs) {
                Err(err) => Err(err),
                Ok(()) => sanitize_expr(&**rhs),
            }
        },
        NestedExpr::Uop { expr, .. } => sanitize_expr(&**expr),
        NestedExpr::Conditional { if_true, guard, if_false, .. } => {
            match sanitize_expr(&**if_true) {
                Err(err) => Err(err),
                Ok(()) => match sanitize_expr(&**guard) {
                    Err(err) => Err(err),
                    Ok(()) => sanitize_expr(&**if_false),
                },
            }
        },
    }
}

/// Checks that the expressions of `a` have no calls; the error is at the first one.
fn sanitize_exprs(a: &Vec<SpecExpr>) -> (res: Result<(), CustomParsingError>)
    ensures
        res is Ok <==> first_call_from(a@, 0) is None,
        res matches Err(err) ==> first_call_from(a@, 0) == Some(err.loc) && err.msg@
            == non_constant_text(err.loc),
    decreases a, a@.len() + 1,
{
    let mut k: usize = 0;
    while k < a.len()
        invariant
            k <= a@.len(),
            first_call_from(a@, 0) == first_call_from(a@, k as int),
        decreases a@.len() - k,
    {
        proof {
            assert(decreases_to!(a => a@[k as int]));
        }
        match sanitize_expr(&a[k]) {
            Err(err) => {
                return Err(err);
            },
            Ok(()) => {},
        }
        k += 1;
    }
    Ok(())
}

impl ASTFactory {
    /// Returns `expr` when it is constant (has no calls), or an error at its first call.
    pub fn const_expr(&self, expr: SpecExpr) -> (res: Result<SpecExpr, CustomParsingError>)
        ensures
            res is Ok <==> first_call(expr) is None,
            res matches Ok(e) ==> e == expr,
            res matches Err(err) ==> first_call(expr) == Some(err.loc) && err.msg@ == non_constant_text(
                err.loc,
            ),
    {
        match sanitize_expr(&expr) {
            Ok(()) => Ok(expr),
            Err(err) => Err(err),
        }
    }
}

/// The message for a call that cannot occur in a spec.
pub open spec fn call_context_text() -> Seq<char> {
    "Cannot parameterize a function call with non-type template arguments nor specify a tag in this context"@
}

/// The first reason, in source order, why the scheduling expression `e` is no spec
/// expression: a tag, a hole, or a call with a tag, with value template arguments
/// or with an encoded statement; with its location and message.
pub open spec fn to_spec_error(e: SchedExpr) -> Option<(Info, Seq<char>)>
    decreases e, 0int,
{
    match e {
        NestedExpr::Binop { lhs, rhs, .. } => match to_spec_error(*lhs) {
            Some(x) => Some(x),
            None => to_spec_error(*rhs),
        },
        NestedExpr::Uop { expr, .. } => to_spec_error(*expr),
        NestedExpr::Conditional { if_true, guard, if_false, .. } => match to_spec_error(*if_true) {
            Some(x) => Some(x),
            None => match to_spec_error(*guard) {
                Some(x) => Some(x),
                None => to_spec_error(*if_false),
            },
        },
        NestedExpr::Term(t) => match t {
            SchedTerm::Lit { info, lit, tag } => if tag is Some {
                Some((info, "A tag cannot occur in this context"@))
            } else {
                match lit {
                    SchedLiteral::Array(a) => to_spec_error_from(a@, 0),
                    SchedLiteral::Tuple(a) => to_spec_error_from(a@, 0),
                    _ => None,
                }
            },
            SchedTerm::Var { info, tag, .. } => if tag is Some {
                Some((info, "A tag cannot occur in this context"@))
            } else {
                None
            },
            SchedTerm::Call(info, call) => if call.tag is Some || call.templates matches Some(
                TemplateArgs::Vals(_),
            ) || *call.args is Encode {
                Some((info, call_context_text()))
            } else {
                match to_spec_error(*call.target) {
                    Some(x) => Some(x),
                    None => to_spec_error_from((*call.args)->Args_0@, 0),
                }
            },
            SchedTerm::Hole(info) => Some((info, "Holes cannot occur in this context"@)),
        },
    }
}

/// The first reason why an expression of `s`, from index `i` on, is no spec expression.
pub open spec fn to_spec_error_from(s: Seq<SchedExpr>, i: int) -> Option<(Info, Seq<char>)>
    decreases s, s.len() - i,
{
    if i < 0 || i >= s.len() {
        None
    } else {
        match to_spec_error(s[i]) {
            Some(x) => Some(x),
            None => to_spec_error_from(s, i + 1),
        }
    }
}

/// `r` is the spec expression that `e` becomes: the same tree, with each term
/// carried over.
pub open spec fn converts(e: SchedExpr, r: SpecExpr) -> bool
    decreases e, 0int,
{
    match e {
        NestedExpr::Binop { info, op, lhs, rhs } => match r {
            NestedExpr::Binop { info: i2, op: o2, lhs: l2, rhs: r2 } => info == i2 && op == o2 && converts(
                *lhs,
                *l2,
            ) && converts(*rhs, *r2),
            _ => false,
        },
        NestedExpr::Uop { info, op, expr } => match r {
            NestedExpr::Uop { info: i2, op: o2, expr: e2 } => info == i2 && op == o2 && converts(*expr, *e2),
            _ => false,
        },
        NestedExpr::Conditional { info, if_true, guard, if_false } => match r {
            NestedExpr::Conditional { info: i2, if_true: t2, guard: g2, if_false: f2 } => info == i2
                && converts(*if_true, *t2) && converts(*guard, *g2) && converts(*if_false, *f2),
            _ => false,
        },
        NestedExpr::Term(t) => match r {
            NestedExpr::Term(u) => match t {
                SchedTerm::Lit { info, lit, .. } => match u {
                    SpecTerm::Lit { info: i2, lit: l2 } => info == i2 && match lit {
                        SchedLiteral::Int(x) => l2 == SpecLiteral::Int(x),
                        SchedLiteral::Float(x) => l2 == SpecLiteral::Float(x),
                        SchedLiteral::Bool(x) => l2 == SpecLiteral::Bool(x),
                        SchedLiteral::Array(a) => l2 matches SpecLiteral::Array(b) && converts_from(
                            a@,
                            b@,
                            0,
                        ),
                        SchedLiteral::Tuple(a) => l2 matches SpecLiteral::Tuple(b) && converts_from(
                            a@,
                            b@,
                            0,
                        ),
                    },
                    _ => false,
                },
                SchedTerm::Var { info, name, .. } => u == SpecTerm::Var { info, name },
                SchedTerm::Call(info, call) => match u {
                    SpecTerm::Call { info: i2, function, args, template } => info == i2 && converts(
                        *call.target,
                        *function,
                    ) && match *call.args {
                        ArgsOrEnc::Args(a) => converts_from(a@, args@, 0),
                        _ => false,
                    } && template == match call.templates {
                        Some(TemplateArgs::Type(ft)) => Some(ft),
                        _ => None,
                    },
                    _ => false,
                },
                SchedTerm::Hole(_) => false,
            },
            _ => false,
        },
    }
}

/// The expressions of `b` are what those of `a` become, from index `i` on.
pub open spec fn converts_from(a: Seq<SchedExpr>, b: Seq<SpecExpr>, i: int) -> bool
    decreases a, a.len() - i,
{
    if i < 0 || i >= a.len() {
        a.len() == b.len()
    } else {
        converts(a[i], b[i]) && converts_from(a, b, i + 1)
    }
}

impl ASTFactory {
    /// Converts a scheduling expression into a spec expression, or reports the
    /// first part of it that cannot occur in a spec.
    pub fn sched_to_spec_expr(e: SchedExpr) -> (res: Result<SpecExpr, CustomParsingError>)
        ensures
            res is Ok <==> to_spec_error(e) is None,
            res matches Ok(r) ==> converts(e, r),
            res matches Err(err) ==> to_spec_error(e) == Some((err.loc, err.msg@)),
        decreases e, 0int,
    {
        match e {
            NestedExpr::Binop { info, op, lhs, rhs } => {
                match Self::sched_to_spec_expr(*lhs) {
                    Err(err) => Err(err),
                    Ok(l) => match Self::sched_to_spec_expr(*rhs) {
                        Err(err) => Err(err),
                        Ok(r) => Ok(NestedExpr::Binop { info, op, lhs: Box::new(l), rhs: Box::new(r) }),
                    },
                }
            },
            NestedExpr::Uop { info, op, expr } => {
                match Self::sched_to_spec_expr(*expr) {
                    Err(err) => Err(err),
                    Ok(x) => Ok(NestedExpr::Uop { info, op, expr: Box::new(x) }),
                }
            },
            NestedExpr::Conditional { info, if_true, guard, if_false } => {
                match Self::sched_to_spec_expr(*if_true) {
                    Err(err) => Err(err),
                    Ok(t) => match Self::sched_to_spec_expr(*guard) {
                        Err(err) => Err(err),
                        Ok(g) => match Self::sched_to_spec_expr(*if_false) {
                            Err(err) => Err(err),
                            Ok(f) => Ok(
                                NestedExpr::Conditional {
                                    info,
                                    if_true: Box::new(t),
                                    guard: Box::new(g),
                                    if_false: Box::new(f),
                                },
                            ),
                        },
                    },
                }
            },
            NestedExpr::Term(t) => {
                match Self::sched_to_spec_term(t) {
                    Err(err) => Err(err),
                    Ok(u) => Ok(NestedExpr::Term(u)),
                }
            },
        }
    }

    /// Converts a scheduling term into a spec term.
    fn sched_to_spec_term(t: SchedTerm) -> (res: Result<SpecTerm, CustomParsingError>)
        ensures
            res is Ok <==> to_spec_error(NestedExpr::Term(t)) is None,
            res matches Ok(u) ==> converts(NestedExpr::Term(t), NestedExpr::Term(u)),
            res matches Err(err) ==> to_spec_error(NestedExpr::Term(t)) == Some((err.loc, err.msg@)),
        decreases t, 0int,
    {
        match t {
            SchedTerm::Lit { info, lit, tag } => {
                if tag.is_some() {
                    return Err(CustomParsingError { loc: info, msg: text_of("A tag cannot occur in this context") });
                }
                match Self::sched_to_spec_literal(lit) {
                    Err(err) => Err(err),
                    Ok(l2) => Ok(SpecTerm::Lit { info, lit: l2 }),
                }
            },
            SchedTerm::Var { info, name, tag } => {
                if tag.is_some() {
                    return Err(CustomParsingError { loc: info, msg: text_of("A tag cannot occur in this context") });
                }
                Ok(SpecTerm::Var { info, name })
            },
            SchedTerm::Call(info, call) => {
                let SchedFuncCall { target, templates, args, tag, yield_call: _ } = call;
                let bad_templates = match &templates {
                    Some(TemplateArgs::Vals(_)) => true,
                    _ => false,
                };
                if tag.is_some() || bad_templates || !args.is_args() {
                    return Err(
                        CustomParsingError {
                            loc: info,
                            msg: text_of(
                                "Cannot parameterize a function call with non-type template arguments nor specify a tag in this context",
                            ),
                        },
                    );
                }
                let template = match templates {
                    Some(TemplateArgs::Type(ft)) => Some(ft),
                    _ => None,
                };
                match Self::sched_to_spec_expr(*target) {
                    Err(err) => Err(err),
                    Ok(f) => match *args {
                        ArgsOrEnc::Args(a) => match Self::sched_to_spec_exprs(a) {
                            Err(err) => Err(err),
                            Ok(a2) => Ok(SpecTerm::Call { info, function: Box::new(f), args: a2, template }),
                        },
                        ArgsOrEnc::Encode(_) => {
                            proof {
                                assert(false);
                            }
                            Err(CustomParsingError { loc: info, msg: String::new() })
                        },
                    },
                }
            },
            SchedTerm::Hole(info) => Err(
                CustomParsingError { loc: info, msg: text_of("Holes cannot occur in this context") },
            ),
        }
    }

    /// Converts a scheduling literal into a spec literal.
    fn sched_to_spec_literal(lit: SchedLiteral) -> (res: Result<SpecLiteral, CustomParsingError>)
        ensures
            res is Ok <==> (match lit {
                SchedLiteral::Array(a) => to_spec_error_from(a@, 0) is None,
                SchedLiteral::Tuple(a) => to_spec_error_from(a@, 0) is None,
                _ => true,
            }),
            res matches Ok(l2) ==> match lit {
                SchedLiteral::Int(x) => l2 == SpecLiteral::Int(x),
                SchedLiteral::Float(x) => l2 == SpecLiteral::Float(x),
                SchedLiteral::Bool(x) => l2 == SpecLiteral::Bool(x),
                SchedLiteral::Array(a) => l2 matches SpecLiteral::Array(b) && converts_from(a@, b@, 0),
                SchedLiteral::Tuple(a) => l2 matches SpecLiteral::Tuple(b) && converts_from(a@, b@, 0),
            },
            res matches Err(err) ==> match lit {
                SchedLiteral::Array(a) => to_spec_error_from(a@, 0) == Some((err.loc, err.msg@)),
                SchedLiteral::Tuple(a) => to_spec_error_from(a@, 0) == Some((err.loc, err.msg@)),
                _ => false,
            },
        decreases lit, 0int,
    {
        match lit {
            SchedLiteral::Int(x) => Ok(SpecLiteral::Int(x)),
            SchedLiteral::Float(x) => Ok(SpecLiteral::Float(x)),
            SchedLiteral::Bool(x) => Ok(SpecLiteral::Bool(x)),
            SchedLiteral::Array(a) => match Self::sched_to_spec_exprs(a) {
                Err(err) => Err(err),
                Ok(b) => Ok(SpecLiteral::Array(b)),
            },
            SchedLiteral::Tuple(a) => match Self::sched_to_spec_exprs(a) {
                Err(err) => Err(err),
                Ok(b) => Ok(SpecLiteral::Tuple(b)),
            },
        }
    }

    /// Converts a list of scheduling expressions into spec expressions, in order;
    /// the error is that of the first one that fails.
    fn sched_to_spec_exprs(v: Vec<SchedExpr>) -> (res: Result<Vec<SpecExpr>, CustomParsingError>)
        ensures
            res is Ok <==> to_spec_error_from(v@, 0) is None,
            res matches Ok(b) ==> converts_from(v@, b@, 0),
            res matches Err(err) ==> to_spec_error_from(v@, 0) == Some((err.loc, err.msg@)),
        decreases v, v@.len() + 1,
    {
        let ghost v0 = v;
        let ghost orig = v@;
        let _n = v.len();
        let mut rest = v;
        let mut out: Vec<SpecExpr> = Vec::new();
        let mut k: usize = 0;
        while rest.len() > 0
            invariant
                orig == v0@,
                orig == v@,
                v0 == v,
                orig.len() <= usize::MAX,
                k + rest@.len() == orig.len(),
                rest@ == orig.subrange(k as int, orig.len() as int),
                out@.len() == k,
                to_spec_error_from(orig, 0) == to_spec_error_from(orig, k as int),
                forall|i: int| 0 <= i < k ==> converts(orig[i], #[trigger] out@[i]),
            decreases rest@.len(),
        {
            let x = rest.remove(0);
            assert(x == orig[k as int]);
            proof {
                assert(decreases_to!(v0 => v0@[k as int]));
                assert(decreases_to!(v0 => x));
            }
            match Self::sched_to_spec_expr(x) {
                Err(err) => {
                    return Err(err);
                },
                Ok(y) => {
                    out.push(y);
                },
            }
            k += 1;
        }
        proof {
            lemma_converts_from(orig, out@, 0);
        }
        Ok(out)
    }
}

/// Pointwise conversion of equally long lists gives `converts_from`.
proof fn lemma_converts_from(a: Seq<SchedExpr>, b: Seq<SpecExpr>, i: int)
    requires
        a.len() == b.len(),
        0 <= i <= a.len(),
        forall|k: int| 0 <= k < a.len() ==> converts(a[k], #[trigger] b[k]),
    ensures
        converts_from(a, b, i),
    decreases a.len() - i,
{
    if i < a.len() {
        lemma_converts_from(a, b, i + 1);
    }
}

/// The first call, in order, in the spec expressions of `s` from index `i` on.
pub open spec fn first_call_in(s: Seq<SpecExpr>, i: int) -> Option<Info>
    decreases s.len() - i,
{
    if i < 0 || i >= s.len() {
        None
    } else {
        match first_call(s[i]) {
            Some(x) => Some(x),
            None => first_call_in(s, i + 1),
        }
    }
}

/// The version this front end reads: major, minor and patch.
pub open spec fn version_ok(maj: Seq<char>, min: Seq<char>, patch: Seq<char>) -> bool {
    maj == "0"@ && min == "1"@ && patch == "0"@
}

/// The number of times `c` occurs in `s`.
pub open spec fn count_char(s: Seq<char>, c: char) -> nat
    decreases s.len(),
{
    if s.len() == 0 {
        0
    } else {
        count_char(s.drop_last(), c) + if s.last() == c {
            1nat
        } else {
            0nat
        }
    }
}

/// The index of the first `c` in `s` (its length when there is none).
pub open spec fn index_of_char(s: Seq<char>, c: char) -> int
    decreases s.len(),
{
    if s.len() == 0 {
        0
    } else if s[0] == c {
        0
    } else {
        1 + index_of_char(s.drop_first(), c)
    }
}

/// The location reported for a wrong version: the start of the file.
pub open spec fn file_start() -> Info {
    Info { start_ln_and_col: (0, 0), end_ln_and_col: (0, 0) }
}

/// The flags (without a value) and settings (with one) of a list of flags, in order.
pub open spec fn split_flags(fs: Seq<(String, Option<String>)>) -> (Seq<String>, Seq<(String, String)>)
    decreases fs.len(),
{
    if fs.len() == 0 {
        (seq![], seq![])
    } else {
        let (f, st) = split_flags(fs.drop_last());
        match fs.last().1 {
            Some(v) => (f, st.push((fs.last().0, v))),
            None => (f.push(fs.last().0), st),
        }
    }
}

impl ASTFactory {
    /// A declaration in a spec: `lhs = rhs`, with `rhs` made a spec expression.
    pub fn spec_decl(&self, l: usize, lhs: Vec<(Name, Option<DataType>)>, rhs: SchedExpr, r: usize) -> (res:
        Result<SpecStmt, CustomParsingError>)
        requires
            self.in_range(l, r),
        ensures
            res is Ok <==> to_spec_error(rhs) is None,
            res matches Ok(st) ==> st matches SpecStmt::Assign { info, lhs: l2, rhs: r2 } && info
                == self.spec_info(l, r) && l2 == lhs && converts(rhs, r2),
            res matches Err(err) ==> to_spec_error(rhs) == Some((err.loc, err.msg@)),
    {
        match Self::sched_to_spec_expr(rhs) {
            Err(err) => Err(err),
            Ok(e) => Ok(SpecStmt::Assign { info: self.info(l, r), lhs, rhs: e }),
        }
    }

    /// A return in a spec, with `e` made a spec expression.
    pub fn spec_returns(&self, l: usize, e: SchedExpr, r: usize) -> (res: Result<SpecStmt, CustomParsingError>)
        requires
            self.in_range(l, r),
        ensures
            res is Ok <==> to_spec_error(e) is None,
            res matches Ok(st) ==> st matches SpecStmt::Returns(info, x) && info == self.spec_info(l, r)
                && converts(e, x),
            res matches Err(err) ==> to_spec_error(e) == Some((err.loc, err.msg@)),
    {
        match Self::sched_to_spec_expr(e) {
            Err(err) => Err(err),
            Ok(x) => Ok(SpecStmt::Returns(self.info(l, r), x)),
        }
    }

    /// Template value arguments: each made a spec expression, then each checked
    /// to be constant.
    pub fn template_args(&self, templates: Vec<SchedExpr>) -> (res: Result<TemplateArgs, CustomParsingError>)
        ensures
            to_spec_error_from(templates@, 0) matches Some(x) ==> (res matches Err(err) && x == (err.loc, err.msg@)),
            to_spec_error_from(templates@, 0) is None ==> match res {
                Ok(t) => t matches TemplateArgs::Vals(v) && converts_from(templates@, v@, 0) && first_call_in(
                    v@,
                    0,
                ) is None,
                Err(err) => exists|v: Seq<SpecExpr>|
                    converts_from(templates@, v, 0) && first_call_in(v, 0) == Some(err.loc) && err.msg@
                        == non_constant_text(err.loc),
            },
    {
        match Self::sched_to_spec_exprs(templates) {
            Err(err) => Err(err),
            Ok(v) => {
                let ghost vs = v@;
                let _n = v.len();
                let mut rest = v;
                let mut out: Vec<SpecExpr> = Vec::new();
                let mut k: usize = 0;
                while rest.len() > 0
                    invariant
                        to_spec_error_from(templates@, 0) is None,
                        converts_from(templates@, vs, 0),
                        k + rest@.len() == vs.len(),
                        vs.len() <= usize::MAX,
                        rest@ == vs.subrange(k as int, vs.len() as int),
                        out@ == vs.subrange(0, k as int),
                        first_call_in(vs, 0) == first_call_in(vs, k as int),
                    decreases rest@.len(),
                {
                    let x = rest.remove(0);
                    assert(x == vs[k as int]);
                    match self.const_expr(x) {
                        Err(err) => {
                            assert(converts_from(templates@, vs, 0) && first_call_in(vs, 0) == Some(err.loc));
                            return Err(err);
                        },
                        Ok(y) => {
                            out.push(y);
                        },
                    }
                    k += 1;
                }
                assert(out@ =~= vs);
                Ok(TemplateArgs::Vals(out))
            },
        }
    }

    /// A constant definition: `expr` made a spec expression, which must be constant.
    pub fn const_def(&self, l: usize, name: Name, expr: SchedExpr, r: usize) -> (res: Result<TopLevel, CustomParsingError>)
        requires
            self.in_range(l, r),
        ensures
            to_spec_error(expr) matches Some(x) ==> (res matches Err(err) && x == (err.loc, err.msg@)),
            to_spec_error(expr) is None ==> match res {
                Ok(t) => t matches TopLevel::Const { info, name: n, expr: e } && info == self.spec_info(l, r)
                    && n == name && converts(expr, e) && first_call(e) is None,
                Err(err) => exists|e: SpecExpr|
                    converts(expr, e) && first_call(e) == Some(err.loc) && err.msg@ == non_constant_text(
                        err.loc,
                    ),
            },
    {
        match Self::sched_to_spec_expr(expr) {
            Err(err) => Err(err),
            Ok(e) => match self.const_expr(e) {
                Err(err) => Err(err),
                Ok(c) => Ok(TopLevel::Const { info: self.info(l, r), name, expr: c }),
            },
        }
    }

    /// Defines the type `name` as `typ`, for later uses of the name.
    pub fn type_def(&mut self, l: usize, name: Name, typ: DataType, r: usize) -> (res: TopLevel)
        requires
            old(self).in_range(l, r),
        ensures
            final(self).wf(),
            final(self).line_ends() == old(self).line_ends(),
            final(self).type_defs().len() == old(self).type_defs().len() + 1,
            final(self).type_defs().drop_last() == old(self).type_defs(),
            final(self).type_defs().last().0@ == name@,
            same_data_type(typ, final(self).type_defs().last().1),
            res matches TopLevel::Typedef { info, name: n, typ: ft } && info == old(self).spec_info(l, r)
                && n == name && ft.info == info && ft.base == typ && ft.flags@.len() == 0
                && ft.settings@.len() == 0,
    {
        let info = self.info(l, r);
        let stored = typ.duplicate();
        self.type_map.push((name.clone(), stored));
        assert(self.type_map@.drop_last() =~= old(self).type_map@);
        TopLevel::Typedef {
            info,
            name,
            typ: FlaggedType { info, base: typ, flags: Vec::new(), settings: Vec::new() },
        }
    }

    /// The type defined most recently under `name`, or an error when there is none.
    pub fn user_defined_type(&self, l: usize, name: String, r: usize) -> (res: Result<DataType, CustomParsingError>)
        requires
            self.in_range(l, r),
        ensures
            latest_type(self.type_defs(), name@) matches Some(t) ==> (res matches Ok(d) && same_data_type(t, d)),
            latest_type(self.type_defs(), name@) is None ==> (res matches Err(err) && parse_error(
                self.spec_info(l, r),
                "Undefined type "@ + name@,
                err,
            )),
    {
        let info = self.info(l, r);
        let defs = &self.type_map;
        let mut i: usize = defs.len();
        assert(defs@.take(i as int) =~= defs@);
        while i > 0
            invariant
                defs@ == self.type_defs(),
                i <= defs@.len(),
                latest_type(self.type_defs(), name@) == latest_type(defs@.take(i as int), name@),
            decreases i,
        {
            assert(defs@.take(i as int).drop_last() =~= defs@.take(i - 1));
            assert(defs@.take(i as int).last() == defs@[i - 1]);
            if defs[i - 1].0 == name {
                return Ok(defs[i - 1].1.duplicate());
            }
            i -= 1;
        }
        let mut msg = text_of("Undefined type ");
        msg.append(name.as_str());
        Err(CustomParsingError { loc: info, msg })
    }

    /// A flagged type: `t` with the flags (no value) and settings (with a value) given.
    pub fn flagged_type(&self, l: usize, t: DataType, flags: Option<Vec<(String, Option<String>)>>, r: usize) -> (res:
        FlaggedType)
        requires
            self.in_range(l, r),
        ensures
            res.info == self.spec_info(l, r),
            res.base == t,
            match flags {
                Some(fs) => res.flags@ == split_flags(fs@).0 && res.settings@ == split_flags(fs@).1,
                None => res.flags@.len() == 0 && res.settings@.len() == 0,
            },
    {
        let info = self.info(l, r);
        match flags {
            None => FlaggedType { info, base: t, flags: Vec::new(), settings: Vec::new() },
            Some(fs) => {
                let ghost orig = fs@;
                let _n = fs.len();
                let mut rest = fs;
                let mut fl: Vec<String> = Vec::new();
                let mut st: Vec<(String, String)> = Vec::new();
                let mut k: usize = 0;
                while rest.len() > 0
                    invariant
                        k + rest@.len() == orig.len(),
                        orig.len() <= usize::MAX,
                        rest@ == orig.subrange(k as int, orig.len() as int),
                        (fl@, st@) == split_flags(orig.take(k as int)),
                    decreases rest@.len(),
                {
                    let (key, val) = rest.remove(0);
                    assert(orig.take(k + 1).drop_last() =~= orig.take(k as int));
                    assert(orig.take(k + 1).last() == (key, val));
                    match val {
                        Some(v) => st.push((key, v)),
                        None => fl.push(key),
                    }
                    k += 1;
                }
                assert(orig.take(k as int) =~= orig);
                FlaggedType { info, base: t, flags: fl, settings: st }
            },
        }
    }

    /// Checks the version string (`major.minor` and `patch`) and returns the program.
    pub fn program(&self, maj_min: &str, patch: &str, prog: Program) -> (res: Result<Program, CustomParsingError>)
        ensures
            count_char(maj_min@, '.') != 1 ==> (res matches Err(err) && parse_error(
                file_start(),
                "Invalid version string: "@ + maj_min@ + "."@ + patch@,
                err,
            )),
            count_char(maj_min@, '.') == 1 ==> {
                let k = index_of_char(maj_min@, '.');
                let maj = maj_min@.subrange(0, k);
                let min = maj_min@.subrange(k + 1, maj_min@.len() as int);
                if version_ok(maj, min, patch@) {
                    res == Ok::<Program, CustomParsingError>(prog)
                } else {
                    res matches Err(err) && parse_error(
                        file_start(),
                        "Version mismatch: expected 0.1.0 but found "@ + maj + "."@ + min + "."@ + patch@,
                        err,
                    )
                }
            },
    {
        let n = maj_min.unicode_len();
        let mut dots: usize = 0;
        let mut first: usize = n;
        let mut i: usize = 0;
        while i < n
            invariant
                n == maj_min@.len(),
                i <= n,
                dots == count_char(maj_min@.take(i as int), '.'),
                dots <= i,
                count_char(maj_min@.take(i as int), '.') == 0 ==> first == n,
                count_char(maj_min@.take(i as int), '.') > 0 ==> first == index_of_char(maj_min@, '.')
                    && first < i,
                count_char(maj_min@.take(i as int), '.') == 0 ==> forall|j: int| 0 <= j < i ==> maj_min@[j] != '.',
            decreases n - i,
        {
            assert(maj_min@.take(i + 1).drop_last() =~= maj_min@.take(i as int));
            let c = maj_min.get_char(i);
            if c == '.' {
                if dots == 0 {
                    first = i;
                    proof {
                        lemma_index_of_char(maj_min@, '.', i as int);
                    }
                }
                dots += 1;
            }
            i += 1;
        }
        assert(maj_min@.take(n as int) =~= maj_min@);
        if dots != 1 {
            let mut msg = text_of("Invalid version string: ");
            msg.append(maj_min);
            msg.append(".");
            msg.append(patch);
            return Err(CustomParsingError { loc: Info { start_ln_and_col: (0, 0), end_ln_and_col: (0, 0) }, msg });
        }
        let mut maj = String::new();
        let mut j: usize = 0;
        while j < first
            invariant
                first < n,
                n == maj_min@.len(),
                j <= first,
                maj@ == maj_min@.subrange(0, j as int),
            decreases first - j,
        {
            crate::text::push_char(&mut maj, maj_min.get_char(j));
            j += 1;
        }
        let mut min = String::new();
        let mut j: usize = first + 1;
        while j < n
            invariant
                first < n,
                n == maj_min@.len(),
                first + 1 <= j <= n,
                min@ == maj_min@.subrange(first + 1, j as int),
            decreases n - j,
        {
            crate::text::push_char(&mut min, maj_min.get_char(j));
            j += 1;
        }
        let ok = same_text(maj.as_str(), "0") && same_text(min.as_str(), "1") && same_text(patch, "0");
        if ok {
            Ok(prog)
        } else {
            let mut msg = text_of("Version mismatch: expected 0.1.0 but found ");
            msg.append(maj.as_str());
            msg.append(".");
            msg.append(min.as_str());
            msg.append(".");
            msg.append(patch);
            Err(CustomParsingError { loc: Info { start_ln_and_col: (0, 0), end_ln_and_col: (0, 0) }, msg })
        }
    }
}

/// When `c` first occurs at `i`, that is its index.
proof fn lemma_index_of_char(s: Seq<char>, c: char, i: int)
    requires
        0 <= i < s.len(),
        s[i] == c,
        forall|j: int| 0 <= j < i ==> s[j] != c,
    ensures
        index_of_char(s, c) == i,
    decreases i,
{
    if i > 0 {
        let t = s.drop_first();
        assert forall|j: int| 0 <= j < i - 1 implies t[j] != c by {
            assert(t[j] == s[j + 1]);
        }
        lemma_index_of_char(t, c, i - 1);
    }
}

/// Whether two strings hold the same characters.
fn same_text(a: &str, b: &str) -> (res: bool)
    ensures
        res == (a@ == b@),
{
    let n = a.unicode_len();
    if n != b.unicode_len() {
        return false;
    }
    let mut i: usize = 0;
    while i < n
        invariant
            n == a@.len(),
            n == b@.len(),
            i <= n,
            forall|j: int| 0 <= j < i ==> a@[j] == b@[j],
        decreases n - i,
    {
        if a.get_char(i) != b.get_char(i) {
            return false;
        }
        i += 1;
    }
    assert(a@ =~= b@);
    true
}

/// A resource member other than `binding`, `group`, `input` and `output`.
pub open spec fn bad_resource_member(m: ResourceMembers) -> bool {
    m matches ResourceMembers::Numeric(name, _) && name@ != "binding"@ && name@ != "group"@
}

/// The index of the first bad member of `ms`.
pub open spec fn first_bad_resource_member(ms: Seq<ResourceMembers>) -> Option<int>
    decreases ms.len(),
{
    if ms.len() == 0 {
        None
    } else {
        match first_bad_resource_member(ms.drop_last()) {
            Some(k) => Some(k),
            None => if bad_resource_member(ms.last()) {
                Some(ms.len() - 1)
            } else {
                None
            },
        }
    }
}

/// The last binding, group, input and output given by the members `ms`.
pub open spec fn resource_fields(ms: Seq<ResourceMembers>) -> (
    Option<String>,
    Option<String>,
    Option<String>,
    Option<String>,
)
    decreases ms.len(),
{
    if ms.len() == 0 {
        (None, None, None, None)
    } else {
        let (b, g, i, o) = resource_fields(ms.drop_last());
        match ms.last() {
            ResourceMembers::Input(v) => (b, g, Some(v), o),
            ResourceMembers::Output(v) => (b, g, i, Some(v)),
            ResourceMembers::Numeric(name, v) => if name@ == "binding"@ {
                (Some(v), g, i, o)
            } else if name@ == "group"@ {
                (b, Some(v), i, o)
            } else {
                (b, g, i, o)
            },
        }
    }
}

/// What building a resource from the members `ms` at `info` gives.
pub open spec fn resource_result(ms: Seq<ResourceMembers>, info: Info, res: Result<ExternResource, CustomParsingError>) -> bool {
    let at = info_text(info);
    match first_bad_resource_member(ms) {
        Some(k) => res matches Err(e) && parse_error(
            info,
            "Invalid member '"@ + resource_member_text(ms[k]) + "' in extern definition"@,
            e,
        ),
        None => {
            let (b, g, i, o) = resource_fields(ms);
            if b is None {
                res matches Err(e) && parse_error(info, "Resource at "@ + at + " missing field \"binding\""@, e)
            } else if g is None {
                res matches Err(e) && parse_error(info, "Resource at "@ + at + " missing field \"group\""@, e)
            } else if i is Some == o is Some {
                res matches Err(e) && parse_error(
                    info,
                    "Resource at "@ + at + " must have exactly one input or output field"@,
                    e,
                )
            } else {
                match (spec_parse_usize(b->0@), spec_parse_usize(g->0@)) {
                    (Err(eb), _) => res matches Err(e) && parse_error(
                        info,
                        "Resource at "@ + at + " has invalid binding "@ + int_error_text(eb),
                        e,
                    ),
                    (Ok(_), Err(eg)) => res matches Err(e) && parse_error(
                        info,
                        "Resource at "@ + at + " has invalid group "@ + int_error_text(eg),
                        e,
                    ),
                    (Ok(vb), Ok(vg)) => res matches Ok(x) && x.binding == vb && x.group == vg && x.caiman_val
                        == match i {
                        Some(name) => InputOrOutputVal::Input(name),
                        None => InputOrOutputVal::Output(o->0),
                    },
                }
            }
        },
    }
}

/// A bad member found in a prefix stays the first bad member of the whole list.
proof fn lemma_first_bad_resource_prefix(ms: Seq<ResourceMembers>, k: int)
    requires
        0 <= k <= ms.len(),
        first_bad_resource_member(ms.take(k)) is Some,
    ensures
        first_bad_resource_member(ms) == first_bad_resource_member(ms.take(k)),
    decreases ms.len() - k,
{
    if k < ms.len() {
        assert(ms.take(k + 1).drop_last() =~= ms.take(k));
        lemma_first_bad_resource_prefix(ms, k + 1);
    } else {
        assert(ms.take(k) =~= ms);
    }
}

/// The message `prefix`, the location `info`, then `suffix`.
fn located_message(prefix: &str, info: Info, suffix: &str) -> (res: String)
    ensures
        res@ == prefix@ + info_text(info) + suffix@,
{
    let mut msg = text_of(prefix);
    msg.append(info.to_text().as_str());
    msg.append(suffix);
    msg
}

impl ASTFactory {
    /// Builds a resource of an extern function from its members, given in any
    /// order (a later member overrides an earlier one of the same kind).
    pub fn extern_resource(&self, l: usize, v: Vec<ResourceMembers>, r: usize) -> (res: Result<
        ExternResource,
        CustomParsingError,
    >)
        requires
            self.in_range(l, r),
        ensures
            resource_result(v@, self.spec_info(l, r), res),
    {
        let src_info = self.info(l, r);
        let ghost ms = v@;
        let _n = v.len();
        let mut rest = v;
        let mut binding: Option<String> = None;
        let mut group: Option<String> = None;
        let mut input: Option<String> = None;
        let mut output: Option<String> = None;
        let mut k: usize = 0;
        while rest.len() > 0
            invariant
                ms == v@,
                src_info == self.spec_info(l, r),
                k + rest@.len() == ms.len(),
                ms.len() <= usize::MAX,
                rest@ == ms.subrange(k as int, ms.len() as int),
                first_bad_resource_member(ms.take(k as int)) is None,
                (binding, group, input, output) == resource_fields(ms.take(k as int)),
            decreases rest@.len(),
        {
            let m = rest.remove(0);
            assert(ms.take(k + 1).drop_last() =~= ms.take(k as int));
            assert(ms.take(k + 1).last() == m);
            match m {
                ResourceMembers::Input(val) => {
                    input = Some(val);
                },
                ResourceMembers::Output(val) => {
                    output = Some(val);
                },
                ResourceMembers::Numeric(name, val) => {
                    if same_text(name.as_str(), "binding") {
                        binding = Some(val);
                    } else if same_text(name.as_str(), "group") {
                        group = Some(val);
                    } else {
                        let m2 = ResourceMembers::Numeric(name, val);
                        proof {
                            assert(first_bad_resource_member(ms.take(k + 1)) == Some(k as int));
                            lemma_first_bad_resource_prefix(ms, k + 1);
                            assert(ms[k as int] == m2);
                        }
                        let mut msg = text_of("Invalid member '");
                        msg.append(m2.to_text().as_str());
                        msg.append("' in extern definition");
                        return Err(CustomParsingError { loc: src_info, msg });
                    }
                },
            }
            k += 1;
        }
        assert(ms.take(k as int) =~= ms);
        if binding.is_none() {
            let msg = located_message("Resource at ", src_info, " missing field \"binding\"");
            return Err(CustomParsingError { loc: src_info, msg });
        }
        if group.is_none() {
            let msg = located_message("Resource at ", src_info, " missing field \"group\"");
            return Err(CustomParsingError { loc: src_info, msg });
        }
        if input.is_some() == output.is_some() {
            let msg = located_message("Resource at ", src_info, " must have exactly one input or output field");
            return Err(CustomParsingError { loc: src_info, msg });
        }
        let b = match &binding {
            Some(b) => parse_usize(b.as_str()),
            None => Err(crate::text::IntErrorKind::Empty),
        };
        let bv = match b {
            Ok(x) => x,
            Err(e) => {
                let mut msg = located_message("Resource at ", src_info, " has invalid binding ");
                msg.append(int_error_message(e).as_str());
                return Err(CustomParsingError { loc: src_info, msg });
            },
        };
        let g = match &group {
            Some(g) => parse_usize(g.as_str()),
            None => Err(crate::text::IntErrorKind::Empty),
        };
        let gv = match g {
            Ok(x) => x,
            Err(e) => {
                let mut msg = located_message("Resource at ", src_info, " has invalid group ");
                msg.append(int_error_message(e).as_str());
                return Err(CustomParsingError { loc: src_info, msg });
            },
        };
        let caiman_val = match input {
            Some(name) => InputOrOutputVal::Input(name),
            None => match output {
                Some(name) => InputOrOutputVal::Output(name),
                None => {
                    proof {
                        assert(false);
                    }
                    InputOrOutputVal::Output(String::new())
                },
            },
        };
        Ok(ExternResource { binding: bv, group: gv, caiman_val })
    }
}

/// A member of an extern definition that is no `path`, `entry`, `dimensions` or resource.
pub open spec fn bad_def_member(m: ExternDefMembers) -> bool {
    match m {
        ExternDefMembers::StrVal(key, _) => key@ != "path"@ && key@ != "entry"@,
        ExternDefMembers::Dimensions(key, _) => key@ != "dimensions"@,
        ExternDefMembers::Resource(_) => false,
    }
}

/// The index of the first bad member of `ms`.
pub open spec fn first_bad_def_member(ms: Seq<ExternDefMembers>) -> Option<int>
    decreases ms.len(),
{
    if ms.len() == 0 {
        None
    } else {
        match first_bad_def_member(ms.drop_last()) {
            Some(k) => Some(k),
            None => if bad_def_member(ms.last()) {
                Some(ms.len() - 1)
            } else {
                None
            },
        }
    }
}

/// Every `dimensions` member read before the first bad member is a number.
pub open spec fn dimensions_parse(ms: Seq<ExternDefMembers>) -> bool {
    forall|k: int|
        0 <= k < ms.len() && first_bad_def_member(ms.take(k)) is None ==> match #[trigger] ms[k] {
            ExternDefMembers::Dimensions(key, v) => key@ == "dimensions"@ ==> spec_parse_usize(v@) is Ok,
            _ => true,
        }
}

/// The path, entry, dimensions and resources given by the members `ms`: the last
/// of each, and all resources in order.
pub open spec fn def_fields(ms: Seq<ExternDefMembers>) -> (Seq<char>, Seq<char>, usize, Seq<ExternResource>)
    decreases ms.len(),
{
    if ms.len() == 0 {
        (Seq::empty(), Seq::empty(), usize::MAX, Seq::empty())
    } else {
        let (p, e, d, rs) = def_fields(ms.drop_last());
        match ms.last() {
            ExternDefMembers::StrVal(key, v) => if key@ == "path"@ {
                (v@, e, d, rs)
            } else if key@ == "entry"@ {
                (p, v@, d, rs)
            } else {
                (p, e, d, rs)
            },
            ExternDefMembers::Dimensions(key, v) => if key@ == "dimensions"@ {
                (p, e, spec_parse_usize(v@)->Ok_0, rs)
            } else {
                (p, e, d, rs)
            },
            ExternDefMembers::Resource(x) => (p, e, d, rs.push(x)),
        }
    }
}

/// What building an extern definition from the members `ms` at `info` gives.
pub open spec fn def_result(ms: Seq<ExternDefMembers>, info: Info, res: Result<ExternDef, CustomParsingError>) -> bool {
    let at = info_text(info);
    match first_bad_def_member(ms) {
        Some(k) => res matches Err(e) && parse_error(
            info,
            "Extern definition at "@ + at + " has invalid member "@ + extern_member_text(ms[k]),
            e,
        ),
        None => {
            let (p, en, d, rs) = def_fields(ms);
            if p.len() == 0 || en.len() == 0 {
                res matches Err(e) && parse_error(
                    info,
                    "Extern definition at "@ + at + " missing field \"path\""@,
                    e,
                )
            } else if d == usize::MAX {
                res matches Err(e) && parse_error(
                    info,
                    "Extern definition at "@ + at + " missing field \"dimensions\""@,
                    e,
                )
            } else {
                res matches Ok(x) && x.path@ == p && x.entry@ == en && x.dimensions == d && x.resources@ == rs
            }
        },
    }
}

/// A bad member found in a prefix stays the first bad member of the whole list.
proof fn lemma_first_bad_def_prefix(ms: Seq<ExternDefMembers>, k: int)
    requires
        0 <= k <= ms.len(),
        first_bad_def_member(ms.take(k)) is Some,
    ensures
        first_bad_def_member(ms) == first_bad_def_member(ms.take(k)),
    decreases ms.len() - k,
{
    if k < ms.len() {
        assert(ms.take(k + 1).drop_last() =~= ms.take(k));
        lemma_first_bad_def_prefix(ms, k + 1);
    } else {
        assert(ms.take(k) =~= ms);
    }
}

impl ASTFactory {
    /// Builds an extern definition from its members, given in any order (a later
    /// member overrides an earlier one; resources are all kept, in order).
    pub fn extern_def(&self, l: usize, members: Vec<ExternDefMembers>, r: usize) -> (res: Result<
        ExternDef,
        CustomParsingError,
    >)
        requires
            self.in_range(l, r),
            dimensions_parse(members@),
        ensures
            def_result(members@, self.spec_info(l, r), res),
    {
        let info = self.info(l, r);
        let ghost ms = members@;
        let _n = members.len();
        let mut rest = members;
        let mut def = ExternDef {
            path: String::new(),
            entry: String::new(),
            dimensions: usize::MAX,
            resources: Vec::new(),
        };
        let mut k: usize = 0;
        while rest.len() > 0
            invariant
                ms == members@,
                info == self.spec_info(l, r),
                dimensions_parse(ms),
                k + rest@.len() == ms.len(),
                ms.len() <= usize::MAX,
                rest@ == ms.subrange(k as int, ms.len() as int),
                first_bad_def_member(ms.take(k as int)) is None,
                (def.path@, def.entry@, def.dimensions, def.resources@) == def_fields(ms.take(k as int)),
            decreases rest@.len(),
        {
            let m = rest.remove(0);
            assert(ms.take(k + 1).drop_last() =~= ms.take(k as int));
            assert(ms.take(k + 1).last() == m);
            assert(ms[k as int] == m);
            match m {
                ExternDefMembers::StrVal(key, v) => {
                    if same_text(key.as_str(), "path") {
                        def.path = v;
                    } else if same_text(key.as_str(), "entry") {
                        def.entry = v;
                    } else {
                        let m2 = ExternDefMembers::StrVal(key, v);
                        proof {
                            assert(first_bad_def_member(ms.take(k + 1)) == Some(k as int));
                            lemma_first_bad_def_prefix(ms, k + 1);
                        }
                        let mut msg = located_message("Extern definition at ", info, " has invalid member ");
                        msg.append(m2.to_text().as_str());
                        return Err(CustomParsingError { loc: info, msg });
                    }
                },
                ExternDefMembers::Dimensions(key, v) => {
                    if same_text(key.as_str(), "dimensions") {
                        match parse_usize(v.as_str()) {
                            Ok(d) => {
                                def.dimensions = d;
                            },
                            Err(_) => {
                                proof {
                                    assert(false);
                                }
                            },
                        }
                    } else {
                        let m2 = ExternDefMembers::Dimensions(key, v);
                        proof {
                            assert(first_bad_def_member(ms.take(k + 1)) == Some(k as int));
                            lemma_first_bad_def_prefix(ms, k + 1);
                        }
                        let mut msg = located_message("Extern definition at ", info, " has invalid member ");
                        msg.append(m2.to_text().as_str());
                        return Err(CustomParsingError { loc: info, msg });
                    }
                },
                ExternDefMembers::Resource(x) => {
                    def.resources.push(x);
                },
            }
            k += 1;
        }
        assert(ms.take(k as int) =~= ms);
        if def.path.unicode_len() == 0 {
            let msg = located_message("Extern definition at ", info, " missing field \"path\"");
            return Err(CustomParsingError { loc: info, msg });
        }
        if def.entry.unicode_len() == 0 {
            let msg = located_message("Extern definition at ", info, " missing field \"path\"");
            return Err(CustomParsingError { loc: info, msg });
        }
        if def.dimensions == usize::MAX {
            let msg = located_message("Extern definition at ", info, " missing field \"dimensions\"");
            return Err(CustomParsingError { loc: info, msg });
        }
        Ok(def)
    }
}

/// Looking a name up right after defining it gives the type defined: `type_def`
/// leaves the definition last, and `user_defined_type` returns a copy of the
/// latest definition of the name, so the type returned is the type defined.
pub proof fn law_type_def_then_lookup(f: ASTFactory, name: String, typ: DataType, d: DataType)
    requires
        f.type_defs().len() > 0,
        f.type_defs().last().0@ == name@,
        same_data_type(typ, f.type_defs().last().1),
        latest_type(f.type_defs(), name@) matches Some(t) && same_data_type(t, d),
    ensures
        latest_type(f.type_defs(), name@) == Some(f.type_defs().last().1),
        same_data_type(typ, d),
{
    lemma_same_data_type_trans(typ, f.type_defs().last().1, d);
}

/// A name that no definition gives has no type: `user_defined_type` reports it
/// as undefined.
pub proof fn law_undefined_type(f: ASTFactory, name: Seq<char>)
    requires
        forall|i: int| 0 <= i < f.type_defs().len() ==> #[trigger] f.type_defs()[i].0@ != name,
    ensures
        latest_type(f.type_defs(), name) is None,
{
    lemma_latest_none(f.type_defs(), name);
}

/// The list form of `law_undefined_type`.
proof fn lemma_latest_none(defs: Seq<(String, DataType)>, name: Seq<char>)
    requires
        forall|i: int| 0 <= i < defs.len() ==> #[trigger] defs[i].0@ != name,
    ensures
        latest_type(defs, name) is None,
    decreases defs.len(),
{
    if defs.len() > 0 {
        assert(defs[defs.len() - 1].0@ != name);
        assert forall|i: int| 0 <= i < defs.drop_last().len() implies #[trigger] defs.drop_last()[i].0@ != name by {
            assert(defs.drop_last()[i] == defs[i]);
        }
        lemma_latest_none(defs.drop_last(), name);
    }
}

} // verus!
