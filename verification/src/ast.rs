//! Abstract syntax for the steer workflow DSL.
//!
//! The AST is produced by [`crate::parser`] and consumed by validation and the
//! interpreter. Every node carries a source [`Span`](crate::source::Span).

use vstd::prelude::*;

use crate::source::{span_ok, Span, Spanned};
use crate::text::owned;

verus! {

/// A parsed workflow module: a top-level block of statements.
#[derive(Debug, PartialEq)]
pub struct Module {
    pub body: Vec<Spanned<Stmt>>,
}

/// One condition/body pair in an `if`/`elseif` chain.
#[derive(Debug, PartialEq)]
pub struct IfBranch {
    /// The condition of this `if` or `elseif` branch.
    pub cond: Box<Spanned<Expr>>,
    /// The block executed when `cond` is truthy.
    pub body: Vec<Spanned<Stmt>>,
}

/// A statement.
#[derive(Debug, PartialEq)]
pub enum Stmt {
    /// `@key = value` — a workflow-level runtime directive.
    Meta { key: String, value: Box<Spanned<Expr>> },
    /// `target = value`
    Assign { target: String, value: Box<Spanned<Expr>> },
    /// A call used as a standalone statement for its effects, e.g. `task(...)`.
    Call(Call),
    /// `if c1 ... elseif c2 ... else ... end`: the `if` branch first, then each
    /// `elseif` in source order; `else_block` is the optional trailing `else`.
    If { branches: Vec<IfBranch>, else_block: Option<Vec<Spanned<Stmt>>> },
    /// `loop ... until cond` — post-test, so the body always runs at least once.
    LoopUntil { body: Vec<Spanned<Stmt>>, cond: Box<Spanned<Expr>> },
    /// `for var in iterable ... end`
    For { var: String, iterable: Box<Spanned<Expr>>, body: Vec<Spanned<Stmt>> },
    /// `func name(params) ... end`
    Function { name: String, params: Vec<String>, body: Vec<Spanned<Stmt>> },
    /// `return [value]`
    Return { value: Option<Box<Spanned<Expr>>> },
}

/// An expression.
#[derive(Debug, PartialEq)]
pub enum Expr {
    Int(i64),
    /// A decimal literal, kept as its source text.
    Float(String),
    /// A string literal, possibly with `{expr}` interpolations.
    String(Vec<StringPart>),
    /// A list literal `[a, b, c]`.
    List(Vec<Spanned<Expr>>),
    /// A bare identifier naming a variable.
    Var(String),
    /// A function / action-node call.
    Call(Call),
    /// A binary operation such as `+`, `==`, or `<`.
    Binary { op: BinaryOp, lhs: Box<Spanned<Expr>>, rhs: Box<Spanned<Expr>> },
    /// A unary operation: numeric negation or logical `not`.
    Unary { op: UnaryOp, expr: Box<Spanned<Expr>> },
}

/// A segment of a string literal.
#[derive(Debug, PartialEq)]
pub enum StringPart {
    /// A literal run of characters.
    Literal(String),
    /// An interpolation `{ expr }`, parsed into an expression.
    Interpolation(Box<Spanned<Expr>>),
}

/// A call to a function or action node.
#[derive(Debug, PartialEq)]
pub struct Call {
    /// The callee name, e.g. `task`, `ask`, `command`, or a user `func`.
    pub callee: String,
    /// Positional arguments first, then named arguments.
    pub args: Vec<Spanned<CallArg>>,
}

/// A call argument: positional or named.
#[derive(Debug, PartialEq)]
pub enum CallArg {
    /// A positional argument.
    Positional(Box<Spanned<Expr>>),
    /// A named argument such as `return="..."`.
    Named { name: String, value: Box<Spanned<Expr>> },
}

/// A binary operator.
#[derive(Debug, Clone, Copy, PartialEq, Eq, Structural)]
pub enum BinaryOp {
    Add,
    Sub,
    Mul,
    Div,
    Eq,
    Ne,
    Lt,
    Gt,
    Le,
    Ge,
    And,
    Or,
}

/// A unary operator.
#[derive(Debug, Clone, Copy, PartialEq, Eq, Structural)]
pub enum UnaryOp {
    /// Numeric negation, written `-`.
    Neg,
    /// Logical `not`: truthiness inversion.
    Not,
}

impl CallArg {
    /// The name of a named argument, or `None` for positional ones.
    pub fn name(&self) -> (r: Option<&str>)
        ensures
            match self {
                CallArg::Named { name, .. } => r is Some && r->0@ == name@,
                CallArg::Positional(_) => r is None,
            },
    {
        match self {
            CallArg::Named { name, .. } => Some(name.as_str()),
            CallArg::Positional(_) => None,
        }
    }

    /// The argument's expression, positional or named.
    pub fn expr(&self) -> (r: &Spanned<Expr>)
        ensures
            match self {
                CallArg::Named { value, .. } => *r == **value,
                CallArg::Positional(e) => *r == **e,
            },
    {
        match self {
            CallArg::Named { value, .. } => value,
            CallArg::Positional(e) => e,
        }
    }
}

/// Word operators that are not identifiers: they may not be used as a
/// variable, an assignment target, or a named-argument name.
pub open spec fn is_operator_keyword(s: Seq<char>) -> bool {
    s == "not"@ || s == "and"@ || s == "or"@ || s == "in"@
}

/// Positional arguments all precede named ones.
pub open spec fn args_ordered(args: Seq<Spanned<CallArg>>) -> bool {
    forall|a: int, b: int|
        0 <= a < b < args.len() && (#[trigger] args[a]).value is Named ==> (#[trigger] args[b]).value is Named
}

/// The grammar's constraints on an expression: every span is well formed,
/// no variable or named argument uses a word operator as its name, and in
/// every call the positional arguments come first.
pub open spec fn expr_wf(e: Spanned<Expr>) -> bool
    decreases e,
{
    &&& span_ok(e.span)
    &&& match e.value {
        Expr::Var(name) => !is_operator_keyword(name@),
        Expr::String(parts) => forall|k: int|
            0 <= k < parts@.len() ==> part_wf(#[trigger] parts@[k]),
        Expr::List(elems) => forall|k: int|
            0 <= k < elems@.len() ==> expr_wf(#[trigger] elems@[k]),
        Expr::Call(c) => call_wf(c),
        Expr::Binary { lhs, rhs, .. } => expr_wf(*lhs) && expr_wf(*rhs),
        Expr::Unary { expr, .. } => expr_wf(*expr),
        _ => true,
    }
}

pub open spec fn part_wf(p: StringPart) -> bool
    decreases p,
{
    match p {
        StringPart::Interpolation(e) => expr_wf(*e),
        StringPart::Literal(_) => true,
    }
}

pub open spec fn call_wf(c: Call) -> bool
    decreases c,
{
    &&& args_ordered(c.args@)
    &&& forall|k: int| 0 <= k < c.args@.len() ==> arg_wf(#[trigger] c.args@[k])
}

pub open spec fn arg_wf(a: Spanned<CallArg>) -> bool
    decreases a,
{
    &&& span_ok(a.span)
    &&& match a.value {
        CallArg::Positional(e) => expr_wf(*e),
        CallArg::Named { name, value } => !is_operator_keyword(name@) && expr_wf(*value),
    }
}

/// The grammar's constraints on a statement: assignment targets are not word
/// operators, and every expression inside is well formed.
pub open spec fn stmt_wf(s: Spanned<Stmt>) -> bool
    decreases s,
{
    &&& span_ok(s.span)
    &&& match s.value {
        Stmt::Meta { value, .. } => expr_wf(*value),
        Stmt::Assign { target, value } => !is_operator_keyword(target@) && expr_wf(*value),
        Stmt::Call(c) => call_wf(c),
        Stmt::If { branches, else_block } => {
            &&& branches@.len() >= 1
            &&& forall|k: int| 0 <= k < branches@.len() ==> branch_wf(#[trigger] branches@[k])
            &&& match else_block {
                Some(b) => forall|k: int| 0 <= k < b@.len() ==> stmt_wf(#[trigger] b@[k]),
                None => true,
            }
        },
        Stmt::LoopUntil { body, cond } => expr_wf(*cond) && forall|k: int|
            0 <= k < body@.len() ==> stmt_wf(#[trigger] body@[k]),
        Stmt::For { iterable, body, .. } => expr_wf(*iterable) && forall|k: int|
            0 <= k < body@.len() ==> stmt_wf(#[trigger] body@[k]),
        Stmt::Function { body, .. } => forall|k: int|
            0 <= k < body@.len() ==> stmt_wf(#[trigger] body@[k]),
        Stmt::Return { value } => match value {
            Some(v) => expr_wf(*v),
            None => true,
        },
    }
}

pub open spec fn branch_wf(b: IfBranch) -> bool
    decreases b,
{
    &&& expr_wf(*b.cond)
    &&& forall|k: int| 0 <= k < b.body@.len() ==> stmt_wf(#[trigger] b.body@[k])
}

pub open spec fn block_wf(b: Seq<Spanned<Stmt>>) -> bool {
    forall|k: int| 0 <= k < b.len() ==> stmt_wf(#[trigger] b[k])
}

/// Whether `s` names a word operator.
pub fn operator_keyword(s: &str) -> (r: bool)
    ensures
        r == is_operator_keyword(s@),
{
    crate::text::str_eq(s, "not") || crate::text::str_eq(s, "and") || crate::text::str_eq(s, "or")
        || crate::text::str_eq(s, "in")
}

/// An owned copy of a name.
pub fn name_of(s: &str) -> (r: String)
    ensures
        r@ == s@,
{
    owned(s)
}


// ---- the model of the syntax tree: names as their text ----

pub struct SExprV {
    pub value: ExprV,
    pub span: Span,
}

pub enum ExprV {
    Int(i64),
    Float(Seq<char>),
    Str(Seq<PartV>),
    List(Seq<SExprV>),
    Var(Seq<char>),
    Call(CallV),
    Binary { op: BinaryOp, lhs: Box<SExprV>, rhs: Box<SExprV> },
    Unary { op: UnaryOp, expr: Box<SExprV> },
}

pub enum PartV {
    Literal(Seq<char>),
    Interpolation(Box<SExprV>),
}

pub struct CallV {
    pub callee: Seq<char>,
    pub args: Seq<SArgV>,
}

pub struct SArgV {
    pub value: ArgV,
    pub span: Span,
}

pub enum ArgV {
    Positional(Box<SExprV>),
    Named { name: Seq<char>, value: Box<SExprV> },
}

pub struct SStmtV {
    pub value: StmtV,
    pub span: Span,
}

pub enum StmtV {
    Meta { key: Seq<char>, value: Box<SExprV> },
    Assign { target: Seq<char>, value: Box<SExprV> },
    Call(CallV),
    If { branches: Seq<BranchV>, else_block: Option<Seq<SStmtV>> },
    LoopUntil { body: Seq<SStmtV>, cond: Box<SExprV> },
    For { var: Seq<char>, iterable: Box<SExprV>, body: Seq<SStmtV> },
    Function { name: Seq<char>, params: Seq<Seq<char>>, body: Seq<SStmtV> },
    Return { value: Option<Box<SExprV>> },
}

pub struct BranchV {
    pub cond: Box<SExprV>,
    pub body: Seq<SStmtV>,
}

/// The model of an expression.
pub open spec fn expr_view(e: Spanned<Expr>) -> SExprV
    decreases e,
{
    SExprV {
        value: match e.value {
            Expr::Int(n) => ExprV::Int(n),
            Expr::Float(s) => ExprV::Float(s@),
            Expr::String(parts) => ExprV::Str(
                Seq::new(
                    parts@.len(),
                    |i: int|
                        if 0 <= i < parts@.len() {
                            part_view(parts@[i])
                        } else {
                            PartV::Literal(Seq::empty())
                        },
                ),
            ),
            Expr::List(xs) => ExprV::List(
                Seq::new(
                    xs@.len(),
                    |i: int|
                        if 0 <= i < xs@.len() {
                            expr_view(xs@[i])
                        } else {
                            SExprV { value: ExprV::Int(0), span: e.span }
                        },
                ),
            ),
            Expr::Var(n) => ExprV::Var(n@),
            Expr::Call(c) => ExprV::Call(call_view(c)),
            Expr::Binary { op, lhs, rhs } => ExprV::Binary {
                op,
                lhs: Box::new(expr_view(*lhs)),
                rhs: Box::new(expr_view(*rhs)),
            },
            Expr::Unary { op, expr } => ExprV::Unary { op, expr: Box::new(expr_view(*expr)) },
        },
        span: e.span,
    }
}

pub open spec fn part_view(p: StringPart) -> PartV
    decreases p,
{
    match p {
        StringPart::Literal(s) => PartV::Literal(s@),
        StringPart::Interpolation(e) => PartV::Interpolation(Box::new(expr_view(*e))),
    }
}

pub open spec fn call_view(c: Call) -> CallV
    decreases c,
{
    CallV {
        callee: c.callee@,
        args: Seq::new(
            c.args@.len(),
            |i: int|
                if 0 <= i < c.args@.len() {
                    arg_view(c.args@[i])
                } else {
                    SArgV { value: ArgV::Named { name: Seq::empty(), value: Box::new(SExprV { value: ExprV::Int(0), span: Span { start: 0, end: 0 } }) }, span: Span { start: 0, end: 0 } }
                },
        ),
    }
}

pub open spec fn arg_view(a: Spanned<CallArg>) -> SArgV
    decreases a,
{
    SArgV {
        value: match a.value {
            CallArg::Positional(e) => ArgV::Positional(Box::new(expr_view(*e))),
            CallArg::Named { name, value } => ArgV::Named { name: name@, value: Box::new(expr_view(*value)) },
        },
        span: a.span,
    }
}

/// The model of a statement.
pub open spec fn stmt_view(s: Spanned<Stmt>) -> SStmtV
    decreases s,
{
    SStmtV {
        value: match s.value {
            Stmt::Meta { key, value } => StmtV::Meta { key: key@, value: Box::new(expr_view(*value)) },
            Stmt::Assign { target, value } => StmtV::Assign { target: target@, value: Box::new(expr_view(*value)) },
            Stmt::Call(c) => StmtV::Call(call_view(c)),
            Stmt::If { branches, else_block } => StmtV::If {
                branches: Seq::new(
                    branches@.len(),
                    |i: int|
                        if 0 <= i < branches@.len() {
                            branch_view(branches@[i])
                        } else {
                            BranchV { cond: Box::new(SExprV { value: ExprV::Int(0), span: s.span }), body: Seq::empty() }
                        },
                ),
                else_block: match else_block {
                    Some(b) => Some(block_view(b@)),
                    None => None,
                },
            },
            Stmt::LoopUntil { body, cond } => StmtV::LoopUntil {
                body: block_view(body@),
                cond: Box::new(expr_view(*cond)),
            },
            Stmt::For { var, iterable, body } => StmtV::For {
                var: var@,
                iterable: Box::new(expr_view(*iterable)),
                body: block_view(body@),
            },
            Stmt::Function { name, params, body } => StmtV::Function {
                name: name@,
                params: Seq::new(params@.len(), |i: int| params@[i]@),
                body: block_view(body@),
            },
            Stmt::Return { value } => StmtV::Return {
                value: match value {
                    Some(v) => Some(Box::new(expr_view(*v))),
                    None => None,
                },
            },
        },
        span: s.span,
    }
}

pub open spec fn branch_view(b: IfBranch) -> BranchV
    decreases b,
{
    BranchV { cond: Box::new(expr_view(*b.cond)), body: block_view(b.body@) }
}

/// The model of a block.
pub open spec fn block_view(b: Seq<Spanned<Stmt>>) -> Seq<SStmtV>
    decreases b,
{
    Seq::new(
        b.len(),
        |i: int|
            if 0 <= i < b.len() {
                stmt_view(b[i])
            } else {
                SStmtV { value: StmtV::Return { value: None }, span: Span { start: 0, end: 0 } }
            },
    )
}

} // verus!
