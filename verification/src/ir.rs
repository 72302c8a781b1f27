//! Lowering from the AST to a flat instruction stream.
//!
//! The interpreter steps a program one action node at a time, pausing for the
//! agent between them. To make that resumable across invocations, the program
//! is compiled to a flat `Vec<Instr>` whose program counter is simply an
//! index. Control flow becomes explicit jumps; `for` keeps its iteration
//! state in a hidden slot (`loop ... until` is a plain back-edge with no
//! slot); function calls record a return address in a call stack.
//!
//! `return` is one instruction: inside a function it pops a frame, at the top
//! level it halts the run. A top-level return value is ignored by design.

use vstd::prelude::*;

use crate::ast::{Call, CallArg, Expr, IfBranch, Module, Stmt};
use crate::context::opt_text;
use crate::source::Spanned;
use crate::text::{int_text, owned, push_str, str_eq};

verus! {

/// A single instruction of the lowered program. Targets are indices into the
/// instruction vector.
#[derive(Debug, PartialEq)]
pub enum Instr {
    /// Update workflow metadata at runtime.
    SetMeta { key: String, expr: Expr },
    /// An action node such as `task`, `ask` or `command`. `into` is the
    /// variable that receives its value when it is assigned or returned.
    /// Blocks until the agent reports.
    AgentOp { call: Call, into: Option<String> },
    /// Evaluate `expr` and bind it to `var`.
    Assign { var: String, expr: Expr },
    /// Jump to `target` if `cond` is falsy.
    JumpIfFalse { cond: Expr, target: u32 },
    /// Unconditional jump to `target`.
    Jump { target: u32 },
    /// Initialise a `for` loop: evaluate `list` into the hidden slot `iter`.
    ForInit { iter: String, list: Expr },
    /// `for` iteration: pop the next element of slot `iter` into `var`, or
    /// jump to `end` when the slot is exhausted.
    ForIter { iter: String, var: String, end: u32 },
    /// Call a user function: bind `params` to `args`, jump to `entry`; the
    /// return value binds to `into` when present.
    Call { entry: u32, params: Vec<String>, args: Vec<Expr>, into: Option<String> },
    /// Return from a function (or halt the run at the top level).
    Return { value: Option<Expr> },
    /// End of program.
    Halt,
}

/// The jump targets of an instruction lie within a program of `n`
/// instructions (a target may be `n` itself: the end).
pub open spec fn targets_ok(ins: Instr, n: nat) -> bool {
    match ins {
        Instr::JumpIfFalse { target, .. } => target <= n,
        Instr::Jump { target } => target <= n,
        Instr::ForIter { end, .. } => end <= n,
        Instr::Call { entry, .. } => entry <= n,
        _ => true,
    }
}

/// Every jump target of the program lies within it.
pub open spec fn ir_wf(code: Seq<Instr>) -> bool {
    forall|i: int| 0 <= i < code.len() ==> targets_ok(#[trigger] code[i], code.len())
}

// ---- the model of the lowered program ----

/// What a `Return` instruction returns.
pub enum RetV {
    /// Nothing: a bare `return`, or the closing return of a function body.
    Bare,
    /// The value of this expression.
    Value(Expr),
    /// The temporary `__ret`, which holds a returned call's value.
    Temp,
}

/// The model of an instruction, with names as their text.
pub enum InstrV {
    SetMeta { key: Seq<char>, expr: Expr },
    AgentOp { call: Call, into: Option<Seq<char>> },
    Assign { var: Seq<char>, expr: Expr },
    JumpIfFalse { cond: Expr, target: int },
    Jump { target: int },
    ForInit { iter: Seq<char>, list: Expr },
    ForIter { iter: Seq<char>, var: Seq<char>, end: int },
    Call { entry: int, params: Seq<Seq<char>>, args: Seq<Expr>, into: Option<Seq<char>> },
    Return { value: RetV },
    Halt,
}

pub open spec fn names_view(v: Seq<String>) -> Seq<Seq<char>> {
    Seq::new(v.len(), |i: int| v[i]@)
}

/// Whether instruction `i` is the one that `v` describes.
pub open spec fn lowered_as(i: Instr, v: InstrV) -> bool {
    match i {
        Instr::SetMeta { key, expr } => v == InstrV::SetMeta { key: key@, expr },
        Instr::AgentOp { call, into } => v == InstrV::AgentOp { call, into: opt_text(into) },
        Instr::Assign { var, expr } => v == InstrV::Assign { var: var@, expr },
        Instr::JumpIfFalse { cond, target } => v == InstrV::JumpIfFalse { cond, target: target as int },
        Instr::Jump { target } => v == InstrV::Jump { target: target as int },
        Instr::ForInit { iter, list } => v == InstrV::ForInit { iter: iter@, list },
        Instr::ForIter { iter, var, end } => v == InstrV::ForIter { iter: iter@, var: var@, end: end as int },
        Instr::Call { entry, params, args, into } => v == InstrV::Call {
            entry: entry as int,
            params: names_view(params@),
            args: args@,
            into: opt_text(into),
        },
        Instr::Return { value } => match v {
            InstrV::Return { value: RetV::Bare } => value is None,
            InstrV::Return { value: RetV::Value(e) } => value == Some(e),
            InstrV::Return { value: RetV::Temp } => value matches Some(Expr::Var(n)) && n@ == "__ret"@,
            _ => false,
        },
        Instr::Halt => v == InstrV::Halt,
    }
}

/// The program `code` is the one that `model` describes.
pub open spec fn lowered_to(code: Seq<Instr>, model: Seq<InstrV>) -> bool {
    &&& code.len() == model.len()
    &&& forall|i: int| 0 <= i < code.len() ==> lowered_as(#[trigger] code[i], model[i])
}

/// A user function as calls see it: its name, its parameters and its entry.
pub struct FuncV {
    pub name: Seq<char>,
    pub params: Seq<Seq<char>>,
    pub entry: int,
}

/// The index of the last function named `name` (a later definition wins),
/// or -1.
pub open spec fn find_func(fs: Seq<FuncV>, name: Seq<char>) -> int
    decreases fs.len(),
{
    if fs.len() == 0 {
        -1
    } else if fs.last().name == name {
        fs.len() - 1
    } else {
        find_func(fs.drop_last(), name)
    }
}

/// The expressions of the positional arguments, in order.
pub open spec fn positional(args: Seq<Spanned<CallArg>>) -> Seq<Expr>
    decreases args.len(),
{
    if args.len() == 0 {
        Seq::empty()
    } else {
        match args.last().value {
            CallArg::Positional(e) => positional(args.drop_last()).push(e.value),
            CallArg::Named { .. } => positional(args.drop_last()),
        }
    }
}

/// A value-position expression stored into `into`: a call of a user
/// function is a `Call`, any other call an `AgentOp`; any other expression
/// is an `Assign`, and nothing without a receiver.
pub open spec fn gen_value(e: Expr, into: Option<Seq<char>>, fs: Seq<FuncV>) -> Seq<InstrV> {
    match e {
        Expr::Call(c) => {
            let j = find_func(fs, c.callee@);
            if j >= 0 {
                seq![InstrV::Call { entry: fs[j].entry, params: fs[j].params, args: positional(c.args@), into }]
            } else {
                seq![InstrV::AgentOp { call: c, into }]
            }
        },
        _ => match into {
            Some(t) => seq![InstrV::Assign { var: t, expr: e }],
            None => Seq::empty(),
        },
    }
}

/// The hidden slot of the `n`-th `for` loop.
pub open spec fn slot_name(n: int) -> Seq<char> {
    "__for_"@ + int_text(n)
}

// ---- sizes ----

/// The number of instructions a statement lowers to.
pub open spec fn stmt_len(s: Spanned<Stmt>) -> nat
    decreases s,
{
    match s.value {
        Stmt::Meta { .. } => 1,
        Stmt::Assign { .. } => 1,
        Stmt::Call(_) => 1,
        Stmt::Return { value } => match value {
            Some(v) => if v.value is Call {
                2
            } else {
                1
            },
            None => 1,
        },
        Stmt::If { branches, else_block } => branches_len(branches@, branches@.len() as int, else_block is Some)
            + opt_block_len(else_block),
        Stmt::LoopUntil { body, .. } => block_len(body@) + 1,
        Stmt::For { body, .. } => block_len(body@) + 3,
        Stmt::Function { .. } => 0,
    }
}

pub open spec fn block_len(b: Seq<Spanned<Stmt>>) -> nat
    decreases b,
{
    if b.len() == 0 {
        0
    } else {
        block_len(b.drop_last()) + stmt_len(b.last())
    }
}

pub open spec fn opt_block_len(b: Option<Vec<Spanned<Stmt>>>) -> nat
    decreases b,
{
    match b {
        Some(b) => block_len(b@),
        None => 0,
    }
}

/// Whether branch `k` (counted from 0) of `n` is followed by a jump to the
/// end: every branch but the last is, and the last one when an `else`
/// follows.
pub open spec fn jumps_out(k: int, n: int, has_else: bool) -> bool {
    k != n - 1 || has_else
}

/// The number of instructions the first branches `bs` of an `if` with `n`
/// branches lower to: a test, the body, and maybe a jump to the end, each.
pub open spec fn branches_len(bs: Seq<IfBranch>, n: int, has_else: bool) -> nat
    decreases bs,
{
    if bs.len() == 0 {
        0
    } else {
        branches_len(bs.drop_last(), n, has_else) + 1 + block_len(bs.last().body@) + if jumps_out(
            bs.len() - 1,
            n,
            has_else,
        ) {
            1nat
        } else {
            0nat
        }
    }
}

/// The number of `for` loops a statement lowers (each takes a hidden slot).
pub open spec fn stmt_loops(s: Spanned<Stmt>) -> nat
    decreases s,
{
    match s.value {
        Stmt::If { branches, else_block } => branches_loops(branches@) + opt_block_loops(else_block),
        Stmt::LoopUntil { body, .. } => block_loops(body@),
        Stmt::For { body, .. } => block_loops(body@) + 1,
        _ => 0,
    }
}

pub open spec fn block_loops(b: Seq<Spanned<Stmt>>) -> nat
    decreases b,
{
    if b.len() == 0 {
        0
    } else {
        block_loops(b.drop_last()) + stmt_loops(b.last())
    }
}

pub open spec fn opt_block_loops(b: Option<Vec<Spanned<Stmt>>>) -> nat
    decreases b,
{
    match b {
        Some(b) => block_loops(b@),
        None => 0,
    }
}

pub open spec fn branches_loops(bs: Seq<IfBranch>) -> nat
    decreases bs,
{
    if bs.len() == 0 {
        0
    } else {
        branches_loops(bs.drop_last()) + block_loops(bs.last().body@)
    }
}

// ---- code generation ----

/// The instructions statement `s` lowers to when it starts at `pc`, after
/// `slot` hidden loop slots were taken, with the user functions `fs`.
pub open spec fn gen_stmt(s: Spanned<Stmt>, pc: int, slot: int, fs: Seq<FuncV>) -> Seq<InstrV>
    decreases s,
{
    match s.value {
        Stmt::Meta { key, value } => seq![InstrV::SetMeta { key: key@, expr: value.value }],
        Stmt::Assign { target, value } => gen_value(value.value, Some(target@), fs),
        Stmt::Call(call) => gen_value(Expr::Call(call), None, fs),
        Stmt::Return { value } => match value {
            None => seq![InstrV::Return { value: RetV::Bare }],
            Some(v) => if v.value is Call {
                gen_value(v.value, Some("__ret"@), fs).push(InstrV::Return { value: RetV::Temp })
            } else {
                seq![InstrV::Return { value: RetV::Value(v.value) }]
            },
        },
        Stmt::If { branches, else_block } => {
            let bs = branches@;
            let he = else_block is Some;
            let fall = pc + branches_len(bs, bs.len() as int, he);
            let end = fall + opt_block_len(else_block);
            gen_branches(bs, bs.len() as int, he, pc, slot, fall, end, fs) + match else_block {
                Some(eb) => gen_block(eb@, fall, slot + branches_loops(bs), fs),
                None => Seq::empty(),
            }
        },
        Stmt::LoopUntil { body, cond } => gen_block(body@, pc, slot, fs).push(
            InstrV::JumpIfFalse { cond: cond.value, target: pc },
        ),
        Stmt::For { var, iterable, body } => {
            let iter = slot_name(slot + 1);
            seq![
                InstrV::ForInit { iter, list: iterable.value },
                InstrV::ForIter { iter, var: var@, end: pc + 3 + block_len(body@) },
            ] + gen_block(body@, pc + 2, slot + 1, fs) + seq![InstrV::Jump { target: pc + 1 }]
        },
        Stmt::Function { .. } => Seq::empty(),
    }
}

/// The instructions a block lowers to: its statements, one after another.
pub open spec fn gen_block(b: Seq<Spanned<Stmt>>, pc: int, slot: int, fs: Seq<FuncV>) -> Seq<InstrV>
    decreases b,
{
    if b.len() == 0 {
        Seq::empty()
    } else {
        gen_block(b.drop_last(), pc, slot, fs) + gen_stmt(
            b.last(),
            pc + block_len(b.drop_last()),
            slot + block_loops(b.drop_last()),
            fs,
        )
    }
}

/// The first branches `bs` of an `if` with `n` branches starting at `pc`:
/// each a test that skips to the next test (the last one to `fall`, the
/// `else` block or the end), the body, and, unless it is the last branch
/// without an `else`, a jump to `end`.
pub open spec fn gen_branches(
    bs: Seq<IfBranch>,
    n: int,
    has_else: bool,
    pc: int,
    slot: int,
    fall: int,
    end: int,
    fs: Seq<FuncV>,
) -> Seq<InstrV>
    decreases bs,
{
    if bs.len() == 0 {
        Seq::empty()
    } else {
        let pre = bs.drop_last();
        let b = bs.last();
        let k = bs.len() - 1;
        let start = pc + branches_len(pre, n, has_else);
        let next = start + 1 + block_len(b.body@) + if jumps_out(k, n, has_else) {
            1int
        } else {
            0int
        };
        gen_branches(pre, n, has_else, pc, slot, fall, end, fs) + seq![
            InstrV::JumpIfFalse {
                cond: b.cond.value,
                target: if k == n - 1 {
                    fall
                } else {
                    next
                },
            },
        ] + gen_block(b.body@, start + 1, slot + branches_loops(pre), fs) + if jumps_out(k, n, has_else) {
            seq![InstrV::Jump { target: end }]
        } else {
            Seq::empty()
        }
    }
}

// ---- how lowered code ends ----

/// How the code of a statement ends: `None` when it is empty, `Some(true)`
/// when it ends in a `Return` that every path through it reaches, and
/// `Some(false)` when control can run off its end. An `if` with a branch can
/// always run off its end: a false condition, or the end of a branch, jumps
/// past it.
pub open spec fn stmt_tail(s: Spanned<Stmt>) -> Option<bool>
    decreases s,
{
    match s.value {
        Stmt::Return { .. } => Some(true),
        Stmt::Function { .. } => None,
        Stmt::If { branches, else_block } => if branches@.len() > 0 {
            Some(false)
        } else {
            match else_block {
                Some(eb) => block_tail(eb@),
                None => None,
            }
        },
        _ => Some(false),
    }
}

pub open spec fn block_tail(b: Seq<Spanned<Stmt>>) -> Option<bool>
    decreases b,
{
    if b.len() == 0 {
        None
    } else {
        match stmt_tail(b.last()) {
            Some(t) => Some(t),
            None => block_tail(b.drop_last()),
        }
    }
}

// ---- the whole program ----

/// A top-level function definition.
pub struct FuncDef {
    pub name: Seq<char>,
    pub params: Seq<Seq<char>>,
    pub body: Seq<Spanned<Stmt>>,
}

/// The functions defined at the top level of a block, in order.
pub open spec fn func_defs(b: Seq<Spanned<Stmt>>) -> Seq<FuncDef>
    decreases b.len(),
{
    if b.len() == 0 {
        Seq::empty()
    } else {
        match b.last().value {
            Stmt::Function { name, params, body } => func_defs(b.drop_last()).push(
                FuncDef { name: name@, params: names_view(params@), body: body@ },
            ),
            _ => func_defs(b.drop_last()),
        }
    }
}

/// Whether a function body whose code has tail `tail` needs no closing
/// `Return`: every path through it already ends in one. An empty body gets
/// one too, so that a call of it returns.
pub open spec fn ends_in_return(tail: Option<bool>) -> bool {
    tail == Some(true)
}

/// The instructions the function bodies `fs` take, each closed by a
/// `Return` unless every path through its code already ends in one (see
/// [`stmt_tail`]).
pub open spec fn funcs_len(fs: Seq<FuncDef>) -> nat
    decreases fs.len(),
{
    if fs.len() == 0 {
        0
    } else {
        let r = ends_in_return(block_tail(fs[0].body));
        block_len(fs[0].body) + (if r {
            0nat
        } else {
            1nat
        }) + funcs_len(fs.skip(1))
    }
}

/// The entry points of the function bodies `fs` laid out from `pos`.
pub open spec fn entries_from(fs: Seq<FuncDef>, pos: int) -> Seq<int>
    decreases fs.len(),
{
    if fs.len() == 0 {
        Seq::empty()
    } else {
        let r = ends_in_return(block_tail(fs[0].body));
        seq![pos] + entries_from(
            fs.skip(1),
            pos + block_len(fs[0].body) + if r {
                0int
            } else {
                1int
            },
        )
    }
}

pub open spec fn fn_table(fs: Seq<FuncDef>, entries: Seq<int>) -> Seq<FuncV> {
    Seq::new(fs.len(), |i: int| FuncV { name: fs[i].name, params: fs[i].params, entry: entries[i] })
}

/// The function bodies `fs` appended to `code`, each closed by a `Return`
/// unless every path through its code already ends in one.
pub open spec fn layout(fs: Seq<FuncDef>, code: Seq<InstrV>, slot: int, tbl: Seq<FuncV>) -> Seq<InstrV>
    decreases fs.len(),
{
    if fs.len() == 0 {
        code
    } else {
        let c1 = code + gen_block(fs[0].body, code.len() as int, slot, tbl);
        let c2 = if ends_in_return(block_tail(fs[0].body)) {
            c1
        } else {
            c1.push(InstrV::Return { value: RetV::Bare })
        };
        layout(fs.skip(1), c2, slot + block_loops(fs[0].body), tbl)
    }
}

/// The number of instructions a module lowers to.
pub open spec fn lowered_len(m: Module) -> nat {
    block_len(m.body@) + 1 + funcs_len(func_defs(m.body@))
}

/// The user functions of a module with their entry points: the bodies are
/// laid out after the top-level code and its `Halt`.
pub open spec fn module_funcs(m: Module) -> Seq<FuncV> {
    let fs = func_defs(m.body@);
    fn_table(fs, entries_from(fs, (block_len(m.body@) + 1) as int))
}

/// The program a module lowers to: the top-level statements, `Halt`, then
/// each function body, reachable only through a `Call`.
pub open spec fn spec_lower(m: Module) -> Seq<InstrV> {
    let tbl = module_funcs(m);
    layout(
        func_defs(m.body@),
        gen_block(m.body@, 0, 0, tbl).push(InstrV::Halt),
        block_loops(m.body@) as int,
        tbl,
    )
}


// ---- facts about the generated code ----

proof fn lemma_stmt_len(s: Spanned<Stmt>, pc: int, slot: int, fs: Seq<FuncV>)
    ensures
        gen_stmt(s, pc, slot, fs).len() == stmt_len(s),
        stmt_loops(s) <= stmt_len(s),
    decreases s,
{
    match s.value {
        Stmt::If { branches, else_block } => {
            let bs = branches@;
            let he = else_block is Some;
            let fall = pc + branches_len(bs, bs.len() as int, he);
            let end = fall + opt_block_len(else_block);
            assert(decreases_to!(s => s.value));
            lemma_branches_len(bs, bs.len() as int, he, pc, slot, fall, end, fs);
            match else_block {
                Some(eb) => {
                    lemma_block_len(eb@, fall, slot + branches_loops(bs), fs);
                },
                None => {},
            }
        },
        Stmt::LoopUntil { body, .. } => {
            lemma_block_len(body@, pc, slot, fs);
        },
        Stmt::For { body, .. } => {
            lemma_block_len(body@, pc + 2, slot + 1, fs);
        },
        _ => {},
    }
}

proof fn lemma_block_len(b: Seq<Spanned<Stmt>>, pc: int, slot: int, fs: Seq<FuncV>)
    ensures
        gen_block(b, pc, slot, fs).len() == block_len(b),
        block_loops(b) <= block_len(b),
    decreases b,
{
    if b.len() > 0 {
        lemma_block_len(b.drop_last(), pc, slot, fs);
        lemma_stmt_len(b.last(), pc + block_len(b.drop_last()), slot + block_loops(b.drop_last()), fs);
    }
}

proof fn lemma_branches_len(
    bs: Seq<IfBranch>,
    n: int,
    has_else: bool,
    pc: int,
    slot: int,
    fall: int,
    end: int,
    fs: Seq<FuncV>,
)
    ensures
        gen_branches(bs, n, has_else, pc, slot, fall, end, fs).len() == branches_len(bs, n, has_else),
        branches_loops(bs) <= branches_len(bs, n, has_else),
        bs.len() > 0 ==> branches_len(bs, n, has_else) > 0,
    decreases bs,
{
    if bs.len() > 0 {
        let pre = bs.drop_last();
        lemma_branches_len(pre, n, has_else, pc, slot, fall, end, fs);
        lemma_block_len(
            bs.last().body@,
            pc + branches_len(pre, n, has_else) + 1,
            slot + branches_loops(pre),
            fs,
        );
    }
}

proof fn lemma_stmt_tail(s: Spanned<Stmt>, pc: int, slot: int, fs: Seq<FuncV>)
    ensures
        gen_stmt(s, pc, slot, fs).len() > 0 <==> stmt_tail(s) is Some,
        stmt_tail(s) == Some(true) ==> gen_stmt(s, pc, slot, fs).last() is Return,
    decreases s,
{
    lemma_stmt_len(s, pc, slot, fs);
    match s.value {
        Stmt::If { branches, else_block } => {
            let bs = branches@;
            let n = bs.len() as int;
            let he = else_block is Some;
            let fall = pc + branches_len(bs, n, he);
            let end = fall + opt_block_len(else_block);
            let g = gen_branches(bs, n, he, pc, slot, fall, end, fs);
            assert(decreases_to!(s => s.value));
            lemma_branches_len(bs, n, he, pc, slot, fall, end, fs);
            if bs.len() > 0 {
                let pre = bs.drop_last();
                let b = bs.last();
                let start = pc + branches_len(pre, n, he);
                let body = gen_block(b.body@, start + 1, slot + branches_loops(pre), fs);
                lemma_block_tail(b.body@, start + 1, slot + branches_loops(pre), fs);
                lemma_block_len(b.body@, start + 1, slot + branches_loops(pre), fs);
                if !he {
                    assert(body + Seq::<InstrV>::empty() =~= body);
                    if body.len() > 0 {
                        assert(g.last() == body.last());
                    }
                }
            }
            match else_block {
                Some(eb) => {
                    let e = gen_block(eb@, fall, slot + branches_loops(bs), fs);
                    lemma_block_tail(eb@, fall, slot + branches_loops(bs), fs);
                    lemma_block_len(eb@, fall, slot + branches_loops(bs), fs);
                    if e.len() == 0 {
                        assert(g + e =~= g);
                    }
                },
                None => {
                    assert(g + Seq::<InstrV>::empty() =~= g);
                },
            }
        },
        Stmt::LoopUntil { body, .. } => {
            lemma_block_len(body@, pc, slot, fs);
        },
        Stmt::For { body, .. } => {
            lemma_block_len(body@, pc + 2, slot + 1, fs);
        },
        _ => {},
    }
}

proof fn lemma_block_tail(b: Seq<Spanned<Stmt>>, pc: int, slot: int, fs: Seq<FuncV>)
    ensures
        gen_block(b, pc, slot, fs).len() > 0 <==> block_tail(b) is Some,
        block_tail(b) == Some(true) ==> gen_block(b, pc, slot, fs).last() is Return,
    decreases b,
{
    if b.len() > 0 {
        let pre = b.drop_last();
        let g = gen_stmt(b.last(), pc + block_len(pre), slot + block_loops(pre), fs);
        lemma_block_tail(pre, pc, slot, fs);
        lemma_stmt_tail(b.last(), pc + block_len(pre), slot + block_loops(pre), fs);
        if g.len() == 0 {
            assert(gen_block(pre, pc, slot, fs) + g =~= gen_block(pre, pc, slot, fs));
        }
    }
}

proof fn lemma_block_take(b: Seq<Spanned<Stmt>>, k: int)
    requires
        0 <= k < b.len(),
    ensures
        b.take(k + 1).drop_last() == b.take(k),
        b.take(k + 1).last() == b[k],
        block_len(b.take(k + 1)) == block_len(b.take(k)) + stmt_len(b[k]),
        block_len(b.take(k + 1)) <= block_len(b),
        block_loops(b.take(k + 1)) == block_loops(b.take(k)) + stmt_loops(b[k]),
    decreases b.len() - k,
{
    assert(b.take(k + 1).drop_last() =~= b.take(k));
    if k + 1 < b.len() {
        lemma_block_take(b, k + 1);
    } else {
        assert(b.take(k + 1) =~= b);
    }
}

// ---- sizes, computed ----

/// One past the largest program counter.
pub const PROGRAM_CAP: u64 = 0x1_0000_0000u64;

/// A size, or [`PROGRAM_CAP`] when it is at least that.
pub open spec fn capped(n: nat) -> u64 {
    if n < PROGRAM_CAP {
        n as u64
    } else {
        PROGRAM_CAP
    }
}

fn sat_add(a: u64, b: u64) -> (r: u64)
    requires
        a <= PROGRAM_CAP,
        b <= PROGRAM_CAP,
    ensures
        r == if a + b < PROGRAM_CAP {
            (a + b) as u64
        } else {
            PROGRAM_CAP
        },
{
    if a + b < PROGRAM_CAP {
        a + b
    } else {
        PROGRAM_CAP
    }
}

fn stmt_len_of(s: &Spanned<Stmt>) -> (r: u64)
    ensures
        r == capped(stmt_len(*s)),
    decreases s,
{
    match &s.value {
        Stmt::Return { value } => match value {
            Some(v) => match &v.value {
                Expr::Call(_) => 2,
                _ => 1,
            },
            None => 1,
        },
        Stmt::If { branches, else_block } => {
            let ghost bs = branches@;
            let n = branches.len();
            let he = else_block.is_some();
            let mut t: u64 = 0;
            let mut i: usize = 0;
            assert(bs.take(0) =~= Seq::<IfBranch>::empty());
            while i < n
                invariant
                    n == bs.len(),
                    bs == branches@,
                    he == else_block is Some,
                    i <= n,
                    t == capped(branches_len(bs.take(i as int), n as int, he)),
                    forall|j: int| 0 <= j < bs.len() ==> decreases_to!(s => (#[trigger] bs[j]).body@),
                decreases n - i,
            {
                proof {
                    assert(bs.take(i + 1).drop_last() =~= bs.take(i as int));
                    assert(bs.take(i + 1).last() == bs[i as int]);
                }
                let bl = block_len_of(&branches[i].body);
                let jump: u64 = if i + 1 != n || he {
                    1
                } else {
                    0
                };
                t = sat_add(t, sat_add(1, sat_add(bl, jump)));
                i = i + 1;
            }
            assert(bs.take(n as int) =~= bs);
            let e = match else_block {
                Some(eb) => block_len_of(eb),
                None => 0,
            };
            sat_add(t, e)
        },
        Stmt::LoopUntil { body, .. } => sat_add(block_len_of(body), 1),
        Stmt::For { body, .. } => sat_add(block_len_of(body), 3),
        Stmt::Function { .. } => 0,
        _ => 1,
    }
}

fn block_len_of(b: &Vec<Spanned<Stmt>>) -> (r: u64)
    ensures
        r == capped(block_len(b@)),
    decreases b@,
{
    let mut t: u64 = 0;
    let mut k: usize = 0;
    assert(b@.take(0) =~= Seq::<Spanned<Stmt>>::empty());
    while k < b.len()
        invariant
            k <= b@.len(),
            t == capped(block_len(b@.take(k as int))),
        decreases b.len() - k,
    {
        proof {
            lemma_block_take(b@, k as int);
            assert(decreases_to!(b@ => b@[k as int]));
        }
        t = sat_add(t, stmt_len_of(&b[k]));
        k = k + 1;
    }
    assert(b@.take(k as int) =~= b@);
    t
}

fn stmt_tail_of(s: &Spanned<Stmt>) -> (r: Option<bool>)
    ensures
        r == stmt_tail(*s),
    decreases s,
{
    match &s.value {
        Stmt::Return { .. } => Some(true),
        Stmt::Function { .. } => None,
        Stmt::If { branches, else_block } => if branches.len() > 0 {
            Some(false)
        } else {
            match else_block {
                Some(eb) => {
                    proof {
                        assert(decreases_to!(s => s.value));
                    }
                    block_tail_of(eb)
                },
                None => None,
            }
        },
        _ => Some(false),
    }
}

fn block_tail_of(b: &Vec<Spanned<Stmt>>) -> (r: Option<bool>)
    ensures
        r == block_tail(b@),
    decreases b@,
{
    let mut k: usize = b.len();
    assert(b@.take(k as int) =~= b@);
    while k > 0
        invariant
            k <= b@.len(),
            block_tail(b@) == block_tail(b@.take(k as int)),
        decreases k,
    {
        proof {
            assert(b@.take(k as int).drop_last() =~= b@.take(k - 1));
            assert(b@.take(k as int).last() == b@[k - 1]);
            assert(decreases_to!(b@ => b@[k - 1]));
        }
        match stmt_tail_of(&b[k - 1]) {
            Some(t) => {
                return Some(t);
            },
            None => {},
        }
        k = k - 1;
    }
    None
}

// ---- lowering ----

/// `new` is `old` followed by instructions that `model` describes.
pub open spec fn extends(old: Seq<Instr>, new: Seq<Instr>, model: Seq<InstrV>) -> bool {
    &&& new.len() == old.len() + model.len()
    &&& forall|i: int| 0 <= i < old.len() ==> #[trigger] new[i] == old[i]
    &&& forall|i: int| old.len() <= i < new.len() ==> lowered_as(#[trigger] new[i], model[i - old.len()])
}

proof fn lemma_extends_trans(a: Seq<Instr>, b: Seq<Instr>, c: Seq<Instr>, m1: Seq<InstrV>, m2: Seq<InstrV>)
    requires
        extends(a, b, m1),
        extends(b, c, m2),
    ensures
        extends(a, c, m1 + m2),
{
    assert forall|i: int| a.len() <= i < c.len() implies lowered_as(#[trigger] c[i], (m1 + m2)[i - a.len()]) by {
        if i < b.len() {
            assert(c[i] == b[i]);
            assert(lowered_as(b[i], m1[i - a.len()]));
        } else {
            assert(lowered_as(c[i], m2[i - b.len()]));
        }
    }
}

proof fn lemma_extends_refl(a: Seq<Instr>)
    ensures
        extends(a, a, Seq::empty()),
{
}

proof fn lemma_find_func(fs: Seq<FuncV>, name: Seq<char>)
    ensures
        -1 <= find_func(fs, name) < fs.len(),
        find_func(fs, name) == -1 ==> forall|i: int| 0 <= i < fs.len() ==> (#[trigger] fs[i]).name != name,
        find_func(fs, name) >= 0 ==> fs[find_func(fs, name)].name == name && forall|i: int|
            find_func(fs, name) < i < fs.len() ==> (#[trigger] fs[i]).name != name,
    decreases fs.len(),
{
    if fs.len() > 0 && fs.last().name != name {
        lemma_find_func(fs.drop_last(), name);
        assert forall|i: int| 0 <= i < fs.len() - 1 implies (#[trigger] fs[i]).name == fs.drop_last()[i].name by {}
    }
}

struct Lowerer {
    code: Vec<Instr>,
    /// The user functions with their parameters; a later definition of a
    /// name wins.
    funcs: Vec<(String, Vec<String>)>,
    /// The entry point of each function in `funcs`.
    entries: Vec<u32>,
    /// The hidden loop slots taken so far.
    loops: u32,
}

impl Lowerer {
    spec fn table(&self) -> Seq<FuncV> {
        Seq::new(
            self.funcs@.len(),
            |i: int|
                FuncV {
                    name: self.funcs@[i].0@,
                    params: names_view(self.funcs@[i].1@),
                    entry: self.entries@[i] as int,
                },
        )
    }

    spec fn inv(&self) -> bool {
        &&& self.code@.len() <= u32::MAX
        &&& self.loops <= self.code@.len()
        &&& self.funcs@.len() == self.entries@.len()
    }

    fn emit(&mut self, instr: Instr, Ghost(v): Ghost<InstrV>)
        requires
            old(self).inv(),
            old(self).code@.len() < u32::MAX,
            lowered_as(instr, v),
        ensures
            final(self).inv(),
            extends(old(self).code@, final(self).code@, seq![v]),
            final(self).funcs == old(self).funcs,
            final(self).entries == old(self).entries,
            final(self).loops == old(self).loops,
    {
        self.code.push(instr);
    }

    /// The name `__<prefix>_<n>` of the hidden slot of the next loop.
    fn next_slot(&self, prefix: &str) -> (r: String)
        requires
            self.loops < u32::MAX,
        ensures
            r@ == "__"@ + prefix@ + "_"@ + int_text(self.loops + 1),
    {
        let mut s = owned("__");
        push_str(&mut s, prefix);
        push_str(&mut s, "_");
        crate::text::push_int(&mut s, (self.loops + 1) as i64);
        s
    }

    /// The index of the user function `name` (the last definition).
    fn is_func(&self, name: &str) -> (r: Option<usize>)
        requires
            self.inv(),
        ensures
            match r {
                Some(j) => j < self.funcs@.len() && j as int == find_func(self.table(), name@),
                None => find_func(self.table(), name@) == -1,
            },
    {
        let ghost t = self.table();
        let mut k = self.funcs.len();
        while k > 0
            invariant
                k <= self.funcs@.len(),
                t == self.table(),
                self.inv(),
                forall|i: int| k <= i < self.funcs@.len() ==> (#[trigger] self.funcs@[i]).0@ != name@,
            decreases k,
        {
            if str_eq(self.funcs[k - 1].0.as_str(), name) {
                proof {
                    lemma_find_func(t, name@);
                    let f = find_func(t, name@);
                    assert(t[k - 1].name == name@);
                    if f > k - 1 {
                        assert(t[f].name == self.funcs@[f].0@);
                    }
                }
                return Some(k - 1);
            }
            k = k - 1;
        }
        proof {
            lemma_find_func(t, name@);
            let f = find_func(t, name@);
            if f >= 0 {
                assert(t[f].name == self.funcs@[f].0@);
            }
        }
        None
    }
}

/// A copy of a list of names.
fn copy_names(v: &Vec<String>) -> (r: Vec<String>)
    ensures
        names_view(r@) == names_view(v@),
{
    let mut out: Vec<String> = Vec::new();
    let mut k: usize = 0;
    while k < v.len()
        invariant
            k <= v@.len(),
            out@.len() == k,
            forall|i: int| 0 <= i < k ==> (#[trigger] out@[i])@ == v@[i]@,
        decreases v.len() - k,
    {
        out.push(v[k].clone());
        k = k + 1;
    }
    assert(names_view(out@) =~= names_view(v@));
    out
}

/// The expressions of the positional arguments, in order.
fn positional_args(args: Vec<Spanned<CallArg>>) -> (r: Vec<Expr>)
    ensures
        r@ == positional(args@),
{
    let ghost a0 = args@;
    let mut out: Vec<Expr> = Vec::new();
    let mut v = args;
    let ghost mut k: int = 0;
    assert(a0.skip(0) =~= a0);
    while v.len() > 0
        invariant
            0 <= k <= a0.len(),
            v@ == a0.skip(k),
            out@ == positional(a0.take(k)),
        decreases v.len(),
    {
        let a = v.remove(0);
        proof {
            assert(a == a0[k]);
            assert(a0.take(k + 1).drop_last() =~= a0.take(k));
            assert(a0.take(k + 1).last() == a0[k]);
            assert(v@ =~= a0.skip(k + 1));
        }
        match a.value {
            CallArg::Positional(e) => out.push(e.value),
            CallArg::Named { .. } => {},
        }
        proof {
            k = k + 1;
        }
    }
    assert(a0.take(k) =~= a0);
    out
}

impl Lowerer {
    /// Emit a call of user function `j` storing into `into`.
    fn lower_call(&mut self, call: Call, into: Option<String>, j: usize)
        requires
            old(self).inv(),
            old(self).code@.len() < u32::MAX,
            j < old(self).funcs@.len(),
        ensures
            final(self).inv(),
            extends(
                old(self).code@,
                final(self).code@,
                seq![
                    InstrV::Call {
                        entry: old(self).table()[j as int].entry,
                        params: old(self).table()[j as int].params,
                        args: positional(call.args@),
                        into: opt_text(into),
                    },
                ],
            ),
            final(self).funcs == old(self).funcs,
            final(self).entries == old(self).entries,
            final(self).loops == old(self).loops,
    {
        let params = copy_names(&self.funcs[j].1);
        let entry = self.entries[j];
        let args = positional_args(call.args);
        let ghost v = InstrV::Call {
            entry: entry as int,
            params: names_view(params@),
            args: args@,
            into: opt_text(into),
        };
        self.emit(Instr::Call { entry, params, args, into }, Ghost(v));
    }

    /// Lower a value-position expression (see [`gen_value`]).
    fn lower_value(&mut self, e: Expr, into: Option<String>)
        requires
            old(self).inv(),
            old(self).code@.len() < u32::MAX,
        ensures
            final(self).inv(),
            extends(old(self).code@, final(self).code@, gen_value(e, opt_text(into), old(self).table())),
            final(self).funcs == old(self).funcs,
            final(self).entries == old(self).entries,
            final(self).loops == old(self).loops,
    {
        let ghost t = self.table();
        let ghost e0 = e;
        let ghost into_v = opt_text(into);
        match e {
            Expr::Call(c) => {
                match self.is_func(c.callee.as_str()) {
                    Some(j) => self.lower_call(c, into, j),
                    None => {
                        let ghost v = InstrV::AgentOp { call: c, into: into_v };
                        self.emit(Instr::AgentOp { call: c, into }, Ghost(v));
                    },
                }
            },
            other => {
                match into {
                    Some(var) => {
                        let ghost v = InstrV::Assign { var: var@, expr: other };
                        self.emit(Instr::Assign { var, expr: other }, Ghost(v));
                    },
                    None => {
                        proof {
                            lemma_extends_refl(self.code@);
                        }
                    },
                }
            },
        }
    }
}

impl Lowerer {
    #[verifier::loop_isolation(false)]
    fn lower_block(&mut self, block: Vec<Spanned<Stmt>>)
        requires
            old(self).inv(),
            old(self).code@.len() + block_len(block@) <= u32::MAX,
        ensures
            final(self).inv(),
            extends(
                old(self).code@,
                final(self).code@,
                gen_block(block@, old(self).code@.len() as int, old(self).loops as int, old(self).table()),
            ),
            final(self).loops == old(self).loops + block_loops(block@),
            final(self).funcs == old(self).funcs,
            final(self).entries == old(self).entries,
        decreases block@, 1int,
    {
        let ghost b0 = block@;
        let ghost c0 = self.code@;
        let ghost pc = self.code@.len() as int;
        let ghost slot = self.loops as int;
        let ghost t = self.table();
        let mut v = block;
        let ghost mut k: int = 0;
        proof {
            assert(b0.skip(0) =~= b0);
            assert(b0.take(0) =~= Seq::<Spanned<Stmt>>::empty());
            lemma_extends_refl(c0);
        }
        while v.len() > 0
            invariant
                0 <= k <= b0.len(),
                v@ == b0.skip(k),
                self.inv(),
                t == self.table(),
                extends(c0, self.code@, gen_block(b0.take(k), pc, slot, t)),
                self.loops == slot + block_loops(b0.take(k)),
                pc + block_len(b0) <= u32::MAX,
                self.funcs == old(self).funcs,
                self.entries == old(self).entries,
            decreases v.len(),
        {
            let s = v.remove(0);
            proof {
                assert(s == b0[k]);
                lemma_block_take(b0, k);
                lemma_block_len(b0.take(k), pc, slot, t);
                assert(v@ =~= b0.skip(k + 1));
                assert(decreases_to!(b0 => b0[k]));
            }
            let ghost c1 = self.code@;
            self.lower_stmt(s);
            proof {
                lemma_extends_trans(
                    c0,
                    c1,
                    self.code@,
                    gen_block(b0.take(k), pc, slot, t),
                    gen_stmt(b0[k], pc + block_len(b0.take(k)), slot + block_loops(b0.take(k)), t),
                );
                k = k + 1;
            }
        }
        proof {
            assert(b0.take(k) =~= b0);
        }
    }

    fn lower_stmt(&mut self, s: Spanned<Stmt>)
        requires
            old(self).inv(),
            old(self).code@.len() + stmt_len(s) <= u32::MAX,
        ensures
            final(self).inv(),
            extends(
                old(self).code@,
                final(self).code@,
                gen_stmt(s, old(self).code@.len() as int, old(self).loops as int, old(self).table()),
            ),
            final(self).loops == old(self).loops + stmt_loops(s),
            final(self).funcs == old(self).funcs,
            final(self).entries == old(self).entries,
        decreases s, 1int,
    {
        let ghost s0 = s;
        let ghost c0 = self.code@;
        let ghost pc = self.code@.len() as int;
        let ghost slot = self.loops as int;
        let ghost t = self.table();
        proof {
            lemma_stmt_len(s, pc, slot, t);
        }
        match s.value {
            Stmt::Meta { key, value } => {
                let ghost v = InstrV::SetMeta { key: key@, expr: value.value };
                self.emit(Instr::SetMeta { key, expr: value.value }, Ghost(v));
            },
            Stmt::Assign { target, value } => {
                self.lower_value(value.value, Some(target));
            },
            Stmt::Call(call) => {
                proof {
                    assert(gen_stmt(s0, pc, slot, t) == gen_value(Expr::Call(call), None, t));
                }
                match self.is_func(call.callee.as_str()) {
                    Some(j) => self.lower_call(call, None, j),
                    None => {
                        let ghost v = InstrV::AgentOp { call: call, into: None };
                        self.emit(Instr::AgentOp { call, into: None }, Ghost(v));
                    },
                }
            },
            Stmt::Return { value } => match value {
                None => {
                    self.emit(Instr::Return { value: None }, Ghost(InstrV::Return { value: RetV::Bare }));
                },
                Some(v) => {
                    let is_call = match &v.value {
                        Expr::Call(_) => true,
                        _ => false,
                    };
                    if is_call {
                        // A returned call lowers to a call into a temporary,
                        // then returns that temporary, so an agent op pauses
                        // for the agent rather than being evaluated.
                        let ghost g = gen_value(v.value, Some("__ret"@), t);
                        let temp = owned("__ret");
                        self.lower_value(v.value, Some(temp));
                        let ghost c1 = self.code@;
                        let ret = owned("__ret");
                        self.emit(
                            Instr::Return { value: Some(Expr::Var(ret)) },
                            Ghost(InstrV::Return { value: RetV::Temp }),
                        );
                        proof {
                            lemma_extends_trans(c0, c1, self.code@, g, seq![InstrV::Return { value: RetV::Temp }]);
                            assert(g + seq![InstrV::Return { value: RetV::Temp }] =~= g.push(
                                InstrV::Return { value: RetV::Temp },
                            ));
                        }
                    } else {
                        let ghost m = InstrV::Return { value: RetV::Value(v.value) };
                        self.emit(Instr::Return { value: Some(v.value) }, Ghost(m));
                    }
                },
            },
            Stmt::If { branches, else_block } => {
                let ghost bs0 = branches@;
                assert forall|i: int| 0 <= i < bs0.len() implies decreases_to!(s0 => (#[trigger] bs0[i]).body@) by {
                    assert(decreases_to!(s0 => s0.value));
                    assert(decreases_to!(branches => bs0));
                    assert(decreases_to!(bs0 => bs0[i]));
                }
                self.lower_if(branches, else_block, Ghost(s0));
            },
            Stmt::LoopUntil { body, cond } => {
                let start = self.code.len();
                assert(decreases_to!(s0 => body@));
                let ghost g = gen_block(body@, pc, slot, t);
                self.lower_block(body);
                let ghost c1 = self.code@;
                let ghost m = InstrV::JumpIfFalse { cond: cond.value, target: pc };
                self.emit(Instr::JumpIfFalse { cond: cond.value, target: start as u32 }, Ghost(m));
                proof {
                    lemma_block_len(body@, pc, slot, t);
                    lemma_extends_trans(c0, c1, self.code@, g, seq![m]);
                    assert(g + seq![m] =~= g.push(m));
                }
            },
            Stmt::For { var, iterable, body } => {
                let ghost body_v = body@;
                assert(decreases_to!(s0 => body@));
                let blen = block_len_of(&body);
                let pc0 = self.code.len();
                let iter = self.next_slot("for");
                let iter2 = iter.clone();
                let ghost m1 = InstrV::ForInit { iter: slot_name(slot + 1), list: iterable.value };
                proof {
                    reveal_strlit("__");
                    reveal_strlit("for");
                    reveal_strlit("_");
                    reveal_strlit("__for_");
                    assert(iter@ =~= slot_name(slot + 1));
                }
                self.emit(Instr::ForInit { iter, list: iterable.value }, Ghost(m1));
                self.loops = self.loops + 1;
                let ghost c1 = self.code@;
                let end = pc0 + 3 + blen as usize;
                let ghost m2 = InstrV::ForIter { iter: slot_name(slot + 1), var: var@, end: pc + 3 + block_len(body_v) };
                self.emit(Instr::ForIter { iter: iter2, var, end: end as u32 }, Ghost(m2));
                let ghost c2 = self.code@;
                let ghost g = gen_block(body_v, pc + 2, slot + 1, t);
                self.lower_block(body);
                let ghost c3 = self.code@;
                let ghost m3 = InstrV::Jump { target: pc + 1 };
                self.emit(Instr::Jump { target: (pc0 + 1) as u32 }, Ghost(m3));
                proof {
                    lemma_block_len(body_v, pc + 2, slot + 1, t);
                    lemma_extends_trans(c0, c1, c2, seq![m1], seq![m2]);
                    lemma_extends_trans(c0, c2, c3, seq![m1] + seq![m2], g);
                    lemma_extends_trans(c0, c3, self.code@, seq![m1] + seq![m2] + g, seq![m3]);
                    assert(seq![m1] + seq![m2] =~= seq![m1, m2]);
                }
            },
            Stmt::Function { .. } => {
                proof {
                    lemma_extends_refl(self.code@);
                }
            },  // emitted after `Halt`
        }
    }

    /// One `JumpIfFalse` per branch, skipping to the next test when false; a
    /// taken branch jumps past everything that follows, except the last
    /// branch when there is no `else`, which falls through.
    fn lower_if(&mut self, branches: Vec<IfBranch>, else_block: Option<Vec<Spanned<Stmt>>>, Ghost(s0): Ghost<Spanned<Stmt>>)
        requires
            old(self).inv(),
            old(self).code@.len() + branches_len(branches@, branches@.len() as int, else_block is Some)
                + opt_block_len(else_block) <= u32::MAX,
            forall|i: int| 0 <= i < branches@.len() ==> decreases_to!(s0 => (#[trigger] branches@[i]).body@),
            else_block matches Some(b) ==> decreases_to!(s0 => b@),
        ensures
            final(self).inv(),
            ({
                let bs = branches@;
                let he = else_block is Some;
                let pc = old(self).code@.len() as int;
                let slot = old(self).loops as int;
                let fall = pc + branches_len(bs, bs.len() as int, he);
                let end = fall + opt_block_len(else_block);
                extends(
                    old(self).code@,
                    final(self).code@,
                    gen_branches(bs, bs.len() as int, he, pc, slot, fall, end, old(self).table()) + match else_block {
                        Some(eb) => gen_block(eb@, fall, slot + branches_loops(bs), old(self).table()),
                        None => Seq::empty(),
                    },
                )
            }),
            final(self).loops == old(self).loops + branches_loops(branches@) + opt_block_loops(else_block),
            final(self).funcs == old(self).funcs,
            final(self).entries == old(self).entries,
        decreases s0, 0int,
    {
        let ghost bs0 = branches@;
        let ghost c0 = self.code@;
        let ghost pc = self.code@.len() as int;
        let ghost slot = self.loops as int;
        let ghost t = self.table();
        let n = branches.len();
        let has_else = else_block.is_some();
        let ghost n_i = n as int;
        // Lengths first, so every target is known when its jump is emitted.
        let mut blen: u64 = 0;
        let mut q: usize = 0;
        assert(bs0.take(0) =~= Seq::<IfBranch>::empty());
        while q < n
            invariant
                q <= n,
                n == bs0.len(),
                n_i == n,
                bs0 == branches@,
                blen == capped(branches_len(bs0.take(q as int), n_i, has_else)),
            decreases n - q,
        {
            proof {
                assert(bs0.take(q + 1).drop_last() =~= bs0.take(q as int));
                assert(bs0.take(q + 1).last() == bs0[q as int]);
            }
            let bl = block_len_of(&branches[q].body);
            let jump: u64 = if q + 1 != n || has_else {
                1
            } else {
                0
            };
            blen = sat_add(blen, sat_add(1, sat_add(bl, jump)));
            q = q + 1;
        }
        assert(bs0.take(n as int) =~= bs0);
        let elen = match &else_block {
            Some(eb) => block_len_of(eb),
            None => 0,
        };
        let fall = self.code.len() + blen as usize;
        let end = fall + elen as usize;
        let ghost fall_i = fall as int;
        let ghost end_i = end as int;
        let mut v = branches;
        let mut i: usize = 0;
        proof {
            assert(bs0.skip(0) =~= bs0);
            lemma_extends_refl(c0);
        }
        while v.len() > 0
            invariant
                i <= n,
                n == bs0.len(),
                n_i == n,
                v@ == bs0.skip(i as int),
                self.inv(),
                t == self.table(),
                extends(c0, self.code@, gen_branches(bs0.take(i as int), n_i, has_else, pc, slot, fall_i, end_i, t)),
                self.code@.len() == pc + branches_len(bs0.take(i as int), n_i, has_else),
                self.loops == slot + branches_loops(bs0.take(i as int)),
                fall_i == pc + branches_len(bs0, n_i, has_else),
                end_i == fall_i + opt_block_len(else_block),
                fall_i == fall as int,
                end_i == end as int,
                end_i <= u32::MAX,
                has_else == else_block is Some,
                self.funcs == old(self).funcs,
                self.entries == old(self).entries,
                forall|j: int| 0 <= j < bs0.len() ==> decreases_to!(s0 => (#[trigger] bs0[j]).body@),
            decreases v.len(),
        {
            let b = v.remove(0);
            let ghost pre = bs0.take(i as int);
            let ghost c1 = self.code@;
            proof {
                assert(b == bs0[i as int]);
                assert(bs0.take(i + 1).drop_last() =~= pre);
                assert(bs0.take(i + 1).last() == bs0[i as int]);
                assert(v@ =~= bs0.skip(i + 1));
                lemma_branches_len(bs0.take(i + 1), n_i, has_else, pc, slot, fall_i, end_i, t);
                lemma_branches_prefix(bs0, i as int + 1, n_i, has_else);
                lemma_branches_step(bs0, i as int, n_i, has_else, pc, slot, fall_i, end_i, t);
                lemma_block_len(b.body@, pc + branches_len(pre, n_i, has_else) + 1, slot + branches_loops(pre), t);
            }
            let body_len = block_len_of(&b.body);
            let jump = i + 1 != n || has_else;
            let next = self.code.len() + 1 + body_len as usize + if jump {
                1
            } else {
                0
            };
            let target = if i + 1 == n {
                fall
            } else {
                next
            };
            let ghost m1 = InstrV::JumpIfFalse { cond: b.cond.value, target: target as int };
            self.emit(Instr::JumpIfFalse { cond: b.cond.value, target: target as u32 }, Ghost(m1));
            let ghost c2 = self.code@;
            let ghost g = gen_block(b.body@, pc + branches_len(pre, n_i, has_else) + 1, slot + branches_loops(pre), t);
            self.lower_block(b.body);
            let ghost c3 = self.code@;
            proof {
                lemma_extends_trans(c0, c1, c2, gen_branches(pre, n_i, has_else, pc, slot, fall_i, end_i, t), seq![m1]);
                lemma_extends_trans(
                    c0,
                    c2,
                    c3,
                    gen_branches(pre, n_i, has_else, pc, slot, fall_i, end_i, t) + seq![m1],
                    g,
                );
            }
            if jump {
                let ghost m2 = InstrV::Jump { target: end_i };
                self.emit(Instr::Jump { target: end as u32 }, Ghost(m2));
                proof {
                    lemma_extends_trans(
                        c0,
                        c3,
                        self.code@,
                        gen_branches(pre, n_i, has_else, pc, slot, fall_i, end_i, t) + seq![m1] + g,
                        seq![m2],
                    );
                }
            } else {
                proof {
                    assert(gen_branches(pre, n_i, has_else, pc, slot, fall_i, end_i, t) + seq![m1] + g
                        + Seq::<InstrV>::empty() =~= gen_branches(pre, n_i, has_else, pc, slot, fall_i, end_i, t)
                        + seq![m1] + g);
                }
            }
            i = i + 1;
        }
        proof {
            assert(bs0.take(i as int) =~= bs0);
        }
        let ghost c4 = self.code@;
        match else_block {
            Some(eb) => {
                let ghost g = gen_block(eb@, fall_i, slot + branches_loops(bs0), t);
                self.lower_block(eb);
                proof {
                    lemma_extends_trans(
                        c0,
                        c4,
                        self.code@,
                        gen_branches(bs0, n_i, has_else, pc, slot, fall_i, end_i, t),
                        g,
                    );
                }
            },
            None => {
                proof {
                    assert(gen_branches(bs0, n_i, has_else, pc, slot, fall_i, end_i, t) + Seq::<InstrV>::empty()
                        =~= gen_branches(bs0, n_i, has_else, pc, slot, fall_i, end_i, t));
                }
            },
        }
    }
}

proof fn lemma_branches_step(
    bs: Seq<IfBranch>,
    i: int,
    n: int,
    has_else: bool,
    pc: int,
    slot: int,
    fall: int,
    end: int,
    fs: Seq<FuncV>,
)
    requires
        0 <= i < bs.len(),
    ensures
        ({
            let pre = bs.take(i);
            let b = bs[i];
            let jump = jumps_out(i, n, has_else);
            let start = pc + branches_len(pre, n, has_else);
            let next = start + 1 + block_len(b.body@) + if jump {
                1int
            } else {
                0int
            };
            &&& branches_len(bs.take(i + 1), n, has_else) == next - pc
            &&& branches_loops(bs.take(i + 1)) == branches_loops(pre) + block_loops(b.body@)
            &&& gen_branches(bs.take(i + 1), n, has_else, pc, slot, fall, end, fs) == gen_branches(
                pre,
                n,
                has_else,
                pc,
                slot,
                fall,
                end,
                fs,
            ) + seq![
                InstrV::JumpIfFalse {
                    cond: b.cond.value,
                    target: if i == n - 1 {
                        fall
                    } else {
                        next
                    },
                },
            ] + gen_block(b.body@, start + 1, slot + branches_loops(pre), fs) + if jump {
                seq![InstrV::Jump { target: end }]
            } else {
                Seq::empty()
            }
        }),
{
    assert(bs.take(i + 1).drop_last() =~= bs.take(i));
    assert(bs.take(i + 1).last() == bs[i]);
}

proof fn lemma_branches_prefix(bs: Seq<IfBranch>, k: int, n: int, has_else: bool)
    requires
        0 <= k <= bs.len(),
    ensures
        branches_len(bs.take(k), n, has_else) <= branches_len(bs, n, has_else),
    decreases bs.len() - k,
{
    if k < bs.len() {
        lemma_branches_prefix(bs, k + 1, n, has_else);
        assert(bs.take(k + 1).drop_last() =~= bs.take(k));
    } else {
        assert(bs.take(k) =~= bs);
    }
}

proof fn lemma_entries_len(fs: Seq<FuncDef>, pos: int)
    ensures
        entries_from(fs, pos).len() == fs.len(),
    decreases fs.len(),
{
    if fs.len() > 0 {
        let r = ends_in_return(block_tail(fs[0].body));
        lemma_entries_len(fs.skip(1), pos + block_len(fs[0].body) + if r {
            0int
        } else {
            1int
        });
    }
}

proof fn lemma_funcs_step(fs: Seq<FuncDef>, j: int, pos: int)
    requires
        0 <= j < fs.len(),
    ensures
        ({
            let r = ends_in_return(block_tail(fs[j].body));
            let pos2 = pos + block_len(fs[j].body) + if r {
                0int
            } else {
                1int
            };
            &&& fs.skip(j)[0] == fs[j]
            &&& fs.skip(j).skip(1) == fs.skip(j + 1)
            &&& funcs_len(fs.skip(j)) == block_len(fs[j].body) + (if r {
                0nat
            } else {
                1nat
            }) + funcs_len(fs.skip(j + 1))
            &&& entries_from(fs.skip(j), pos) == seq![pos] + entries_from(fs.skip(j + 1), pos2)
        }),
{
    assert(fs.skip(j).skip(1) =~= fs.skip(j + 1));
}

/// The signatures, body sizes and body tails of the functions a block
/// defines at its top level.
fn scan_funcs(body: &Vec<Spanned<Stmt>>) -> (r: (Vec<(String, Vec<String>)>, Vec<u64>, Vec<Option<bool>>))
    ensures
        r.0@.len() == func_defs(body@).len(),
        r.1@.len() == func_defs(body@).len(),
        r.2@.len() == func_defs(body@).len(),
        forall|j: int|
            0 <= j < func_defs(body@).len() ==> (#[trigger] r.0@[j]).0@ == func_defs(body@)[j].name && names_view(
                r.0@[j].1@,
            ) == func_defs(body@)[j].params,
        forall|j: int|
            0 <= j < func_defs(body@).len() ==> #[trigger] r.1@[j] == capped(block_len(func_defs(body@)[j].body)),
        forall|j: int| 0 <= j < func_defs(body@).len() ==> #[trigger] r.2@[j] == block_tail(func_defs(body@)[j].body),
{
    let ghost b0 = body@;
    let mut sigs: Vec<(String, Vec<String>)> = Vec::new();
    let mut lens: Vec<u64> = Vec::new();
    let mut tails: Vec<Option<bool>> = Vec::new();
    let mut k: usize = 0;
    assert(b0.take(0) =~= Seq::<Spanned<Stmt>>::empty());
    while k < body.len()
        invariant
            k <= b0.len(),
            b0 == body@,
            sigs@.len() == func_defs(b0.take(k as int)).len(),
            lens@.len() == sigs@.len(),
            tails@.len() == sigs@.len(),
            forall|j: int|
                0 <= j < sigs@.len() ==> (#[trigger] sigs@[j]).0@ == func_defs(b0.take(k as int))[j].name
                    && names_view(sigs@[j].1@) == func_defs(b0.take(k as int))[j].params,
            forall|j: int|
                0 <= j < sigs@.len() ==> #[trigger] lens@[j] == capped(block_len(func_defs(b0.take(k as int))[j].body)),
            forall|j: int|
                0 <= j < sigs@.len() ==> #[trigger] tails@[j] == block_tail(func_defs(b0.take(k as int))[j].body),
        decreases body.len() - k,
    {
        proof {
            assert(b0.take(k + 1).drop_last() =~= b0.take(k as int));
            assert(b0.take(k + 1).last() == b0[k as int]);
        }
        match &body[k].value {
            Stmt::Function { name, params, body: fbody } => {
                sigs.push((name.clone(), copy_names(params)));
                lens.push(block_len_of(fbody));
                tails.push(block_tail_of(fbody));
            },
            _ => {},
        }
        k = k + 1;
    }
    assert(b0.take(k as int) =~= b0);
    (sigs, lens, tails)
}

/// The number of instructions a module lowers to (see [`lowered_len`]), or
/// [`PROGRAM_CAP`] when that is more than a program counter can address.
pub fn lowered_len_of(module: &Module) -> (r: u64)
    ensures
        r == capped(lowered_len(*module)),
{
    let ghost fs = func_defs(module.body@);
    let (_sigs, lens, tails) = scan_funcs(&module.body);
    let top = block_len_of(&module.body);
    let mut t = sat_add(top, 1);
    let mut j: usize = 0;
    let ghost mut acc: nat = 0;
    assert(fs.skip(0) =~= fs);
    while j < lens.len()
        invariant
            j <= fs.len(),
            lens@.len() == fs.len(),
            tails@.len() == fs.len(),
            forall|i: int|
                0 <= i < fs.len() ==> (#[trigger] lens@[i]) == capped(block_len(fs[i].body)) && tails@[i]
                    == block_tail(fs[i].body),
            acc + funcs_len(fs.skip(j as int)) == funcs_len(fs),
            t == capped(block_len(module.body@) + 1 + acc),
        decreases lens.len() - j,
    {
        proof {
            lemma_funcs_step(fs, j as int, 0);
        }
        let ends = match tails[j] {
            Some(x) => x,
            None => false,
        };
        let close: u64 = if ends {
            0
        } else {
            1
        };
        t = sat_add(t, sat_add(lens[j], close));
        proof {
            acc = (acc + block_len(fs[j as int].body) + close) as nat;
        }
        j = j + 1;
    }
    t
}

/// Lower a module into a flat instruction stream (see [`spec_lower`]): the
/// top-level statements, `Halt`, then each function body, closed by a
/// `Return` unless it already ends in one. The program counter is a `u32`,
/// so the module must lower to at most `u32::MAX` instructions.
pub fn lower(module: Module) -> (r: Vec<Instr>)
    requires
        lowered_len(module) <= u32::MAX,
    ensures
        lowered_to(r@, spec_lower(module)),
        r@.len() == lowered_len(module),
        ir_wf(r@),
{
    let ghost m = module;
    let ghost b0 = module.body@;
    let ghost fs = func_defs(b0);
    let ghost tbl = module_funcs(module);
    let (sigs, lens, tails) = scan_funcs(&module.body);
    let top = block_len_of(&module.body) + 1;
    // The entry point of each function body, laid out after `Halt`.
    let ghost e = entries_from(fs, top as int);
    let mut entries: Vec<u32> = Vec::new();
    let mut pos: u64 = top;
    let mut j: usize = 0;
    proof {
        assert(fs.skip(0) =~= fs);
        lemma_entries_len(fs, top as int);
    }
    while j < lens.len()
        invariant
            j <= fs.len(),
            lens@.len() == fs.len(),
            tails@.len() == fs.len(),
            forall|i: int|
                0 <= i < fs.len() ==> (#[trigger] lens@[i]) == capped(block_len(fs[i].body)) && tails@[i]
                    == block_tail(fs[i].body),
            e.len() == fs.len(),
            entries@.len() == j,
            forall|i: int| 0 <= i < j ==> (#[trigger] entries@[i]) as int == e[i],
            entries_from(fs.skip(j as int), pos as int) == e.skip(j as int),
            pos + funcs_len(fs.skip(j as int)) == lowered_len(m),
            lowered_len(m) <= u32::MAX,
        decreases lens.len() - j,
    {
        proof {
            lemma_funcs_step(fs, j as int, pos as int);
            assert(e.skip(j as int)[0] == e[j as int]);
            assert(e.skip(j as int).skip(1) =~= e.skip(j + 1));
        }
        entries.push(pos as u32);
        let ends = match tails[j] {
            Some(x) => x,
            None => false,
        };
        pos = pos + lens[j] + if ends {
            0
        } else {
            1
        };
        j = j + 1;
    }
    let mut l = Lowerer { code: Vec::new(), funcs: sigs, entries, loops: 0 };
    proof {
        assert(l.table() =~= tbl);
    }
    // The top-level statements; function bodies are set aside for later.
    let mut v = module.body;
    let mut bodies: Vec<Vec<Spanned<Stmt>>> = Vec::new();
    let ghost mut k: int = 0;
    proof {
        assert(b0.skip(0) =~= b0);
        assert(b0.take(0) =~= Seq::<Spanned<Stmt>>::empty());
        lemma_extends_refl(l.code@);
    }
    while v.len() > 0
        invariant
            0 <= k <= b0.len(),
            v@ == b0.skip(k),
            fs == func_defs(b0),
            l.inv(),
            l.table() == tbl,
            extends(Seq::empty(), l.code@, gen_block(b0.take(k), 0, 0, tbl)),
            l.code@.len() == block_len(b0.take(k)),
            l.loops == block_loops(b0.take(k)),
            bodies@.len() == func_defs(b0.take(k)).len(),
            forall|i: int| 0 <= i < bodies@.len() ==> (#[trigger] bodies@[i])@ == func_defs(b0.take(k))[i].body,
            block_len(b0) + 1 <= lowered_len(m),
            lowered_len(m) <= u32::MAX,
        decreases v.len(),
    {
        let s = v.remove(0);
        proof {
            assert(s == b0[k]);
            lemma_block_take(b0, k);
            lemma_block_len(b0.take(k + 1), 0, 0, tbl);
            assert(v@ =~= b0.skip(k + 1));
        }
        let ghost c1 = l.code@;
        let is_fn = match &s.value {
            Stmt::Function { .. } => true,
            _ => false,
        };
        if is_fn {
            match s.value {
                Stmt::Function { body, .. } => {
                    bodies.push(body);
                },
                _ => {},
            }
            proof {
                assert(gen_stmt(b0[k], block_len(b0.take(k)) as int, block_loops(b0.take(k)) as int, tbl)
                    =~= Seq::<InstrV>::empty());
                assert(gen_block(b0.take(k + 1), 0, 0, tbl) =~= gen_block(b0.take(k), 0, 0, tbl));
            }
        } else {
            l.lower_stmt(s);
            proof {
                lemma_extends_trans(
                    Seq::empty(),
                    c1,
                    l.code@,
                    gen_block(b0.take(k), 0, 0, tbl),
                    gen_stmt(b0[k], block_len(b0.take(k)) as int, block_loops(b0.take(k)) as int, tbl),
                );
            }
        }
        proof {
            k = k + 1;
        }
    }
    proof {
        assert(b0.take(k) =~= b0);
    }
    let ghost c1 = l.code@;
    l.emit(Instr::Halt, Ghost(InstrV::Halt));
    let ghost mut mdl: Seq<InstrV> = gen_block(b0, 0, 0, tbl).push(InstrV::Halt);
    proof {
        lemma_extends_trans(Seq::empty(), c1, l.code@, gen_block(b0, 0, 0, tbl), seq![InstrV::Halt]);
        assert(gen_block(b0, 0, 0, tbl) + seq![InstrV::Halt] =~= mdl);
        assert(fs.skip(0) =~= fs);
    }
    // Function bodies, each reachable only through a `Call`.
    let ghost mut jj: int = 0;
    while bodies.len() > 0
        invariant
            0 <= jj <= fs.len(),
            bodies@.len() == fs.len() - jj,
            forall|i: int| 0 <= i < bodies@.len() ==> (#[trigger] bodies@[i])@ == fs[jj + i].body,
            l.inv(),
            l.table() == tbl,
            extends(Seq::empty(), l.code@, mdl),
            mdl.len() > 0,
            layout(fs.skip(jj), mdl, l.loops as int, tbl) == spec_lower(m),
            l.code@.len() + funcs_len(fs.skip(jj)) == lowered_len(m),
            lowered_len(m) <= u32::MAX,
        decreases bodies.len(),
    {
        let ghost before = bodies@;
        let body = bodies.remove(0);
        proof {
            assert(body@ == fs[jj].body);
            assert forall|i: int| 0 <= i < bodies@.len() implies (#[trigger] bodies@[i])@ == fs[jj + 1 + i].body by {
                assert(bodies@[i] == before[i + 1]);
            }
            lemma_funcs_step(fs, jj, 0);
            lemma_block_len(fs[jj].body, mdl.len() as int, l.loops as int, tbl);
            lemma_block_tail(fs[jj].body, mdl.len() as int, l.loops as int, tbl);
        }
        let ghost g = gen_block(fs[jj].body, mdl.len() as int, l.loops as int, tbl);
        let ghost c0 = l.code@;
        let tail = block_tail_of(&body);
        l.lower_block(body);
        proof {
            lemma_extends_trans(Seq::empty(), c0, l.code@, mdl, g);
            if g.len() == 0 {
                assert(mdl + g =~= mdl);
            }
        }
        let ghost c1m = mdl + g;
        // A body is closed by a `Return` unless every path through it ends
        // in one.
        let ends_in_return = match tail {
            Some(t) => t,
            None => false,
        };
        if !ends_in_return {
            let ghost c2 = l.code@;
            l.emit(Instr::Return { value: None }, Ghost(InstrV::Return { value: RetV::Bare }));
            proof {
                lemma_extends_trans(Seq::empty(), c2, l.code@, c1m, seq![InstrV::Return { value: RetV::Bare }]);
                assert(c1m + seq![InstrV::Return { value: RetV::Bare }] =~= c1m.push(
                    InstrV::Return { value: RetV::Bare },
                ));
                mdl = c1m.push(InstrV::Return { value: RetV::Bare });
            }
        } else {
            proof {
                mdl = c1m;
            }
        }
        proof {
            jj = jj + 1;
        }
    }
    proof {
        assert(fs.skip(jj) =~= Seq::<FuncDef>::empty());
        law_targets_within_program(m);
        lemma_wf_from_model(l.code@, spec_lower(m));
    }
    l.code
}

// ---- laws of the lowered program ----

/// The jump targets of `v` lie in `lo..=hi`, and a call's entry in `0..=emax`.
pub open spec fn targets_in(v: InstrV, lo: int, hi: int, emax: int) -> bool {
    match v {
        InstrV::JumpIfFalse { target, .. } => lo <= target <= hi,
        InstrV::Jump { target } => lo <= target <= hi,
        InstrV::ForIter { end, .. } => lo <= end <= hi,
        InstrV::Call { entry, .. } => 0 <= entry <= emax,
        _ => true,
    }
}

pub open spec fn entries_below(tbl: Seq<FuncV>, emax: int) -> bool {
    forall|j: int| 0 <= j < tbl.len() ==> 0 <= (#[trigger] tbl[j]).entry <= emax
}

proof fn lemma_stmt_targets(s: Spanned<Stmt>, pc: int, slot: int, tbl: Seq<FuncV>, emax: int)
    requires
        entries_below(tbl, emax),
    ensures
        forall|i: int|
            0 <= i < gen_stmt(s, pc, slot, tbl).len() ==> targets_in(
                #[trigger] gen_stmt(s, pc, slot, tbl)[i],
                pc,
                pc + stmt_len(s),
                emax,
            ),
    decreases s,
{
    lemma_stmt_len(s, pc, slot, tbl);
    lemma_find_func(tbl, "__ret"@);
    match s.value {
        Stmt::Assign { value, .. } => {
            if let Expr::Call(c) = value.value {
                lemma_find_func(tbl, c.callee@);
            }
        },
        Stmt::Call(c) => {
            lemma_find_func(tbl, c.callee@);
        },
        Stmt::Return { value: Some(v) } => {
            if let Expr::Call(c) = v.value {
                lemma_find_func(tbl, c.callee@);
            }
        },
        Stmt::If { branches, else_block } => {
            let bs = branches@;
            let he = else_block is Some;
            let fall = pc + branches_len(bs, bs.len() as int, he);
            let end = fall + opt_block_len(else_block);
            let g = gen_branches(bs, bs.len() as int, he, pc, slot, fall, end, tbl);
            assert(decreases_to!(s => s.value));
            lemma_branches_targets(bs, bs.len() as int, he, pc, slot, fall, end, tbl, emax);
            lemma_branches_len(bs, bs.len() as int, he, pc, slot, fall, end, tbl);
            match else_block {
                Some(eb) => {
                    let e = gen_block(eb@, fall, slot + branches_loops(bs), tbl);
                    lemma_block_targets(eb@, fall, slot + branches_loops(bs), tbl, emax);
                    lemma_block_len(eb@, fall, slot + branches_loops(bs), tbl);
                    assert forall|i: int| 0 <= i < (g + e).len() implies targets_in(
                        #[trigger] (g + e)[i],
                        pc,
                        pc + stmt_len(s),
                        emax,
                    ) by {
                        if i < g.len() {
                            assert(targets_in(g[i], pc, end, emax));
                        } else {
                            assert(targets_in(e[i - g.len()], fall, fall + block_len(eb@), emax));
                        }
                    }
                },
                None => {
                    assert(g + Seq::<InstrV>::empty() =~= g);
                },
            }
        },
        Stmt::LoopUntil { body, cond } => {
            lemma_block_targets(body@, pc, slot, tbl, emax);
            lemma_block_len(body@, pc, slot, tbl);
        },
        Stmt::For { body, .. } => {
            let g = gen_block(body@, pc + 2, slot + 1, tbl);
            lemma_block_targets(body@, pc + 2, slot + 1, tbl, emax);
            lemma_block_len(body@, pc + 2, slot + 1, tbl);
            let whole = gen_stmt(s, pc, slot, tbl);
            assert forall|i: int| 0 <= i < whole.len() implies targets_in(
                #[trigger] whole[i],
                pc,
                pc + stmt_len(s),
                emax,
            ) by {
                if 2 <= i < 2 + g.len() {
                    assert(whole[i] == g[i - 2]);
                }
            }
        },
        _ => {},
    }
}

proof fn lemma_block_targets(b: Seq<Spanned<Stmt>>, pc: int, slot: int, tbl: Seq<FuncV>, emax: int)
    requires
        entries_below(tbl, emax),
    ensures
        forall|i: int|
            0 <= i < gen_block(b, pc, slot, tbl).len() ==> targets_in(
                #[trigger] gen_block(b, pc, slot, tbl)[i],
                pc,
                pc + block_len(b),
                emax,
            ),
    decreases b,
{
    if b.len() > 0 {
        let pre = b.drop_last();
        let a = gen_block(pre, pc, slot, tbl);
        let c = gen_stmt(b.last(), pc + block_len(pre), slot + block_loops(pre), tbl);
        lemma_block_targets(pre, pc, slot, tbl, emax);
        lemma_block_len(pre, pc, slot, tbl);
        lemma_stmt_targets(b.last(), pc + block_len(pre), slot + block_loops(pre), tbl, emax);
        assert forall|i: int| 0 <= i < (a + c).len() implies targets_in(#[trigger] (a + c)[i], pc, pc + block_len(b), emax) by {
            if i < a.len() {
                assert(targets_in(a[i], pc, pc + block_len(pre), emax));
            } else {
                assert(targets_in(c[i - a.len()], pc + block_len(pre), pc + block_len(pre) + stmt_len(b.last()), emax));
            }
        }
    }
}

proof fn lemma_branches_targets(
    bs: Seq<IfBranch>,
    n: int,
    has_else: bool,
    pc: int,
    slot: int,
    fall: int,
    end: int,
    tbl: Seq<FuncV>,
    emax: int,
)
    requires
        entries_below(tbl, emax),
        pc + branches_len(bs, n, has_else) <= fall <= end,
    ensures
        forall|i: int|
            0 <= i < gen_branches(bs, n, has_else, pc, slot, fall, end, tbl).len() ==> targets_in(
                #[trigger] gen_branches(bs, n, has_else, pc, slot, fall, end, tbl)[i],
                pc,
                end,
                emax,
            ),
    decreases bs,
{
    if bs.len() > 0 {
        let pre = bs.drop_last();
        let b = bs.last();
        let start = pc + branches_len(pre, n, has_else);
        let a = gen_branches(pre, n, has_else, pc, slot, fall, end, tbl);
        let body = gen_block(b.body@, start + 1, slot + branches_loops(pre), tbl);
        lemma_branches_targets(pre, n, has_else, pc, slot, fall, end, tbl, emax);
        lemma_branches_len(pre, n, has_else, pc, slot, fall, end, tbl);
        lemma_block_targets(b.body@, start + 1, slot + branches_loops(pre), tbl, emax);
        lemma_block_len(b.body@, start + 1, slot + branches_loops(pre), tbl);
        let whole = gen_branches(bs, n, has_else, pc, slot, fall, end, tbl);
        assert forall|i: int| 0 <= i < whole.len() implies targets_in(#[trigger] whole[i], pc, end, emax) by {
            if i < a.len() {
                assert(whole[i] == a[i]);
            } else if a.len() + 1 <= i < a.len() + 1 + body.len() {
                assert(whole[i] == body[i - a.len() - 1]);
                assert(targets_in(body[i - a.len() - 1], start + 1, start + 1 + block_len(b.body@), emax));
            }
        }
    }
}

proof fn lemma_layout(fs: Seq<FuncDef>, code: Seq<InstrV>, slot: int, tbl: Seq<FuncV>)
    requires
        code.len() > 0,
    ensures
        ({
            let l = layout(fs, code, slot, tbl);
            let e = entries_from(fs, code.len() as int);
            &&& l.len() == code.len() + funcs_len(fs)
            &&& l.take(code.len() as int) == code
            &&& e.len() == fs.len()
            &&& forall|k: int|
                0 <= k < fs.len() ==> code.len() <= #[trigger] e[k] && e[k] + block_len(fs[k].body) <= l.len()
                    && exists|sl: int|
                    l.subrange(e[k], e[k] + block_len(fs[k].body)) == gen_block(fs[k].body, e[k], sl, tbl)
            &&& forall|k: int| 0 <= k < fs.len() ==> body_returns(l, #[trigger] e[k] + block_len(fs[k].body), fs[k])
        }),
    decreases fs.len(),
{
    lemma_entries_len(fs, code.len() as int);
    if fs.len() > 0 {
        let g = gen_block(fs[0].body, code.len() as int, slot, tbl);
        let c1 = code + g;
        let c2 = if ends_in_return(block_tail(fs[0].body)) {
            c1
        } else {
            c1.push(InstrV::Return { value: RetV::Bare })
        };
        let rest = fs.skip(1);
        let slot2 = slot + block_loops(fs[0].body);
        lemma_block_len(fs[0].body, code.len() as int, slot, tbl);
        lemma_block_tail(fs[0].body, code.len() as int, slot, tbl);
        if g.len() == 0 {
            assert(c1 =~= code);
        }
        lemma_layout(rest, c2, slot2, tbl);
        let l = layout(fs, code, slot, tbl);
        let e = entries_from(fs, code.len() as int);
        let e2 = entries_from(rest, c2.len() as int);
        assert(l == layout(rest, c2, slot2, tbl));
        assert(e =~= seq![code.len() as int] + e2);
        assert(l.take(c2.len() as int) == c2);
        assert(l.take(code.len() as int) =~= code) by {
            assert forall|i: int| 0 <= i < code.len() implies l.take(code.len() as int)[i] == code[i] by {
                assert(l.take(c2.len() as int)[i] == c2[i]);
                assert(c2[i] == c1[i]);
            }
        }
        assert forall|k: int|
            0 <= k < fs.len() implies code.len() <= #[trigger] e[k] && e[k] + block_len(fs[k].body) <= l.len()
                && exists|sl: int| l.subrange(e[k], e[k] + block_len(fs[k].body)) == gen_block(fs[k].body, e[k], sl, tbl) by {
            if k == 0 {
                assert(l.subrange(code.len() as int, (code.len() + block_len(fs[0].body)) as int) =~= g) by {
                    assert forall|i: int| 0 <= i < g.len() implies l.subrange(
                        code.len() as int,
                        (code.len() + block_len(fs[0].body)) as int,
                    )[i] == g[i] by {
                        assert(l.take(c2.len() as int)[code.len() + i] == c2[code.len() + i]);
                        assert(c2[code.len() + i] == c1[code.len() + i]);
                    }
                }
            } else {
                assert(e[k] == e2[k - 1]);
                assert(rest[k - 1] == fs[k]);
            }
        }
        assert forall|k: int| 0 <= k < fs.len() implies body_returns(l, #[trigger] e[k] + block_len(fs[k].body), fs[k]) by {
            if k == 0 {
                if ends_in_return(block_tail(fs[0].body)) {
                    assert(l.take(c2.len() as int)[c1.len() - 1] == c2[c1.len() - 1]);
                } else {
                    assert(l.take(c2.len() as int)[c1.len() as int] == c2[c1.len() as int]);
                }
            } else {
                assert(e[k] == e2[k - 1]);
                assert(rest[k - 1] == fs[k]);
            }
        }
    } else {
        assert(layout(fs, code, slot, tbl).take(code.len() as int) =~= code);
    }
}

/// Control cannot run off the body of `f` ending at `end` in `l`: its last
/// instruction is a `Return` that every path reaches, or a `Return` follows it.
pub open spec fn body_returns(l: Seq<InstrV>, end: int, f: FuncDef) -> bool {
    if ends_in_return(block_tail(f.body)) {
        0 < end <= l.len() && l[end - 1] is Return
    } else {
        0 <= end < l.len() && l[end] is Return
    }
}

/// A call jumps to its function: for each function defined at the top
/// level, the instructions at its entry point are its body, lowered there,
/// and control cannot run off that body: a `Return` closes it, so falling
/// off its end returns to the caller.
pub proof fn law_call_entries_hold_their_bodies(m: Module, k: int)
    requires
        0 <= k < func_defs(m.body@).len(),
    ensures
        ({
            let f = func_defs(m.body@)[k];
            let entry = module_funcs(m)[k].entry;
            &&& block_len(m.body@) < entry
            &&& entry + block_len(f.body) <= spec_lower(m).len()
            &&& exists|sl: int|
                spec_lower(m).subrange(entry, entry + block_len(f.body)) == gen_block(f.body, entry, sl, module_funcs(m))
            &&& body_returns(spec_lower(m), entry + block_len(f.body), f)
        }),
{
    let fs = func_defs(m.body@);
    let tbl = module_funcs(m);
    let top = gen_block(m.body@, 0, 0, tbl).push(InstrV::Halt);
    lemma_block_len(m.body@, 0, 0, tbl);
    lemma_layout(fs, top, block_loops(m.body@) as int, tbl);
    let e = entries_from(fs, top.len() as int);
    assert(e[k] == tbl[k].entry);
}

proof fn lemma_layout_targets(fs: Seq<FuncDef>, code: Seq<InstrV>, slot: int, tbl: Seq<FuncV>, total: int)
    requires
        code.len() > 0,
        entries_below(tbl, total),
        forall|i: int| 0 <= i < code.len() ==> targets_in(#[trigger] code[i], 0, total, total),
        code.len() + funcs_len(fs) <= total,
    ensures
        forall|i: int|
            0 <= i < layout(fs, code, slot, tbl).len() ==> targets_in(
                #[trigger] layout(fs, code, slot, tbl)[i],
                0,
                total,
                total,
            ),
    decreases fs.len(),
{
    if fs.len() > 0 {
        let g = gen_block(fs[0].body, code.len() as int, slot, tbl);
        let c1 = code + g;
        let c2 = if ends_in_return(block_tail(fs[0].body)) {
            c1
        } else {
            c1.push(InstrV::Return { value: RetV::Bare })
        };
        lemma_block_len(fs[0].body, code.len() as int, slot, tbl);
        lemma_block_tail(fs[0].body, code.len() as int, slot, tbl);
        lemma_block_targets(fs[0].body, code.len() as int, slot, tbl, total);
        if g.len() == 0 {
            assert(c1 =~= code);
        }
        assert forall|i: int| 0 <= i < c2.len() implies targets_in(#[trigger] c2[i], 0, total, total) by {
            if i < code.len() {
                assert(c2[i] == code[i]);
            } else if i < c1.len() {
                assert(c2[i] == g[i - code.len()]);
            }
        }
        lemma_layout_targets(fs.skip(1), c2, slot + block_loops(fs[0].body), tbl, total);
        assert(layout(fs, code, slot, tbl) == layout(fs.skip(1), c2, slot + block_loops(fs[0].body), tbl));
    }
}

/// Every jump target of a lowered program lies within it (a target may be
/// its length: the end), and every call enters it.
pub proof fn law_targets_within_program(m: Module)
    ensures
        forall|i: int|
            0 <= i < spec_lower(m).len() ==> targets_in(
                #[trigger] spec_lower(m)[i],
                0,
                spec_lower(m).len() as int,
                spec_lower(m).len() as int,
            ),
{
    let fs = func_defs(m.body@);
    let tbl = module_funcs(m);
    let top = gen_block(m.body@, 0, 0, tbl).push(InstrV::Halt);
    lemma_block_len(m.body@, 0, 0, tbl);
    lemma_layout(fs, top, block_loops(m.body@) as int, tbl);
    let total = spec_lower(m).len() as int;
    assert(entries_below(tbl, total)) by {
        assert forall|j: int| 0 <= j < tbl.len() implies 0 <= (#[trigger] tbl[j]).entry <= total by {
            assert(tbl[j].entry == entries_from(fs, top.len() as int)[j]);
        }
    }
    lemma_block_targets(m.body@, 0, 0, tbl, total);
    assert forall|i: int| 0 <= i < top.len() implies targets_in(#[trigger] top[i], 0, total, total) by {
        if i < top.len() - 1 {
            assert(top[i] == gen_block(m.body@, 0, 0, tbl)[i]);
        }
    }
    lemma_layout_targets(fs, top, block_loops(m.body@) as int, tbl, total);
}

proof fn lemma_wf_from_model(code: Seq<Instr>, model: Seq<InstrV>)
    requires
        lowered_to(code, model),
        forall|i: int|
            0 <= i < model.len() ==> targets_in(#[trigger] model[i], 0, model.len() as int, model.len() as int),
    ensures
        ir_wf(code),
{
    assert forall|i: int| 0 <= i < code.len() implies targets_ok(#[trigger] code[i], code.len()) by {
        assert(lowered_as(code[i], model[i]));
        assert(targets_in(model[i], 0, model.len() as int, model.len() as int));
    }
}

/// The positional arguments of a call, in order: appending arguments
/// appends their positional expressions, in the same order.
pub proof fn law_positional_in_order(a: Seq<Spanned<CallArg>>, b: Seq<Spanned<CallArg>>)
    ensures
        positional(a + b) == positional(a) + positional(b),
    decreases b.len(),
{
    if b.len() == 0 {
        assert(a + b =~= a);
        assert(positional(a) + positional(b) =~= positional(a));
    } else {
        law_positional_in_order(a, b.drop_last());
        assert((a + b).drop_last() =~= a + b.drop_last());
        assert((a + b).last() == b.last());
        match b.last().value {
            CallArg::Positional(e) => {
                assert(positional(a) + positional(b) =~= (positional(a) + positional(b.drop_last())).push(
                    e.value,
                ));
            },
            CallArg::Named { .. } => {},
        }
    }
}

/// A positional argument is passed as its expression; a named argument is
/// not passed positionally at all. With the law above, this fixes the
/// positional expressions of every argument list.
pub proof fn law_positional_of_one_argument(arg: Spanned<CallArg>)
    ensures
        match arg.value {
            CallArg::Positional(e) => positional(seq![arg]) == seq![e.value],
            CallArg::Named { .. } => positional(seq![arg]) == Seq::<Expr>::empty(),
        },
{
    assert(seq![arg].drop_last() =~= Seq::<Spanned<CallArg>>::empty());
    assert(positional(Seq::<Spanned<CallArg>>::empty()) == Seq::<Expr>::empty());
    match arg.value {
        CallArg::Positional(e) => {
            assert(Seq::<Expr>::empty().push(e.value) =~= seq![e.value]);
        },
        CallArg::Named { .. } => {},
    }
}

proof fn lemma_all_positional(args: Seq<Spanned<CallArg>>)
    requires
        forall|i: int| 0 <= i < args.len() ==> (#[trigger] args[i]).value is Positional,
    ensures
        positional(args).len() == args.len(),
        forall|i: int| 0 <= i < args.len() ==> positional(args)[i] == (#[trigger] args[i]).value->Positional_0.value,
    decreases args.len(),
{
    if args.len() > 0 {
        lemma_all_positional(args.drop_last());
        assert forall|i: int| 0 <= i < args.len() implies positional(args)[i] == (#[trigger] args[i]).value->Positional_0.value by {
            if i < args.len() - 1 {
                assert(args.drop_last()[i] == args[i]);
            }
        }
    }
}

/// A call of a user function passes its arguments in order: a call
/// statement lowers to one `Call` of the function's entry whose `i`-th
/// argument is the call's `i`-th positional argument (named arguments are
/// not passed).
pub proof fn law_call_passes_arguments_in_order(s: Spanned<Stmt>, pc: int, slot: int, fs: Seq<FuncV>)
    requires
        s.value is Call,
        find_func(fs, s.value->Call_0.callee@) >= 0,
    ensures
        ({
            let c = s.value->Call_0;
            let g = gen_stmt(s, pc, slot, fs);
            &&& g.len() == 1
            &&& g[0] is Call
            &&& g[0]->Call_entry == fs[find_func(fs, c.callee@)].entry
            &&& (forall|i: int| 0 <= i < c.args@.len() ==> (#[trigger] c.args@[i]).value is Positional) ==> {
                &&& g[0]->Call_args.len() == c.args@.len()
                &&& forall|i: int|
                    0 <= i < c.args@.len() ==> g[0]->Call_args[i] == (#[trigger] c.args@[i]).value->Positional_0.value
            }
        }),
{
    let c = s.value->Call_0;
    if forall|i: int| 0 <= i < c.args@.len() ==> (#[trigger] c.args@[i]).value is Positional {
        lemma_all_positional(c.args@);
    }
}

} // verus!
