//! The instruction-stepping interpreter over the IR.
//!
//! [`step`] advances the program counter past control instructions, pausing at
//! the next agent op and returning its rendered instruction. [`check`]
//! advances past an agent op once the agent has reported (by setting its
//! value or `checked`). The interpreter holds no state of its own: everything
//! lives in the [`Context`], so a run resumes transparently between calls.

use vstd::prelude::*;

use crate::ast::{Call, CallArg, Expr};
use crate::context::{
    opt_text, spec_apply_meta, CheckedReport, CheckedReportV, Context, CtxV, Frame, FrameV, Status, StatusV,
    StepState,
};
use crate::formatter::{index_named, ParamKind};
use crate::ir::Instr;
use crate::render::{
    chosen_template, render_call, render_check, render_check_report, render_retry_context,
    resolve_template_with_meta, spec_check_report, spec_check_text, spec_check_value, spec_context,
    spec_resolve, spec_retry_context, TemplateStore,
};
use crate::text::{owned, push_str, str_eq};
use crate::value::{
    dup_value, eval, spec_eval, spec_message, spec_truthy, EvalError, EvalErrorV, Value, ValueV, Vars,
};

verus! {

broadcast use vstd::std_specs::hash::group_hash_axioms;

/// Outcome of [`step`].
#[derive(Debug, PartialEq)]
pub enum StepOutcome {
    /// Paused at an agent op; the rendered instruction for the agent.
    Instruction(String),
    /// The run finished via `Halt` or a top-level `return`.
    Complete,
    /// The run was already not running.
    NotRunning,
    /// A control expression could not be evaluated; the run is halted.
    Error(EvalError),
    /// `u64::MAX` control instructions ran without reaching an agent op or
    /// the end: the program loops without ever pausing.
    Exhausted,
}

/// Outcome of [`check`].
#[derive(Debug, PartialEq)]
pub enum CheckOutcome {
    /// The current op passed; the program counter advanced.
    Advanced,
    /// Verification instructions for the current op.
    Instruction(String),
    /// The op's value has not been reported yet.
    Pending,
    /// The op's check failed; the program counter stays for a retry.
    Failed,
    /// There was no current agent op, or the program ended.
    Done,
    /// The run was already not running.
    NotRunning,
    /// A control expression could not be evaluated.
    Error(EvalError),
}

// ---- the small-step semantics of control instructions ----

/// The effect of one instruction on a running context.
pub enum Small {
    /// A control instruction ran; the run goes on from this context.
    Next(CtxV),
    /// The current instruction is an agent op: the run pauses.
    Pause,
    /// The run ended (`Halt`, a top-level `return`, or the end of the code).
    Stop(CtxV),
    /// An expression failed; the run is halted with its message.
    Fail(CtxV, EvalErrorV),
}

pub open spec fn halted_by(s: CtxV, e: EvalErrorV) -> CtxV {
    CtxV { status: StatusV::Halted(spec_message(e)), ..s }
}

pub open spec fn completed(s: CtxV) -> CtxV {
    CtxV { status: StatusV::Complete, ..s }
}

pub open spec fn next_pc(s: CtxV) -> u32 {
    (s.pc + 1) as u32
}

/// The scope a call binds: each parameter to its argument, evaluated in
/// order in the caller's scope, over the first `k` pairs; the first failing
/// argument's error.
pub open spec fn spec_bind(
    params: Seq<String>,
    args: Seq<Expr>,
    vars: Map<Seq<char>, ValueV>,
    k: int,
) -> Result<Map<Seq<char>, ValueV>, EvalErrorV>
    decreases k,
{
    if k <= 0 {
        Ok(Map::empty())
    } else {
        match spec_bind(params, args, vars, k - 1) {
            Err(e) => Err(e),
            Ok(m) => match spec_eval(args[k - 1], vars) {
                Ok(v) => Ok(m.insert(params[k - 1]@, v)),
                Err(e) => Err(e),
            },
        }
    }
}

pub open spec fn min_len(a: nat, b: nat) -> int {
    if a < b {
        a as int
    } else {
        b as int
    }
}

/// Whether `name` holds a non-empty list.
pub open spec fn nonempty_list(vars: Map<Seq<char>, ValueV>, name: Seq<char>) -> bool {
    &&& vars.contains_key(name)
    &&& vars[name] matches ValueV::List(items)
    &&& vars[name]->List_0.len() > 0
}

/// One instruction run on context `s`.
#[verifier::opaque]
pub open spec fn spec_small_step(ir: Seq<Instr>, s: CtxV) -> Small {
    if s.pc >= ir.len() {
        Small::Stop(completed(s))
    } else {
        match ir[s.pc as int] {
            Instr::Halt => Small::Stop(completed(s)),
            Instr::AgentOp { .. } => Small::Pause,
            Instr::SetMeta { key, expr } => match spec_eval(expr, s.vars) {
                Ok(v) => Small::Next(CtxV { meta: spec_apply_meta(s.meta, key@, v), pc: next_pc(s), ..s }),
                Err(e) => Small::Fail(halted_by(s, e), e),
            },
            Instr::Assign { var, expr } => match spec_eval(expr, s.vars) {
                Ok(v) => Small::Next(CtxV { vars: s.vars.insert(var@, v), pc: next_pc(s), ..s }),
                Err(e) => Small::Fail(halted_by(s, e), e),
            },
            Instr::JumpIfFalse { cond, target } => match spec_eval(cond, s.vars) {
                Ok(v) => Small::Next(
                    CtxV {
                        pc: if !spec_truthy(v) {
                            target
                        } else {
                            next_pc(s)
                        },
                        ..s
                    },
                ),
                Err(e) => Small::Fail(halted_by(s, e), e),
            },
            Instr::Jump { target } => Small::Next(CtxV { pc: target, ..s }),
            Instr::ForInit { iter, list } => match spec_eval(list, s.vars) {
                Ok(v) => Small::Next(CtxV { vars: s.vars.insert(iter@, v), pc: next_pc(s), ..s }),
                Err(e) => Small::Fail(halted_by(s, e), e),
            },
            Instr::ForIter { iter, var, end } => if nonempty_list(s.vars, iter@) {
                let items = s.vars[iter@]->List_0;
                Small::Next(
                    CtxV {
                        vars: s.vars.insert(var@, items[0]).insert(iter@, ValueV::List(items.skip(1))),
                        pc: next_pc(s),
                        ..s
                    },
                )
            } else {
                Small::Next(CtxV { pc: end, ..s })
            },
            Instr::Call { entry, params, args, into } => match spec_bind(
                params@,
                args@,
                s.vars,
                min_len(params@.len(), args@.len()),
            ) {
                Ok(scope) => Small::Next(
                    CtxV {
                        vars: scope,
                        frames: s.frames.push(
                            FrameV { return_pc: next_pc(s), into: opt_text(into), saved_vars: s.vars },
                        ),
                        pc: entry,
                        ..s
                    },
                ),
                Err(e) => Small::Fail(halted_by(s, e), e),
            },
            Instr::Return { value } => {
                let rv = match value {
                    Some(e) => spec_eval(e, s.vars),
                    None => Ok(ValueV::Null),
                };
                match rv {
                    Err(e) => Small::Fail(halted_by(s, e), e),
                    Ok(v) => if s.frames.len() > 0 {
                        let f = s.frames.last();
                        Small::Next(
                            CtxV {
                                vars: match f.into {
                                    Some(t) => f.saved_vars.insert(t, v),
                                    None => f.saved_vars,
                                },
                                frames: s.frames.drop_last(),
                                pc: f.return_pc,
                                ..s
                            },
                        )
                    } else {
                        Small::Stop(completed(s))
                    },
                }
            },
        }
    }
}

/// Where a run of control instructions ends.
pub enum Run {
    /// At an agent op, in this context.
    Paused(CtxV),
    /// At the end of the run.
    Stopped(CtxV),
    /// At a failing expression.
    Failed(CtxV, EvalErrorV),
    /// With the fuel spent, still among control instructions.
    OutOfFuel(CtxV),
}

/// Control instructions run from `s`, at most `fuel` of them.
pub open spec fn spec_run(ir: Seq<Instr>, s: CtxV, fuel: nat) -> Run
    decreases fuel,
{
    if fuel == 0 {
        Run::OutOfFuel(s)
    } else {
        match spec_small_step(ir, s) {
            Small::Next(t) => spec_run(ir, t, (fuel - 1) as nat),
            Small::Pause => Run::Paused(s),
            Small::Stop(t) => Run::Stopped(t),
            Small::Fail(t, e) => Run::Failed(t, e),
        }
    }
}

pub open spec fn reminder(text: Seq<char>) -> Seq<char> {
    "\n\n<steer-system-reminder>\n"@ + text + "\n</steer-system-reminder>"@
}

/// The instruction of the agent op at `s.pc`: its call rendered with the
/// template resolution picks, followed, when an earlier check of the op
/// failed, by the retry reminder.
pub open spec fn spec_instruction(ir: Seq<Instr>, s: CtxV, instance: Seq<char>, store: &TemplateStore) -> Seq<char> {
    match ir[s.pc as int] {
        Instr::AgentOp { call, into } => {
            let text = store.chosen(s.meta.0, call.callee@).body_template().spec_render(
                spec_context(call, opt_text(into), Some(s.vars), instance),
            );
            if s.steps.contains_key(s.pc) && s.steps[s.pc].failure_reason is Some {
                text + reminder(
                    spec_retry_context(s.steps[s.pc].failure_reason->0@, s.steps[s.pc].retry_count),
                )
            } else {
                text
            }
        },
        _ => Seq::empty(),
    }
}

// ---- running control instructions ----

/// Record an evaluation error and halt the run: the program counter stays on
/// the failing instruction. The error is returned for the caller to report.
fn eval_error(ctx: &mut Context, e: EvalError) -> (r: StepOutcome)
    ensures
        final(ctx)@ == halted_by(old(ctx)@, e@),
        r == StepOutcome::Error(e),
{
    ctx.status = Status::Halted(e.message());
    StepOutcome::Error(e)
}

fn opt_str_of(s: &Option<String>) -> (r: Option<&str>)
    ensures
        crate::render::opt_str(r) == opt_text(*s),
{
    match s {
        Some(t) => Some(t.as_str()),
        None => None,
    }
}

fn copy_opt(s: &Option<String>) -> (r: Option<String>)
    ensures
        opt_text(r) == opt_text(*s),
{
    match s {
        Some(t) => Some(t.clone()),
        None => None,
    }
}

/// The values of `items[1..]`.
fn list_tail(items: &Vec<Value>) -> (r: Vec<Value>)
    requires
        items@.len() > 0,
    ensures
        r@.len() == items@.len() - 1,
        forall|j: int| 0 <= j < r@.len() ==> (#[trigger] r@[j]).view() == items@[j + 1].view(),
{
    let mut out: Vec<Value> = Vec::new();
    let mut k: usize = 1;
    while k < items.len()
        invariant
            1 <= k <= items@.len(),
            out@.len() == k - 1,
            forall|j: int| 0 <= j < out@.len() ==> (#[trigger] out@[j]).view() == items@[j + 1].view(),
        decreases items.len() - k,
    {
        out.push(dup_value(&items[k]));
        k = k + 1;
    }
    out
}

/// Bind a user function's parameters and enter it.
fn enter_call(ctx: &mut Context, entry: u32, params: &Vec<String>, args: &Vec<Expr>, into: &Option<String>) -> (r: Option<EvalError>)
    requires
        old(ctx).pc < u32::MAX,
    ensures
        match spec_bind(params@, args@, old(ctx)@.vars, min_len(params@.len(), args@.len())) {
            Ok(scope) => r is None && final(ctx)@ == (CtxV {
                vars: scope,
                frames: old(ctx)@.frames.push(
                    FrameV { return_pc: next_pc(old(ctx)@), into: opt_text(*into), saved_vars: old(ctx)@.vars },
                ),
                pc: entry,
                ..old(ctx)@
            }),
            Err(e) => final(ctx)@ == old(ctx)@ && (r matches Some(x) && x@ == e),
        },
{
    let n = if params.len() < args.len() {
        params.len()
    } else {
        args.len()
    };
    let mut scope = Vars::new();
    let mut k: usize = 0;
    while k < n
        invariant
            k <= n,
            n == min_len(params@.len(), args@.len()),
            spec_bind(params@, args@, ctx@.vars, k as int) == Ok::<Map<Seq<char>, ValueV>, EvalErrorV>(scope@),
        decreases n - k,
    {
        match eval(&args[k], &ctx.vars) {
            Ok(v) => {
                scope.insert(params[k].clone(), v);
            },
            Err(e) => {
                proof {
                    lemma_bind_err(params@, args@, ctx@.vars, k as int + 1, n as int);
                }
                return Some(e);
            },
        }
        k = k + 1;
    }
    let saved = ctx.vars.take();
    ctx.vars = scope;
    let ghost old_frames = ctx.frames@;
    ctx.frames.push(Frame { return_pc: ctx.pc + 1, into: copy_opt(into), saved_vars: saved });
    ctx.pc = entry;
    proof {
        assert(frames_of(ctx) =~= frames_view_of(old_frames).push(
            FrameV { return_pc: next_pc(old(ctx)@), into: opt_text(*into), saved_vars: old(ctx)@.vars },
        ));
    }
    None
}

spec fn frames_of(ctx: &Context) -> Seq<FrameV> {
    crate::context::frames_view(ctx.frames@)
}

spec fn frames_view_of(f: Seq<Frame>) -> Seq<FrameV> {
    crate::context::frames_view(f)
}

/// An error at the `k`-th pair stays the error of every longer prefix.
proof fn lemma_bind_err(params: Seq<String>, args: Seq<Expr>, vars: Map<Seq<char>, ValueV>, k: int, n: int)
    requires
        1 <= k <= n,
        spec_bind(params, args, vars, k) is Err,
    ensures
        spec_bind(params, args, vars, n) == spec_bind(params, args, vars, k),
    decreases n - k,
{
    if k < n {
        lemma_bind_err(params, args, vars, k + 1, n);
    }
}

/// The instruction of the agent op at `ctx.pc` (see [`spec_instruction`]).
fn agent_instruction(ir: &[Instr], ctx: &Context, instance: &str, store: &TemplateStore) -> (r: String)
    requires
        store.wf(),
        ctx.pc < ir@.len(),
        ir@[ctx.pc as int] is AgentOp,
    ensures
        r@ == spec_instruction(ir@, ctx@, instance@, store),
{
    match &ir[ctx.pc as usize] {
        Instr::AgentOp { call, into } => {
            let text = render_call(call, opt_str_of(into), Some(&ctx.vars), &ctx.meta, instance, store);
            match ctx.steps.get(&ctx.pc) {
                Some(st) => match &st.failure_reason {
                    Some(reason) => append_retry_context(text, reason.as_str(), st.retry_count),
                    None => text,
                },
                None => text,
            }
        },
        _ => String::new(),
    }
}

/// Run the instruction at `ctx.pc` (see [`spec_small_step`]): `None` when
/// the run goes on, else the outcome that ends this step.
fn control_step(ir: &[Instr], ctx: &mut Context, instance: &str, store: &TemplateStore) -> (r: Option<StepOutcome>)
    requires
        store.wf(),
        ir@.len() <= u32::MAX,
    ensures
        match spec_small_step(ir@, old(ctx)@) {
            Small::Next(t) => r is None && final(ctx)@ == t,
            Small::Pause => final(ctx)@ == old(ctx)@ && (r matches Some(StepOutcome::Instruction(x)) && x@
                == spec_instruction(ir@, old(ctx)@, instance@, store)),
            Small::Stop(t) => r == Some(StepOutcome::Complete) && final(ctx)@ == t,
            Small::Fail(t, e) => final(ctx)@ == t && (r matches Some(StepOutcome::Error(x)) && x@ == e),
        },
{
    reveal(spec_small_step);
    let pc = ctx.pc as usize;
    if pc >= ir.len() {
        ctx.status = Status::Complete;
        return Some(StepOutcome::Complete);
    }
    match &ir[pc] {
        Instr::Halt => {
            ctx.status = Status::Complete;
            Some(StepOutcome::Complete)
        },
        Instr::AgentOp { .. } => Some(StepOutcome::Instruction(agent_instruction(ir, ctx, instance, store))),
        Instr::SetMeta { key, expr } => match eval(expr, &ctx.vars) {
            Ok(v) => {
                ctx.meta.apply(key.as_str(), &v);
                ctx.pc = ctx.pc + 1;
                None
            },
            Err(e) => Some(eval_error(ctx, e)),
        },
        Instr::Assign { var, expr } => match eval(expr, &ctx.vars) {
            Ok(v) => {
                ctx.vars.insert(var.clone(), v);
                ctx.pc = ctx.pc + 1;
                None
            },
            Err(e) => Some(eval_error(ctx, e)),
        },
        Instr::JumpIfFalse { cond, target } => match eval(cond, &ctx.vars) {
            Ok(v) => {
                if !v.truthy() {
                    ctx.pc = *target;
                } else {
                    ctx.pc = ctx.pc + 1;
                }
                None
            },
            Err(e) => Some(eval_error(ctx, e)),
        },
        Instr::Jump { target } => {
            ctx.pc = *target;
            None
        },
        Instr::ForInit { iter, list } => match eval(list, &ctx.vars) {
            Ok(v) => {
                ctx.vars.insert(iter.clone(), v);
                ctx.pc = ctx.pc + 1;
                None
            },
            Err(e) => Some(eval_error(ctx, e)),
        },
        Instr::ForIter { iter, var, end } => {
            let next = match ctx.vars.get(iter.as_str()) {
                Some(Value::List(items)) => {
                    if items.len() > 0 {
                        let first = dup_value(&items[0]);
                        let rest = list_tail(items);
                        proof {
                            let iv = ctx@.vars[iter@]->List_0;
                            assert(Value::List(rest).view()->List_0 =~= iv.skip(1));
                        }
                        Some((first, rest))
                    } else {
                        None
                    }
                },
                _ => None,
            };
            match next {
                Some((first, rest)) => {
                    ctx.vars.insert(var.clone(), first);
                    ctx.vars.insert(iter.clone(), Value::List(rest));
                    ctx.pc = ctx.pc + 1;
                },
                None => {
                    ctx.pc = *end;
                },
            }
            None
        },
        Instr::Call { entry, params, args, into } => match enter_call(ctx, *entry, params, args, into) {
            None => None,
            Some(e) => Some(eval_error(ctx, e)),
        },
        Instr::Return { value } => {
            let rv = match value {
                Some(e) => eval(e, &ctx.vars),
                None => Ok(Value::Null),
            };
            let ghost old_frames = ctx.frames@;
            match rv {
                Ok(v) => match ctx.frames.pop() {
                    Some(frame) => {
                        proof {
                            assert(crate::context::frames_view(ctx.frames@) =~= crate::context::frames_view(
                                old_frames,
                            ).drop_last());
                            assert(frame@ == crate::context::frames_view(old_frames).last());
                        }
                        ctx.vars = frame.saved_vars;
                        match frame.into {
                            Some(t) => ctx.vars.insert(t, v),
                            None => {},
                        }
                        ctx.pc = frame.return_pc;
                        None
                    },
                    None => {
                        ctx.status = Status::Complete;
                        Some(StepOutcome::Complete)
                    },
                },
                Err(e) => Some(eval_error(ctx, e)),
            }
        },
    }
}

fn append_retry_context(instruction: String, reason: &str, retry_count: u32) -> (r: String)
    ensures
        r@ == instruction@ + reminder(spec_retry_context(reason@, retry_count)),
{
    let mut s = instruction;
    push_str(&mut s, "\n\n<steer-system-reminder>\n");
    let retry = render_retry_context(reason, retry_count);
    crate::text::append_string(&mut s, &retry);
    push_str(&mut s, "\n</steer-system-reminder>");
    s
}

/// Advance past control instructions, pausing at the next agent op (see
/// [`spec_run`]). `instance` is the run's instance name, threaded into the
/// rendered instruction so the agent sees the exact command to report back.
pub fn step(ir: &[Instr], ctx: &mut Context, instance: &str, store: &TemplateStore) -> (r: StepOutcome)
    requires
        store.wf(),
        ir@.len() <= u32::MAX,
    ensures
        !(old(ctx)@.status is Running) ==> r == StepOutcome::NotRunning && final(ctx)@ == old(ctx)@,
        old(ctx)@.status is Running ==> match spec_run(ir@, old(ctx)@, u64::MAX as nat) {
            Run::Paused(s) => final(ctx)@ == s && (r matches StepOutcome::Instruction(x) && x@ == spec_instruction(
                ir@,
                s,
                instance@,
                store,
            )),
            Run::Stopped(s) => final(ctx)@ == s && r == StepOutcome::Complete,
            Run::Failed(s, e) => final(ctx)@ == s && (r matches StepOutcome::Error(x) && x@ == e),
            Run::OutOfFuel(s) => final(ctx)@ == s && r == StepOutcome::Exhausted,
        },
{
    if !ctx.is_running() {
        return StepOutcome::NotRunning;
    }
    let mut fuel: u64 = u64::MAX;
    loop
        invariant
            store.wf(),
            ir@.len() <= u32::MAX,
            old(ctx)@.status is Running,
            spec_run(ir@, ctx@, fuel as nat) == spec_run(ir@, old(ctx)@, u64::MAX as nat),
        decreases fuel,
    {
        if fuel == 0 {
            return StepOutcome::Exhausted;
        }
        let ghost s = ctx@;
        let o = control_step(ir, ctx, instance, store);
        proof {
            assert(spec_run(ir@, s, fuel as nat) == match spec_small_step(ir@, s) {
                Small::Next(t) => spec_run(ir@, t, (fuel - 1) as nat),
                Small::Pause => Run::Paused(s),
                Small::Stop(t) => Run::Stopped(t),
                Small::Fail(t, e) => Run::Failed(t, e),
            });
        }
        match o {
            None => {
                fuel = fuel - 1;
            },
            Some(o) => {
                return o;
            },
        }
    }
}

// ---- checking an agent op ----

/// How the current op is verified.
enum CheckKind {
    /// No value and no check: it passes as soon as it is checked.
    Auto,
    /// A value op: it passes once its receiver is set.
    Value(String),
    /// The op has a `check=` argument: it passes on a passing report.
    Checked,
}

/// Whether a call has a `check=` argument.
pub open spec fn has_check_arg(call: Call) -> bool {
    crate::render::check_arg_index(call.args@, 0) >= 0
}

fn check_kind(call: &Call, into: &Option<String>) -> (r: CheckKind)
    ensures
        has_check_arg(*call) ==> r is Checked,
        !has_check_arg(*call) && into is None ==> r is Auto,
        !has_check_arg(*call) && into is Some ==> (r matches CheckKind::Value(t) && t@ == into->0@),
{
    let mut k: usize = 0;
    while k < call.args.len()
        invariant
            k <= call.args@.len(),
            crate::render::check_arg_index(call.args@, 0) == crate::render::check_arg_index(call.args@, k as int),
        decreases call.args.len() - k,
    {
        match &call.args[k].value {
            CallArg::Named { name, .. } => {
                if str_eq(name.as_str(), "check") {
                    return CheckKind::Checked;
                }
            },
            _ => {},
        }
        k = k + 1;
    }
    match into {
        Some(t) => CheckKind::Value(t.clone()),
        None => CheckKind::Auto,
    }
}

/// The reason a failed report gives, or a default one.
pub open spec fn report_reason(r: CheckedReportV) -> Seq<char> {
    match r {
        CheckedReportV::Object { reason: Some(t), .. } => t,
        _ => "Verification failed without a reason."@,
    }
}

pub open spec fn report_passed(r: CheckedReportV) -> bool {
    match r {
        CheckedReportV::Bool(p) => p,
        CheckedReportV::Object { passed, .. } => passed,
    }
}

/// What [`check`] does.
pub enum CheckSpec {
    Advanced(CtxV),
    Pending,
    /// The op's report failed, with this reason.
    Failed(Seq<char>),
    Instruction(Seq<char>),
    Error(EvalErrorV),
    Done,
    NotRunning,
}

/// The outcome of checking the op at `s.pc`: an op without `check=` passes
/// when it has no receiver or its receiver is set; an op with `check=`
/// passes on a passing report, which is consumed, fails on a failing one,
/// and otherwise asks for verification.
pub open spec fn spec_check(ir: Seq<Instr>, s: CtxV, instance: Seq<char>, store: &TemplateStore) -> CheckSpec {
    if !(s.status is Running) {
        CheckSpec::NotRunning
    } else if s.pc >= ir.len() {
        CheckSpec::Done
    } else {
        match ir[s.pc as int] {
            Instr::AgentOp { call, into } => if !has_check_arg(call) {
                match into {
                    None => CheckSpec::Advanced(CtxV { pc: next_pc(s), ..s }),
                    Some(t) => if s.vars.contains_key(t@) {
                        CheckSpec::Advanced(CtxV { pc: next_pc(s), ..s })
                    } else {
                        CheckSpec::Pending
                    },
                }
            } else if s.steps.contains_key(s.pc) && s.steps[s.pc].checked is Some {
                let rep = s.steps[s.pc].checked->0@;
                if report_passed(rep) {
                    CheckSpec::Advanced(CtxV { pc: next_pc(s), steps: s.steps.remove(s.pc), ..s })
                } else {
                    CheckSpec::Failed(report_reason(rep))
                }
            } else {
                match spec_check_value(call, Some(s.vars)) {
                    Ok(v) => CheckSpec::Instruction(
                        spec_check_text(
                            store.chosen(s.meta.0, call.callee@).check_template(),
                            call,
                            opt_text(into),
                            Some(s.vars),
                            instance,
                            v,
                        ) + reminder(spec_check_report(instance)),
                    ),
                    Err(e) => CheckSpec::Error(e),
                }
            },
            _ => CheckSpec::Done,
        }
    }
}

/// The state after a failed report of the op at `s.pc`: its failure reason
/// recorded and its retry count raised, all else unchanged.
pub open spec fn failure_recorded(s: CtxV, t: CtxV, reason: Seq<char>) -> bool {
    &&& t == CtxV { steps: t.steps, ..s }
    &&& t.steps.remove(s.pc) == s.steps.remove(s.pc)
    &&& t.steps.contains_key(s.pc)
    &&& opt_text(t.steps[s.pc].failure_reason) == Some(reason)
    &&& t.steps[s.pc].retry_count == s.steps[s.pc].retry_count + 1
    &&& t.steps[s.pc].checked == s.steps[s.pc].checked
}

/// The verification instruction of an op: its check text, then how to report.
fn check_instruction(
    call: &Call,
    into: &Option<String>,
    vars: &Vars,
    meta: &crate::context::WorkflowMeta,
    instance: &str,
    store: &TemplateStore,
) -> (r: Result<String, EvalError>)
    requires
        store.wf(),
    ensures
        match spec_check_value(*call, Some(vars@)) {
            Ok(v) => r matches Ok(x) && x@ == spec_check_text(
                store.chosen(opt_text(meta.template_dir), call.callee@).check_template(),
                *call,
                opt_text(*into),
                Some(vars@),
                instance@,
                v,
            ) + reminder(spec_check_report(instance@)),
            Err(e) => r matches Err(x) && x@ == e,
        },
{
    let t = chosen_template(store, meta, call.callee.as_str());
    let instruction = render_check(t.check(), call, opt_str_of(into), Some(vars), instance)?;
    let mut s = instruction;
    push_str(&mut s, "\n\n<steer-system-reminder>\n");
    let report = render_check_report(instance);
    crate::text::append_string(&mut s, &report);
    push_str(&mut s, "\n</steer-system-reminder>");
    Ok(s)
}

/// Advance past the current agent op, dispatching on how it is verified (see
/// [`spec_check`]). `instance` is threaded into the verification instruction
/// so the agent sees the exact command to report with.
pub fn check(ir: &[Instr], ctx: &mut Context, instance: &str, store: &TemplateStore) -> (r: CheckOutcome)
    requires
        store.wf(),
        ir@.len() <= u32::MAX,
        old(ctx)@.steps.contains_key(old(ctx).pc) ==> old(ctx)@.steps[old(ctx).pc].retry_count < u32::MAX,
    ensures
        match spec_check(ir@, old(ctx)@, instance@, store) {
            CheckSpec::Advanced(t) => r == CheckOutcome::Advanced && final(ctx)@ == t,
            CheckSpec::Pending => r == CheckOutcome::Pending && final(ctx)@ == old(ctx)@,
            CheckSpec::Failed(reason) => r == CheckOutcome::Failed && failure_recorded(old(ctx)@, final(ctx)@, reason),
            CheckSpec::Instruction(x) => final(ctx)@ == old(ctx)@ && (r matches CheckOutcome::Instruction(y) && y@ == x),
            CheckSpec::Error(e) => final(ctx)@ == old(ctx)@ && (r matches CheckOutcome::Error(y) && y@ == e),
            CheckSpec::Done => r == CheckOutcome::Done && final(ctx)@ == old(ctx)@,
            CheckSpec::NotRunning => r == CheckOutcome::NotRunning && final(ctx)@ == old(ctx)@,
        },
{
    if !ctx.is_running() {
        return CheckOutcome::NotRunning;
    }
    let pc = ctx.pc as usize;
    if pc >= ir.len() {
        return CheckOutcome::Done;
    }
    match &ir[pc] {
        Instr::AgentOp { call, into } => match check_kind(call, into) {
            CheckKind::Auto => {
                ctx.pc = ctx.pc + 1;
                CheckOutcome::Advanced
            },
            CheckKind::Value(target) => {
                if ctx.vars.contains_key(target.as_str()) {
                    ctx.pc = ctx.pc + 1;
                    CheckOutcome::Advanced
                } else {
                    CheckOutcome::Pending
                }
            },
            CheckKind::Checked => {
                let p = ctx.pc;
                // 0: no report; 1: a passing report; 2: a failing one.
                let state: u8 = match ctx.steps.get(&p) {
                    Some(st) => match &st.checked {
                        Some(rep) => if rep.passed() {
                            1
                        } else {
                            2
                        },
                        None => 0,
                    },
                    None => 0,
                };
                if state == 1 {
                    // Consume the op's report: inside a loop the same op is
                    // re-entered each iteration, and a pass is reported once
                    // and consumed once.
                    ctx.steps.remove(&p);
                    ctx.pc = ctx.pc + 1;
                    CheckOutcome::Advanced
                } else if state == 2 {
                    match ctx.steps.remove(&p) {
                        Some(mut st) => {
                            let reason = match &st.checked {
                                Some(rep) => match rep.failure_reason() {
                                    Some(t) => owned(t),
                                    None => owned("Verification failed without a reason."),
                                },
                                None => owned("Verification failed without a reason."),
                            };
                            // Keep `checked` for audit; record the reason for
                            // the retry and count it.
                            st.failure_reason = Some(reason);
                            st.retry_count = st.retry_count + 1;
                            ctx.steps.insert(p, st);
                            proof {
                                assert(ctx@.steps.remove(p) =~= old(ctx)@.steps.remove(p));
                            }
                        },
                        None => {},
                    }
                    CheckOutcome::Failed
                } else {
                    match check_instruction(call, into, &ctx.vars, &ctx.meta, instance, store) {
                        Ok(s) => CheckOutcome::Instruction(s),
                        Err(e) => CheckOutcome::Error(e),
                    }
                }
            },
        },
        _ => CheckOutcome::Done,
    }
}

// ---- reports from the agent ----

/// A short name for a value's kind, for failure reasons.
pub open spec fn spec_kind_name(v: ValueV) -> Seq<char> {
    match v {
        ValueV::Null => "null"@,
        ValueV::Bool(_) => "boolean"@,
        ValueV::Int(_) => "number"@,
        ValueV::Float(_) => "number"@,
        ValueV::Str(_) => "string"@,
        ValueV::List(_) => "list"@,
        ValueV::Object(_) => "object"@,
    }
}

fn value_kind_name(value: &Value) -> (r: &'static str)
    ensures
        r@ == spec_kind_name(value.view()),
{
    match value {
        Value::Null => "null",
        Value::Bool(_) => "boolean",
        Value::Int(_) | Value::Float(_) => "number",
        Value::Str(_) => "string",
        Value::List(_) => "list",
        Value::Object(_) => "object",
    }
}

/// The kind of a template's `return` parameter, if it has one.
pub open spec fn return_kind(params: Seq<crate::formatter::ParamSpecV>) -> Option<ParamKind> {
    let i = index_named(params, "return"@, 0);
    if 0 <= i < params.len() {
        Some(params[i].kind)
    } else {
        None
    }
}

/// Whether a value may be set as the result of a call to `callee` whose
/// `return` is of `kind`: a boolean for `bool` returns, a string for
/// `string` returns; anything for other returns or without one.
pub open spec fn spec_type_check(callee: Seq<char>, kind: Option<ParamKind>, v: ValueV) -> Result<(), Seq<char>> {
    match kind {
        Some(ParamKind::IntrinsicBool) | Some(ParamKind::Bool) => if v is Bool {
            Ok(())
        } else {
            Err("expected a boolean (true/false) for `"@ + callee + "`, got "@ + spec_kind_name(v))
        },
        Some(ParamKind::String) => if v is Str {
            Ok(())
        } else {
            Err(
                "expected a string for `"@ + callee + "`, got "@ + spec_kind_name(v)
                    + " — if you meant to report structured data, that's not supported by return:string"@,
            )
        },
        _ => Ok(()),
    }
}

fn check_value_against_callee(
    call: &Call,
    value: &Value,
    meta: &crate::context::WorkflowMeta,
    store: &TemplateStore,
) -> (r: Result<(), String>)
    requires
        store.wf(),
    ensures
        match spec_type_check(
            call.callee@,
            return_kind(spec_resolve(store, opt_text(meta.template_dir), call.callee@).params),
            value.view(),
        ) {
            Ok(()) => r is Ok,
            Err(m) => r matches Err(x) && x@ == m,
        },
{
    let tmpl = resolve_template_with_meta(call.callee.as_str(), meta, store);
    let kind = match tmpl.return_spec() {
        Some(spec) => Some(spec.kind),
        None => None,
    };
    proof {
        crate::formatter::lemma_index_named_bounds(tmpl@.params, "return"@, 0);
    }
    let is_bool = match kind {
        Some(ParamKind::IntrinsicBool) | Some(ParamKind::Bool) => true,
        _ => false,
    };
    let is_string = match kind {
        Some(ParamKind::String) => true,
        _ => false,
    };
    if is_bool {
        match value {
            Value::Bool(_) => Ok(()),
            other => {
                let mut s = owned("expected a boolean (true/false) for `");
                crate::text::append_string(&mut s, &call.callee);
                push_str(&mut s, "`, got ");
                push_str(&mut s, value_kind_name(other));
                Err(s)
            },
        }
    } else if is_string {
        match value {
            Value::Str(_) => Ok(()),
            other => {
                let mut s = owned("expected a string for `");
                crate::text::append_string(&mut s, &call.callee);
                push_str(&mut s, "`, got ");
                push_str(&mut s, value_kind_name(other));
                push_str(
                    &mut s,
                    " — if you meant to report structured data, that's not supported by return:string",
                );
                Err(s)
            },
        }
    } else {
        Ok(())
    }
}

/// Whether `set` may store `v` into `var`: when `var` is the receiver of the
/// agent op at `s.pc`, the value must match that callee's declared `return`
/// type; any other variable is not constrained.
pub open spec fn spec_validate_set(ir: Seq<Instr>, s: CtxV, var: Seq<char>, v: ValueV, store: &TemplateStore) -> Result<
    (),
    Seq<char>,
> {
    if s.pc < ir.len() {
        match ir[s.pc as int] {
            Instr::AgentOp { call, into: Some(target) } => if target@ == var {
                spec_type_check(call.callee@, return_kind(spec_resolve(store, s.meta.0, call.callee@).params), v)
            } else {
                Ok(())
            },
            _ => Ok(()),
        }
    } else {
        Ok(())
    }
}

/// Validate a value the agent is about to `set` against the current op's
/// declared `return` type (see [`spec_validate_set`]). This runs at `set`
/// time, so a wrong-typed value is rejected before it is ever stored.
pub fn validate_set_value(ir: &[Instr], ctx: &Context, var: &str, value: &Value, store: &TemplateStore) -> (r: Result<
    (),
    String,
>)
    requires
        store.wf(),
    ensures
        match spec_validate_set(ir@, ctx@, var@, value.view(), store) {
            Ok(()) => r is Ok,
            Err(m) => r matches Err(x) && x@ == m,
        },
{
    let pc = ctx.pc as usize;
    if pc >= ir.len() {
        return Ok(());
    }
    match &ir[pc] {
        Instr::AgentOp { call, into } => match into {
            Some(target) => {
                if !str_eq(target.as_str(), var) {
                    return Ok(());
                }
                check_value_against_callee(call, value, &ctx.meta, store)
            },
            None => Ok(()),
        },
        _ => Ok(()),
    }
}

/// The value bound to `key` in an object's entries (the last binding).
pub open spec fn obj_get(entries: Seq<(Seq<char>, ValueV)>, key: Seq<char>) -> Option<ValueV>
    decreases entries.len(),
{
    if entries.len() == 0 {
        None
    } else if entries.last().0 == key {
        Some(entries.last().1)
    } else {
        obj_get(entries.drop_last(), key)
    }
}

/// The report a `checked` value stands for: `true`, or an object with a
/// boolean `passed` and, when it failed, a non-empty string `reason`.
pub open spec fn spec_checked_report(v: ValueV) -> Result<CheckedReportV, Seq<char>> {
    match v {
        ValueV::Bool(true) => Ok(CheckedReportV::Bool(true)),
        ValueV::Bool(false) => Err("`checked=false` is invalid; use `{\"passed\":false,\"reason\":\"...\"}`"@),
        ValueV::Object(entries) => match obj_get(entries, "passed"@) {
            Some(ValueV::Bool(passed)) => match obj_get(entries, "reason"@) {
                Some(ValueV::Str(reason)) => if crate::text::spec_trim(reason).len() > 0 {
                    Ok(CheckedReportV::Object { passed, reason: Some(reason) })
                } else if !passed {
                    Err("failed `checked` object must include a non-empty `reason`"@)
                } else {
                    Err("`checked.reason` must be a string"@)
                },
                Some(_) => Err("`checked.reason` must be a string"@),
                None => if !passed {
                    Err("failed `checked` object must include `reason`"@)
                } else {
                    Ok(CheckedReportV::Object { passed, reason: None })
                },
            },
            _ => Err("`checked` object must include boolean `passed`"@),
        },
        _ => Err("`checked` must be true or an object with `passed` and `reason`"@),
    }
}

/// The value bound to `key` in an object's entries (the last binding).
fn object_get<'a>(entries: &'a Vec<(String, Value)>, key: &str) -> (r: Option<&'a Value>)
    ensures
        match obj_get(Value::Object(*entries).view()->Object_0, key@) {
            Some(v) => r matches Some(x) && x.view() == v,
            None => r is None,
        },
{
    let ghost ev = Value::Object(*entries).view()->Object_0;
    let mut k = entries.len();
    assert(ev.take(k as int) =~= ev);
    while k > 0
        invariant
            k <= entries@.len(),
            ev == Value::Object(*entries).view()->Object_0,
            ev.len() == entries@.len(),
            obj_get(ev, key@) == obj_get(ev.take(k as int), key@),
        decreases k,
    {
        proof {
            let t = ev.take(k as int);
            assert(t.drop_last() =~= ev.take(k - 1));
            assert(t.last() == ev[k - 1]);
            assert(ev[k - 1] == (entries@[k - 1].0@, entries@[k - 1].1.view()));
        }
        if str_eq(entries[k - 1].0.as_str(), key) {
            return Some(&entries[k - 1].1);
        }
        k = k - 1;
    }
    None
}

/// Turn a `checked` value into a report (see [`spec_checked_report`]).
fn checked_report(value: Value) -> (r: Result<CheckedReport, String>)
    ensures
        match spec_checked_report(value.view()) {
            Ok(rep) => r matches Ok(x) && x@ == rep,
            Err(m) => r matches Err(x) && x@ == m,
        },
{
    match value {
        Value::Bool(true) => Ok(CheckedReport::Bool(true)),
        Value::Bool(false) => Err(owned("`checked=false` is invalid; use `{\"passed\":false,\"reason\":\"...\"}`")),
        Value::Object(object) => {
            let passed = match object_get(&object, "passed") {
                Some(Value::Bool(p)) => *p,
                _ => {
                    return Err(owned("`checked` object must include boolean `passed`"));
                },
            };
            let reason = match object_get(&object, "reason") {
                Some(Value::Str(reason)) => {
                    let c = crate::text::str_chars(reason.as_str());
                    let t = crate::text::trimmed(&c, 0, c.len());
                    proof {
                        assert(c@.subrange(0, c@.len() as int) =~= c@);
                    }
                    if t.as_str().unicode_len() > 0 {
                        Some(reason.clone())
                    } else if !passed {
                        return Err(owned("failed `checked` object must include a non-empty `reason`"));
                    } else {
                        return Err(owned("`checked.reason` must be a string"));
                    }
                },
                Some(_) => {
                    return Err(owned("`checked.reason` must be a string"));
                },
                None => {
                    if !passed {
                        return Err(owned("failed `checked` object must include `reason`"));
                    }
                    None
                },
            };
            Ok(CheckedReport::Object { passed, reason })
        },
        _ => Err(owned("`checked` must be true or an object with `passed` and `reason`")),
    }
}

/// Write a value into the context: a variable, or, for `checked`, the
/// verification report of the current agent op. A `checked` value that is
/// not a valid report is an error and changes nothing.
pub fn set_value(ctx: &mut Context, var: &str, value: Value) -> (r: Result<(), String>)
    ensures
        var@ != "checked"@ ==> r is Ok && final(ctx)@ == (CtxV {
            vars: old(ctx)@.vars.insert(var@, value.view()),
            ..old(ctx)@
        }),
        var@ == "checked"@ ==> match spec_checked_report(value.view()) {
            Ok(rep) => r is Ok && final(ctx)@ == CtxV { steps: final(ctx)@.steps, ..old(ctx)@ }
                && final(ctx)@.steps.remove(old(ctx).pc) == old(ctx)@.steps.remove(old(ctx).pc)
                && final(ctx)@.steps.contains_key(old(ctx).pc) && (final(ctx)@.steps[old(ctx).pc].checked matches Some(c)
                && c@ == rep) && (old(ctx)@.steps.contains_key(old(ctx).pc) ==> (
                final(ctx)@.steps[old(ctx).pc].failure_reason == old(ctx)@.steps[old(ctx).pc].failure_reason
                    && final(ctx)@.steps[old(ctx).pc].retry_count == old(ctx)@.steps[old(ctx).pc].retry_count))
                && (!old(ctx)@.steps.contains_key(old(ctx).pc) ==> (
                final(ctx)@.steps[old(ctx).pc].failure_reason is None && final(ctx)@.steps[old(ctx).pc].retry_count
                    == 0)),
            Err(m) => final(ctx)@ == old(ctx)@ && (r matches Err(x) && x@ == m),
        },
{
    if str_eq(var, "checked") {
        let report = checked_report(value)?;
        let p = ctx.pc;
        let mut st = match ctx.steps.remove(&p) {
            Some(st) => st,
            None => StepState::default(),
        };
        st.checked = Some(report);
        ctx.steps.insert(p, st);
        proof {
            assert(ctx@.steps.remove(p) =~= old(ctx)@.steps.remove(p));
        }
        Ok(())
    } else {
        ctx.vars.insert(owned(var), value);
        Ok(())
    }
}

/// Record a fatal error and halt the run.
pub fn report_error(ctx: &mut Context, reason: &str)
    ensures
        final(ctx)@ == (CtxV { status: StatusV::Halted(reason@), ..old(ctx)@ }),
{
    ctx.status = Status::Halted(owned(reason));
}


// ---- laws of the interpreter ----

proof fn lemma_next_keeps_status(ir: Seq<Instr>, s: CtxV)
    ensures
        spec_small_step(ir, s) matches Small::Next(t) ==> t.status == s.status,
{
    reveal(spec_small_step);
}

proof fn lemma_paused_at_agent_op(ir: Seq<Instr>, s: CtxV, fuel: nat)
    ensures
        spec_run(ir, s, fuel) matches Run::Paused(p) ==> spec_small_step(ir, p) == Small::Pause && p.status
            == s.status,
    decreases fuel,
{
    if fuel > 0 {
        lemma_next_keeps_status(ir, s);
        match spec_small_step(ir, s) {
            Small::Next(t) => {
                lemma_paused_at_agent_op(ir, t, (fuel - 1) as nat);
            },
            _ => {},
        }
    }
}

/// A function returns to its caller's scope: when a `Call` entered a
/// function and the function's frame is still the one on top, its `Return`
/// goes on at the instruction after the call, with the variables the caller
/// had when it made the call, plus only the call's receiver bound to the
/// returned value; the callee's own variables are gone.
pub proof fn law_return_restores_caller_scope(ir: Seq<Instr>, s: CtxV, s2: CtxV, v: ValueV)
    requires
        ir.len() <= u32::MAX,
        s.pc < ir.len(),
        ir[s.pc as int] is Call,
        spec_small_step(ir, s) is Next,
        s2.frames == spec_small_step(ir, s)->Next_0.frames,
        s2.pc < ir.len(),
        ir[s2.pc as int] matches Instr::Return { value } && match value {
            Some(e) => spec_eval(e, s2.vars) == Ok::<ValueV, EvalErrorV>(v),
            None => v == ValueV::Null,
        },
    ensures
        spec_small_step(ir, s2) is Next,
        spec_small_step(ir, s2)->Next_0.pc == s.pc + 1,
        spec_small_step(ir, s2)->Next_0.frames == s.frames,
        spec_small_step(ir, s2)->Next_0.vars == match opt_text(ir[s.pc as int]->Call_into) {
            Some(t) => s.vars.insert(t, v),
            None => s.vars,
        },
{
    reveal(spec_small_step);
    let s1 = spec_small_step(ir, s)->Next_0;
    assert(s1.frames.last() == FrameV { return_pc: next_pc(s), into: opt_text(ir[s.pc as int]->Call_into), saved_vars: s.vars });
    assert(s1.frames.drop_last() =~= s.frames);
}

proof fn lemma_bind_scope(
    params: Seq<String>,
    args: Seq<Expr>,
    vars: Map<Seq<char>, ValueV>,
    vals: Seq<ValueV>,
    k: int,
)
    requires
        0 <= k <= params.len(),
        k <= args.len(),
        k <= vals.len(),
        forall|i: int| 0 <= i < k ==> spec_eval(#[trigger] args[i], vars) == Ok::<ValueV, EvalErrorV>(vals[i]),
        forall|i: int, j: int| 0 <= i < k && 0 <= j < k && i != j ==> (#[trigger] params[i])@ != (#[trigger] params[j])@,
    ensures
        spec_bind(params, args, vars, k) is Ok,
        forall|i: int|
            0 <= i < k ==> (#[trigger] spec_bind(params, args, vars, k)->Ok_0.contains_key(params[i]@))
                && spec_bind(params, args, vars, k)->Ok_0[params[i]@] == vals[i],
        forall|n: Seq<char>|
            #[trigger] spec_bind(params, args, vars, k)->Ok_0.contains_key(n) ==> exists|i: int|
                0 <= i < k && (#[trigger] params[i])@ == n,
    decreases k,
{
    if k > 0 {
        lemma_bind_scope(params, args, vars, vals, k - 1);
        let m = spec_bind(params, args, vars, k - 1)->Ok_0;
        assert(spec_eval(args[k - 1], vars) == Ok::<ValueV, EvalErrorV>(vals[k - 1]));
        let m2 = m.insert(params[k - 1]@, vals[k - 1]);
        assert(spec_bind(params, args, vars, k) == Ok::<Map<Seq<char>, ValueV>, EvalErrorV>(m2));
        assert forall|i: int| 0 <= i < k implies m2.contains_key(params[i]@) && m2[params[i]@] == vals[i] by {
            if i < k - 1 {
                assert(params[i]@ != params[k - 1]@);
                assert(m.contains_key(params[i]@));
            }
        }
        assert forall|n: Seq<char>| m2.contains_key(n) implies exists|i: int|
            0 <= i < k && (#[trigger] params[i])@ == n by {
            if n == params[k - 1]@ {
                assert(params[k - 1]@ == n);
            } else {
                assert(m.contains_key(n));
                let i = choose|i: int| 0 <= i < k - 1 && (#[trigger] params[i])@ == n;
                assert(params[i]@ == n);
            }
        }
    }
}

/// A call enters its function in a scope of its own: when each argument of
/// a `Call` evaluates in the caller's scope, the run goes on at the
/// function's entry with the caller's frame pushed (to come back after the
/// call, into its receiver, with the caller's variables saved), and the
/// callee sees its parameters alone, the i-th bound to the i-th argument's
/// value (parameters with distinct names).
pub proof fn law_call_binds_parameters(ir: Seq<Instr>, s: CtxV, vals: Seq<ValueV>)
    requires
        ir.len() <= u32::MAX,
        s.pc < ir.len(),
        ir[s.pc as int] matches Instr::Call { params, args, .. } && params@.len() == args@.len() && vals.len()
            == args@.len() && (forall|i: int|
            0 <= i < args@.len() ==> spec_eval(#[trigger] args@[i], s.vars) == Ok::<ValueV, EvalErrorV>(vals[i]))
            && (forall|i: int, j: int|
            0 <= i < params@.len() && 0 <= j < params@.len() && i != j ==> (#[trigger] params@[i])@
                != (#[trigger] params@[j])@),
    ensures
        spec_small_step(ir, s) is Next,
        spec_small_step(ir, s)->Next_0.pc == ir[s.pc as int]->Call_entry,
        spec_small_step(ir, s)->Next_0.frames == s.frames.push(
            (FrameV {
                return_pc: (s.pc + 1) as u32,
                into: opt_text(ir[s.pc as int]->Call_into),
                saved_vars: s.vars,
            }),
        ),
        forall|i: int|
            0 <= i < vals.len() ==> spec_small_step(ir, s)->Next_0.vars.contains_key(
                (#[trigger] ir[s.pc as int]->Call_params@[i])@,
            ) && spec_small_step(ir, s)->Next_0.vars[ir[s.pc as int]->Call_params@[i]@] == vals[i],
        forall|n: Seq<char>|
            #[trigger] spec_small_step(ir, s)->Next_0.vars.contains_key(n) ==> exists|i: int|
                0 <= i < vals.len() && (#[trigger] ir[s.pc as int]->Call_params@[i])@ == n,
{
    reveal(spec_small_step);
    let params = ir[s.pc as int]->Call_params@;
    let args = ir[s.pc as int]->Call_args@;
    let k = min_len(params.len(), args.len());
    assert(k == vals.len());
    lemma_bind_scope(params, args, s.vars, vals, k);
}

/// Stepping is stable: once a running run has paused at an agent op,
/// stepping again from where it paused leaves the context as it is (the run
/// is still running and pauses at the same place), so it renders the same
/// instruction.
pub proof fn law_step_is_stable(ir: Seq<Instr>, s: CtxV)
    requires
        s.status is Running,
        spec_run(ir, s, u64::MAX as nat) is Paused,
    ensures
        spec_run(ir, s, u64::MAX as nat)->Paused_0.status is Running,
        spec_run(ir, spec_run(ir, s, u64::MAX as nat)->Paused_0, u64::MAX as nat) == spec_run(
            ir,
            s,
            u64::MAX as nat,
        ),
{
    lemma_paused_at_agent_op(ir, s, u64::MAX as nat);
}

/// A run that is not running neither steps nor checks: after `report_error`
/// (or once it completed) every `check` answers `NotRunning` and changes
/// nothing.
pub proof fn law_not_running_is_inert(ir: Seq<Instr>, s: CtxV, instance: Seq<char>, store: &TemplateStore)
    requires
        !(s.status is Running),
    ensures
        spec_check(ir, s, instance, store) == CheckSpec::NotRunning,
{
}

/// A value op (one with a receiver and no `check=`) is done once its value
/// is reported: after `set` of its receiver, `check` advances past it and
/// keeps the value.
pub proof fn law_set_receiver_then_check_advances(
    ir: Seq<Instr>,
    s: CtxV,
    v: ValueV,
    instance: Seq<char>,
    store: &TemplateStore,
)
    requires
        s.status is Running,
        s.pc < ir.len(),
        ir[s.pc as int] matches Instr::AgentOp { call, into: Some(_) } && !has_check_arg(call),
    ensures
        ({
            let t = ir[s.pc as int]->AgentOp_into->0;
            let s2 = CtxV { vars: s.vars.insert(t@, v), ..s };
            &&& spec_check(ir, s2, instance, store) == CheckSpec::Advanced(CtxV { pc: next_pc(s), ..s2 })
            &&& s2.vars[t@] == v
        }),
{
}

/// An op with `check=` is never passed without a report: until a report is
/// set, `check` does not advance.
pub proof fn law_checked_op_waits_for_report(
    ir: Seq<Instr>,
    s: CtxV,
    instance: Seq<char>,
    store: &TemplateStore,
)
    requires
        s.status is Running,
        s.pc < ir.len(),
        ir[s.pc as int] matches Instr::AgentOp { call, .. } && has_check_arg(call),
        !(s.steps.contains_key(s.pc) && s.steps[s.pc].checked is Some),
    ensures
        !(spec_check(ir, s, instance, store) is Advanced),
{
}

/// A passing report is consumed by the check it passes: the op's record is
/// removed, so when a loop comes back to the same op, it asks for a new
/// report instead of passing on the old one.
pub proof fn law_pass_is_consumed(ir: Seq<Instr>, s: CtxV, instance: Seq<char>, store: &TemplateStore)
    requires
        s.pc < ir.len(),
        ir[s.pc as int] matches Instr::AgentOp { call, .. } && has_check_arg(call),
        spec_check(ir, s, instance, store) is Advanced,
    ensures
        ({
            let t = spec_check(ir, s, instance, store)->Advanced_0;
            &&& !t.steps.contains_key(s.pc)
            &&& forall|q: u32| q != s.pc ==> t.steps.contains_key(q) == s.steps.contains_key(q)
            &&& !(spec_check(ir, CtxV { pc: s.pc, ..t }, instance, store) is Advanced)
        }),
{
}

/// A failed report keeps the program counter on the op and is handed back
/// to the agent: the next instruction of the op carries the failure reason
/// and the raised retry count.
pub proof fn law_failure_is_retried(
    ir: Seq<Instr>,
    s: CtxV,
    t: CtxV,
    reason: Seq<char>,
    instance: Seq<char>,
    store: &TemplateStore,
)
    requires
        s.pc < ir.len(),
        ir[s.pc as int] is AgentOp,
        spec_check(ir, s, instance, store) == CheckSpec::Failed(reason),
        failure_recorded(s, t, reason),
    ensures
        t.pc == s.pc,
        t.status == s.status,
        ({
            let base = spec_instruction(ir, CtxV { steps: s.steps.remove(s.pc), ..s }, instance, store);
            spec_instruction(ir, t, instance, store) == base + reminder(
                spec_retry_context(reason, t.steps[s.pc].retry_count),
            )
        }),
        t.steps[s.pc].retry_count == s.steps[s.pc].retry_count + 1,
{
}

} // verus!
