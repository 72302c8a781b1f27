//! The execution context: the resumable state of a run.
//!
//! A [`Context`] is everything the interpreter needs to resume a run between
//! invocations: the program counter, the run status, the variable scopes, the
//! call stack and the per-op verification state.

use std::collections::HashMap;

use vstd::prelude::*;

use crate::value::{spec_render, Value, ValueV, Vars};

verus! {

/// Run status.
#[derive(Debug, PartialEq)]
pub enum Status {
    /// The run is in progress.
    Running,
    /// The run reached `Halt` or a top-level `return`.
    Complete,
    /// The agent reported a fatal error, or an expression failed.
    Halted(String),
}

/// A call-stack frame for a user-function call.
#[derive(Debug)]
pub struct Frame {
    /// Where to resume in the caller.
    pub return_pc: u32,
    /// The caller variable that receives the return value, if any.
    pub into: Option<String>,
    /// The caller's variable scope, saved for restoration on return.
    pub saved_vars: Vars,
}

/// A verification report from the agent.
#[derive(Debug, PartialEq)]
pub enum CheckedReport {
    /// The pass-only form, `checked = true`.
    Bool(bool),
    /// A structured report.
    Object { passed: bool, reason: Option<String> },
}

impl CheckedReport {
    /// Whether the check passed.
    pub fn passed(&self) -> (r: bool)
        ensures
            r == self.spec_passed(),
    {
        match self {
            CheckedReport::Bool(passed) => *passed,
            CheckedReport::Object { passed, .. } => *passed,
        }
    }

    pub open spec fn spec_passed(&self) -> bool {
        match self {
            CheckedReport::Bool(passed) => *passed,
            CheckedReport::Object { passed, .. } => *passed,
        }
    }

    /// The reason the check failed, when the report gives one.
    pub fn failure_reason(&self) -> (r: Option<&str>)
        ensures
            match self {
                CheckedReport::Bool(_) => r is None,
                CheckedReport::Object { reason, .. } => match reason {
                    Some(t) => r is Some && r->0@ == t@,
                    None => r is None,
                },
            },
    {
        match self {
            CheckedReport::Bool(_) => None,
            CheckedReport::Object { reason, .. } => match reason {
                Some(t) => Some(t.as_str()),
                None => None,
            },
        }
    }
}

/// Per-agent-op state, keyed by the op's program-counter index.
#[derive(Debug, PartialEq)]
pub struct StepState {
    /// The agent's verification result, when the op has a `check`.
    pub checked: Option<CheckedReport>,
    /// The most recent failed verification reason, for retry context.
    pub failure_reason: Option<String>,
    /// How many times this op's check has failed.
    pub retry_count: u32,
}

impl Default for StepState {
    fn default() -> (r: StepState)
        ensures
            r.checked is None,
            r.failure_reason is None,
            r.retry_count == 0,
    {
        StepState { checked: None, failure_reason: None, retry_count: 0 }
    }
}

/// Runtime workflow metadata controlled by `@` directives.
#[derive(Debug, PartialEq)]
pub struct WorkflowMeta {
    /// Active template directory under `.steer/templates/`; `None` means
    /// `default`.
    pub template_dir: Option<String>,
    /// Workflow-level context description set by `@context = "..."`.
    pub context: Option<String>,
}

impl Default for WorkflowMeta {
    fn default() -> (r: WorkflowMeta)
        ensures
            r.template_dir is None,
            r.context is None,
    {
        WorkflowMeta { template_dir: None, context: None }
    }
}

/// The text a directive's value sets: its rendering, with empty meaning unset.
pub open spec fn meta_text(v: ValueV) -> Option<Seq<char>> {
    if spec_render(v).len() == 0 {
        None
    } else {
        Some(spec_render(v))
    }
}

pub open spec fn opt_text(s: Option<String>) -> Option<Seq<char>> {
    match s {
        Some(t) => Some(t@),
        None => None,
    }
}

impl WorkflowMeta {
    /// Apply the directive `@key = v`: `template` selects the template
    /// directory and `context` sets the workflow description (an empty
    /// rendering unsets either); other keys change nothing.
    pub fn apply(&mut self, key: &str, v: &Value)
        ensures
            key@ == "template"@ ==> opt_text(final(self).template_dir) == meta_text(v.view())
                && final(self).context == old(self).context,
            key@ == "context"@ ==> opt_text(final(self).context) == meta_text(v.view())
                && final(self).template_dir == old(self).template_dir,
            key@ != "template"@ && key@ != "context"@ ==> *final(self) == *old(self),
    {
        proof {
            reveal_strlit("template");
            reveal_strlit("context");
            assert("template"@.len() != "context"@.len());
        }
        if crate::text::str_eq(key, "template") {
            let rendered = v.render();
            self.template_dir = if rendered.as_str().unicode_len() == 0 {
                None
            } else {
                Some(rendered)
            };
        } else if crate::text::str_eq(key, "context") {
            let rendered = v.render();
            self.context = if rendered.as_str().unicode_len() == 0 {
                None
            } else {
                Some(rendered)
            };
        }
    }
}

/// The full execution context.
#[derive(Debug)]
pub struct Context {
    /// Program counter: index into the lowered instruction stream.
    pub pc: u32,
    pub status: Status,
    /// The current scope's variables.
    pub vars: Vars,
    /// The call stack: one frame per active user-function call.
    pub frames: Vec<Frame>,
    /// Per-agent-op state, keyed by program-counter index.
    pub steps: HashMap<u32, StepState>,
    /// Runtime metadata set by `@` directives.
    pub meta: WorkflowMeta,
}

impl Context {
    /// A fresh context at the start of a run.
    pub fn new() -> (r: Context)
        ensures
            r.pc == 0,
            r.status == Status::Running,
            r.vars@ == Map::<Seq<char>, crate::value::ValueV>::empty(),
            r.frames@.len() == 0,
            r.steps@ == Map::<u32, StepState>::empty(),
            r.meta.template_dir is None,
            r.meta.context is None,
    {
        Context {
            pc: 0,
            status: Status::Running,
            vars: Vars::new(),
            frames: Vec::new(),
            steps: HashMap::new(),
            meta: WorkflowMeta::default(),
        }
    }

    /// Whether the run is still in progress.
    pub fn is_running(&self) -> (r: bool)
        ensures
            r == (self.status is Running),
    {
        match self.status {
            Status::Running => true,
            _ => false,
        }
    }
}

impl Default for Context {
    fn default() -> (r: Context)
        ensures
            r.pc == 0,
            r.status == Status::Running,
            r.vars@ == Map::<Seq<char>, crate::value::ValueV>::empty(),
            r.frames@.len() == 0,
            r.steps@ == Map::<u32, StepState>::empty(),
    {
        Self::new()
    }
}

// ---- the mathematical model of a context ----

/// The model of a [`Status`].
pub enum StatusV {
    Running,
    Complete,
    Halted(Seq<char>),
}

impl Status {
    pub open spec fn view(&self) -> StatusV {
        match self {
            Status::Running => StatusV::Running,
            Status::Complete => StatusV::Complete,
            Status::Halted(r) => StatusV::Halted(r@),
        }
    }
}

/// The model of a [`Frame`].
pub struct FrameV {
    pub return_pc: u32,
    pub into: Option<Seq<char>>,
    pub saved_vars: Map<Seq<char>, ValueV>,
}

impl Frame {
    pub open spec fn view(&self) -> FrameV {
        FrameV { return_pc: self.return_pc, into: opt_text(self.into), saved_vars: self.saved_vars@ }
    }
}

/// The model of a [`Context`]; the metadata is `(template_dir, context)`.
pub struct CtxV {
    pub pc: u32,
    pub status: StatusV,
    pub vars: Map<Seq<char>, ValueV>,
    pub frames: Seq<FrameV>,
    pub steps: Map<u32, StepState>,
    pub meta: (Option<Seq<char>>, Option<Seq<char>>),
}

pub open spec fn frames_view(f: Seq<Frame>) -> Seq<FrameV> {
    Seq::new(f.len(), |i: int| f[i].view())
}

impl Context {
    pub open spec fn view(&self) -> CtxV {
        CtxV {
            pc: self.pc,
            status: self.status.view(),
            vars: self.vars@,
            frames: frames_view(self.frames@),
            steps: self.steps@,
            meta: (opt_text(self.meta.template_dir), opt_text(self.meta.context)),
        }
    }
}

/// The metadata after the directive `@key = v` (see [`WorkflowMeta::apply`]).
pub open spec fn spec_apply_meta(
    m: (Option<Seq<char>>, Option<Seq<char>>),
    key: Seq<char>,
    v: ValueV,
) -> (Option<Seq<char>>, Option<Seq<char>>) {
    if key == "template"@ {
        (meta_text(v), m.1)
    } else if key == "context"@ {
        (m.0, meta_text(v))
    } else {
        m
    }
}

/// The model of a [`CheckedReport`].
pub enum CheckedReportV {
    Bool(bool),
    Object { passed: bool, reason: Option<Seq<char>> },
}

impl CheckedReport {
    pub open spec fn view(&self) -> CheckedReportV {
        match self {
            CheckedReport::Bool(b) => CheckedReportV::Bool(*b),
            CheckedReport::Object { passed, reason } => CheckedReportV::Object { passed: *passed, reason: opt_text(*reason) },
        }
    }
}

/// Whether `name` can name an instance: it is not empty, not `.` or `..`,
/// and holds no path separator (`/`, `\\`) and no NUL.
pub open spec fn spec_valid_instance_name(name: Seq<char>) -> bool {
    &&& name.len() > 0
    &&& name != seq!['.']
    &&& name != seq!['.', '.']
    &&& !name.contains('/')
    &&& !name.contains('\\')
    &&& !name.contains('\0')
}

/// Whether `name` can name an instance (see [`spec_valid_instance_name`]).
pub fn valid_instance_name(name: &str) -> (r: bool)
    ensures
        r == spec_valid_instance_name(name@),
{
    let v = crate::text::str_chars(name);
    let n = v.len();
    if n == 0 {
        return false;
    }
    if n == 1 && v[0] == '.' {
        assert(v@ =~= seq!['.']);
        return false;
    }
    if n == 2 && v[0] == '.' && v[1] == '.' {
        assert(v@ =~= seq!['.', '.']);
        return false;
    }
    let mut k: usize = 0;
    while k < n
        invariant
            k <= n,
            n == v@.len(),
            v@ == name@,
            forall|j: int| 0 <= j < k ==> v@[j] != '/' && v@[j] != '\\' && v@[j] != '\0',
        decreases n - k,
    {
        let c = v[k];
        if c == '/' || c == '\\' || c == '\0' {
            proof {
                assert(v@[k as int] == c);
                if c == '/' {
                    assert(name@.contains('/'));
                } else if c == '\\' {
                    assert(name@.contains('\\'));
                } else {
                    assert(name@.contains('\0'));
                }
            }
            return false;
        }
        k = k + 1;
    }
    true
}

} // verus!
