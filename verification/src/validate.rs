//! Semantic validation of a parsed workflow.
//!
//! [`validate`] takes a parsed [`Module`] and returns every diagnostic found,
//! so authors see all problems at once rather than fixing them one at a time.
//! It concerns the rules the parser cannot express: types of named arguments,
//! value-node requirements, reserved and duplicate names.

use vstd::prelude::*;

use crate::ast::{Call, CallArg, Expr, IfBranch, Module, Stmt, StringPart};
use crate::formatter::{index_named, ParamKind};
use crate::render::{resolve_template, spec_resolve, TemplateStore};
use crate::source::{Span, Spanned};
use crate::text::{append_string, owned, push_str, spec_starts_with, str_eq};
use crate::vm::return_kind;

verus! {

/// Diagnostic severity. Only errors are produced.
#[derive(Debug, Clone, Copy, PartialEq, Eq, Structural)]
pub enum Severity {
    Error,
}

/// A validation diagnostic with its source span.
#[derive(Debug, PartialEq)]
pub struct Diagnostic {
    pub severity: Severity,
    pub span: Span,
    pub message: String,
}

/// The model of a diagnostic: its span and message (every diagnostic is an
/// error).
pub open spec fn diag_view(d: Diagnostic) -> (Span, Seq<char>) {
    (d.span, d.message@)
}

pub open spec fn diags_view(ds: Seq<Diagnostic>) -> Seq<(Span, Seq<char>)> {
    Seq::new(ds.len(), |i: int| diag_view(ds[i]))
}

impl Diagnostic {
    fn error(span: Span, message: String) -> (r: Diagnostic)
        ensures
            diag_view(r) == (span, message@),
            r.severity == Severity::Error,
    {
        Diagnostic { severity: Severity::Error, span, message }
    }
}

/// Append a diagnostic.
fn push_diag(diags: &mut Vec<Diagnostic>, span: Span, message: String)
    ensures
        diags_view(final(diags)@) == diags_view(old(diags)@).push((span, message@)),
{
    let ghost before = diags@;
    diags.push(Diagnostic::error(span, message));
    assert(diags_view(diags@) =~= diags_view(before).push((span, message@)));
}

/// `"`" + a + b + "`" + c`-shaped messages.
pub open spec fn quoted(pre: Seq<char>, name: Seq<char>, post: Seq<char>) -> Seq<char> {
    pre + "`"@ + name + "`"@ + post
}

fn quoted_msg(pre: &str, name: &str, post: &str) -> (r: String)
    ensures
        r@ == quoted(pre@, name@, post@),
{
    let mut s = owned(pre);
    push_str(&mut s, "`");
    push_str(&mut s, name);
    push_str(&mut s, "`");
    push_str(&mut s, post);
    s
}

/// `checked` is the per-op verification flag and `__`-prefixed names back
/// the lowering's hidden loop and return slots; neither may be bound by
/// workflow code.
pub open spec fn is_reserved_binding(name: Seq<char>) -> bool {
    name == "checked"@ || spec_starts_with(name, "__"@)
}

fn reserved_binding(name: &str) -> (r: bool)
    ensures
        r == is_reserved_binding(name@),
{
    let c = crate::text::str_chars(name);
    let p = crate::text::str_chars("__");
    proof {
        assert(c@.skip(0) =~= c@);
    }
    str_eq(name, "checked") || crate::text::chars_match_at(&c, 0, &p)
}

/// The diagnostic for binding a reserved name, if `name` is one.
pub open spec fn binding_diags(span: Span, name: Seq<char>) -> Seq<(Span, Seq<char>)> {
    if is_reserved_binding(name) {
        seq![(span, quoted(""@, name, " is a reserved name and cannot be bound"@))]
    } else {
        Seq::empty()
    }
}

fn check_binding(diags: &mut Vec<Diagnostic>, span: Span, name: &str)
    ensures
        diags_view(final(diags)@) == diags_view(old(diags)@) + binding_diags(span, name@),
{
    if reserved_binding(name) {
        push_diag(diags, span, quoted_msg("", name, " is a reserved name and cannot be bound"));
    } else {
        assert(diags_view(diags@) =~= diags_view(old(diags)@) + binding_diags(span, name@));
    }
}

/// How a parameter type is named in diagnostics.
pub open spec fn kind_text(kind: ParamKind) -> Seq<char> {
    match kind {
        ParamKind::String => "string literal"@,
        ParamKind::Bool => "boolean (`true` or `false`)"@,
        ParamKind::List => "list literal"@,
        _ => "value"@,
    }
}

fn kind_text_of(kind: ParamKind) -> (r: &'static str)
    ensures
        r@ == kind_text(kind),
{
    match kind {
        ParamKind::String => "string literal",
        ParamKind::Bool => "boolean (`true` or `false`)",
        ParamKind::List => "list literal",
        ParamKind::NoValue | ParamKind::IntrinsicBool => "value",
    }
}

/// Whether an argument is the named argument `name`.
pub open spec fn arg_named(a: Spanned<CallArg>, name: Seq<char>) -> bool {
    match a.value {
        CallArg::Named { name: n, .. } => n@ == name,
        _ => false,
    }
}

/// Whether a call has a named argument `name`.
pub open spec fn has_named(c: Call, name: Seq<char>) -> bool {
    exists|i: int| 0 <= i < c.args@.len() && arg_named(#[trigger] c.args@[i], name)
}

fn has_named_arg(c: &Call, name: &str) -> (r: bool)
    ensures
        r == has_named(*c, name@),
{
    let mut k: usize = 0;
    while k < c.args.len()
        invariant
            k <= c.args@.len(),
            forall|i: int| 0 <= i < k ==> !arg_named(#[trigger] c.args@[i], name@),
        decreases c.args.len() - k,
    {
        match &c.args[k].value {
            CallArg::Named { name: n, .. } => {
                if str_eq(n.as_str(), name) {
                    return true;
                }
            },
            _ => {},
        }
        k = k + 1;
    }
    false
}

// ---- collecting function definitions ----

/// The diagnostics for repeated parameters `params[..k]`, in order.
pub open spec fn dup_param_diags(params: Seq<String>, k: int, fname: Seq<char>, span: Span) -> Seq<(Span, Seq<char>)>
    decreases k,
{
    if k <= 0 {
        Seq::empty()
    } else {
        let rest = dup_param_diags(params, k - 1, fname, span);
        let p = params[k - 1]@;
        if exists|j: int| 0 <= j < k - 1 && (#[trigger] params[j])@ == p {
            rest.push((span, "duplicate parameter `"@ + p + "` in function `"@ + fname + "`"@))
        } else {
            rest
        }
    }
}

/// The state of function collection: diagnostics so far, and the function
/// names seen.
pub struct Collect {
    pub diags: Seq<(Span, Seq<char>)>,
    pub funcs: Seq<Seq<char>>,
}

/// Function collection over a statement: a function nested in a block is an
/// error (only top-level definitions get entry points), as are repeated
/// parameters and a repeated function name.
pub open spec fn cf_stmt(s: Spanned<Stmt>, top: bool, st: Collect) -> Collect
    decreases s, 2int,
{
    match s.value {
        Stmt::Function { name, params, body } => {
            let d1 = if !top {
                st.diags.push((s.span, "functions must be defined at the top level"@))
            } else {
                st.diags
            };
            let d2 = d1 + dup_param_diags(params@, params@.len() as int, name@, s.span);
            let st3 = if st.funcs.contains(name@) {
                Collect { diags: d2.push((s.span, "duplicate function `"@ + name@ + "`"@)), funcs: st.funcs }
            } else {
                Collect { diags: d2, funcs: st.funcs.push(name@) }
            };
            cf_block(body@, false, st3)
        },
        Stmt::If { branches, else_block } => {
            let st2 = cf_branches(branches@, st);
            match else_block {
                Some(b) => cf_block(b@, false, st2),
                None => st2,
            }
        },
        Stmt::LoopUntil { body, .. } => cf_block(body@, false, st),
        Stmt::For { body, .. } => cf_block(body@, false, st),
        _ => st,
    }
}

pub open spec fn cf_block(b: Seq<Spanned<Stmt>>, top: bool, st: Collect) -> Collect
    decreases b, 1int,
{
    if b.len() == 0 {
        st
    } else {
        cf_stmt(b.last(), top, cf_block(b.drop_last(), top, st))
    }
}

pub open spec fn cf_branches(bs: Seq<IfBranch>, st: Collect) -> Collect
    decreases bs, 1int,
{
    if bs.len() == 0 {
        st
    } else {
        cf_block(bs.last().body@, false, cf_branches(bs.drop_last(), st))
    }
}

pub open spec fn names_view(v: Seq<String>) -> Seq<Seq<char>> {
    Seq::new(v.len(), |i: int| v[i]@)
}

/// The exec state of validation.
struct Validator {
    diags: Vec<Diagnostic>,
    funcs: Vec<String>,
}

impl Validator {
    spec fn state(&self) -> Collect {
        Collect { diags: diags_view(self.diags@), funcs: names_view(self.funcs@) }
    }

    fn knows_func(&self, name: &str) -> (r: bool)
        ensures
            r == self.state().funcs.contains(name@),
    {
        let mut k: usize = 0;
        while k < self.funcs.len()
            invariant
                k <= self.funcs@.len(),
                forall|i: int| 0 <= i < k ==> (#[trigger] self.funcs@[i])@ != name@,
            decreases self.funcs.len() - k,
        {
            if str_eq(self.funcs[k].as_str(), name) {
                assert(names_view(self.funcs@)[k as int] == name@);
                return true;
            }
            k = k + 1;
        }
        assert(!names_view(self.funcs@).contains(name@)) by {
            if names_view(self.funcs@).contains(name@) {
                let i = choose|i: int| 0 <= i < self.funcs@.len() && #[trigger] names_view(self.funcs@)[i] == name@;
                assert(self.funcs@[i]@ == name@);
            }
        }
        false
    }

    fn dup_params(&mut self, params: &Vec<String>, fname: &str, span: Span)
        ensures
            final(self).state() == (Collect {
                diags: old(self).state().diags + dup_param_diags(params@, params@.len() as int, fname@, span),
                ..old(self).state()
            }),
            final(self).funcs == old(self).funcs,
    {
        let mut k: usize = 0;
        while k < params.len()
            invariant
                k <= params@.len(),
                self.funcs == old(self).funcs,
                diags_view(self.diags@) == diags_view(old(self).diags@) + dup_param_diags(params@, k as int, fname@, span),
            decreases params.len() - k,
        {
            let mut seen = false;
            let mut j: usize = 0;
            while j < k
                invariant
                    j <= k < params@.len(),
                    seen == exists|i: int| 0 <= i < j && (#[trigger] params@[i])@ == params@[k as int]@,
                decreases k - j,
            {
                if str_eq(params[j].as_str(), params[k].as_str()) {
                    seen = true;
                }
                j = j + 1;
            }
            if seen {
                let mut m = owned("duplicate parameter `");
                append_string(&mut m, &params[k]);
                push_str(&mut m, "` in function `");
                push_str(&mut m, fname);
                push_str(&mut m, "`");
                push_diag(&mut self.diags, span, m);
            }
            proof {
                assert(diags_view(self.diags@) =~= diags_view(old(self).diags@) + dup_param_diags(
                    params@,
                    k + 1,
                    fname@,
                    span,
                ));
            }
            k = k + 1;
        }
    }
}

impl Validator {
    /// Collect function definitions (see [`cf_stmt`]).
    fn collect_stmt(&mut self, s: &Spanned<Stmt>, top: bool)
        ensures
            final(self).state() == cf_stmt(*s, top, old(self).state()),
        decreases s, 2int,
    {
        match &s.value {
            Stmt::Function { name, params, body } => {
                if !top {
                    push_diag(&mut self.diags, s.span, owned("functions must be defined at the top level"));
                }
                self.dup_params(params, name.as_str(), s.span);
                if self.knows_func(name.as_str()) {
                    let mut m = owned("duplicate function `");
                    append_string(&mut m, name);
                    push_str(&mut m, "`");
                    push_diag(&mut self.diags, s.span, m);
                } else {
                    let ghost before = self.funcs@;
                    self.funcs.push(name.clone());
                    assert(names_view(self.funcs@) =~= names_view(before).push(name@));
                }
                self.collect_block(body, false);
            },
            Stmt::If { branches, else_block } => {
                let mut k: usize = 0;
                assert(branches@.take(0) =~= Seq::<IfBranch>::empty());
                assert forall|j: int| 0 <= j < branches@.len() implies decreases_to!(s => (#[trigger] branches@[j]).body@) by {
                    assert(decreases_to!(s => s.value));
                    assert(decreases_to!(*branches => branches@));
                    assert(decreases_to!(branches@ => branches@[j]));
                }
                while k < branches.len()
                    invariant
                        k <= branches@.len(),
                        forall|j: int| 0 <= j < branches@.len() ==> decreases_to!(s => (#[trigger] branches@[j]).body@),
                        self.state() == cf_branches(branches@.take(k as int), old(self).state()),
                    decreases branches.len() - k,
                {
                    proof {
                        let t = branches@.take(k + 1);
                        assert(t.drop_last() =~= branches@.take(k as int));
                        assert(t.last() == branches@[k as int]);
                    }
                    self.collect_block(&branches[k].body, false);
                    k = k + 1;
                }
                assert(branches@.take(branches@.len() as int) =~= branches@);
                match else_block {
                    Some(b) => self.collect_block(b, false),
                    None => {},
                }
            },
            Stmt::LoopUntil { body, .. } => self.collect_block(body, false),
            Stmt::For { body, .. } => self.collect_block(body, false),
            _ => {},
        }
    }

    fn collect_block(&mut self, b: &Vec<Spanned<Stmt>>, top: bool)
        ensures
            final(self).state() == cf_block(b@, top, old(self).state()),
        decreases b@, 1int,
    {
        let mut k: usize = 0;
        assert(b@.take(0) =~= Seq::<Spanned<Stmt>>::empty());
        while k < b.len()
            invariant
                k <= b@.len(),
                self.state() == cf_block(b@.take(k as int), top, old(self).state()),
            decreases b.len() - k,
        {
            proof {
                let t = b@.take(k + 1);
                assert(t.drop_last() =~= b@.take(k as int));
                assert(t.last() == b@[k as int]);
            }
            self.collect_stmt(&b[k], top);
            k = k + 1;
        }
        assert(b@.take(b@.len() as int) =~= b@);
    }
}

// ---- checking calls and values ----

pub type Diag = (Span, Seq<char>);

/// The diagnostics for a call used as a value (assigned or returned): a node
/// whose `return` is `none`, or that has no `return` parameter, produces no
/// value; a string-valued node needs a `return=` argument. User functions
/// always return a value.
pub open spec fn value_expr_diags(e: Spanned<Expr>, funcs: Seq<Seq<char>>, store: &TemplateStore) -> Seq<Diag> {
    match e.value {
        Expr::Call(c) => if funcs.contains(c.callee@) {
            Seq::empty()
        } else {
            match return_kind(spec_resolve(store, None, c.callee@).params) {
                Some(ParamKind::NoValue) | None => seq![
                    (e.span, quoted(""@, c.callee@, " produces no value and cannot be assigned or returned"@)),
                ],
                Some(ParamKind::String) => if !has_named(c, "return"@) {
                    seq![
                        (e.span, quoted(
                            "value node "@,
                            c.callee@,
                            " used as a value needs a `return=` format argument"@,
                        )),
                    ]
                } else {
                    Seq::empty()
                },
                _ => Seq::empty(),
            }
        },
        _ => Seq::empty(),
    }
}

/// The diagnostics for repeated named arguments among `args[..k]`.
pub open spec fn dup_arg_diags(args: Seq<Spanned<CallArg>>, k: int) -> Seq<Diag>
    decreases k,
{
    if k <= 0 {
        Seq::empty()
    } else {
        let rest = dup_arg_diags(args, k - 1);
        match args[k - 1].value {
            CallArg::Named { name, .. } => if exists|j: int| 0 <= j < k - 1 && arg_named(#[trigger] args[j], name@) {
                rest.push((args[k - 1].span, quoted("duplicate argument "@, name@, ""@)))
            } else {
                rest
            },
            _ => rest,
        }
    }
}

/// Whether an argument expression has the type a parameter declares.
pub open spec fn arg_type_ok(kind: ParamKind, e: Expr) -> bool {
    match kind {
        ParamKind::String => e is String,
        ParamKind::Bool => e matches Expr::Var(v) && (v@ == "true"@ || v@ == "false"@),
        ParamKind::List => e is List,
        _ => false,
    }
}

/// The diagnostics for named arguments among `args[..k]` whose type does not
/// match their parameter; `return: none` and `return: bool` are not DSL
/// arguments and are not checked; unknown names are accepted.
pub open spec fn arg_type_diags(
    args: Seq<Spanned<CallArg>>,
    k: int,
    callee: Seq<char>,
    params: Seq<crate::formatter::ParamSpecV>,
) -> Seq<Diag>
    decreases k,
{
    if k <= 0 {
        Seq::empty()
    } else {
        let rest = arg_type_diags(args, k - 1, callee, params);
        match args[k - 1].value {
            CallArg::Named { name, value } => {
                let i = index_named(params, name@, 0);
                if 0 <= i < params.len() && !(params[i].kind is NoValue) && !(params[i].kind is IntrinsicBool)
                    && !arg_type_ok(params[i].kind, value.value) {
                    rest.push(
                        (
                            args[k - 1].span,
                            quoted("argument "@, name@, " of "@) + "`"@ + callee + "` must be a "@ + kind_text(
                                params[i].kind,
                            ),
                        ),
                    )
                } else {
                    rest
                }
            },
            _ => rest,
        }
    }
}

/// The diagnostics for required parameters among `params[..k]` with no named
/// argument. `instruction` is the positional argument, so it is not checked
/// here; nor is `return` where the call is the value of an assignment or a
/// `return` (`valued`), where [`value_expr_diags`] reports a missing `return=`.
pub open spec fn required_diags(
    params: Seq<crate::formatter::ParamSpecV>,
    k: int,
    c: Call,
    span: Span,
    valued: bool,
) -> Seq<Diag>
    decreases k,
{
    if k <= 0 {
        Seq::empty()
    } else {
        let rest = required_diags(params, k - 1, c, span, valued);
        let p = params[k - 1];
        if p.name != "instruction"@ && !(valued && p.name == "return"@) && p.required && !has_named(c, p.name) {
            rest.push((span, quoted(""@, c.callee@, " requires a "@) + "`"@ + p.name + "` argument"@))
        } else {
            rest
        }
    }
}

pub open spec fn has_positional(c: Call) -> bool {
    exists|i: int| 0 <= i < c.args@.len() && (#[trigger] c.args@[i]).value is Positional
}

/// The diagnostics of a call: repeated named arguments; then, unless it calls
/// a user function, a missing required instruction, mistyped arguments and
/// missing required arguments, by its template's formatter. `valued` says
/// whether the call is the value of an assignment or a `return`.
pub open spec fn call_diags(span: Span, c: Call, funcs: Seq<Seq<char>>, store: &TemplateStore, valued: bool) -> Seq<Diag> {
    let dups = dup_arg_diags(c.args@, c.args@.len() as int);
    if funcs.contains(c.callee@) {
        dups
    } else {
        let params = spec_resolve(store, None, c.callee@).params;
        let needs_instruction = exists|i: int|
            0 <= i < params.len() && (#[trigger] params[i]).name == "instruction"@ && params[i].required;
        dups + (if needs_instruction && !has_positional(c) {
            seq![(span, quoted(""@, c.callee@, " requires an instruction argument"@))]
        } else {
            Seq::empty()
        }) + arg_type_diags(c.args@, c.args@.len() as int, c.callee@, params) + required_diags(
            params,
            params.len() as int,
            c,
            span,
            valued,
        )
    }
}

// ---- the visit ----

/// The expression of an argument.
pub open spec fn arg_expr(a: Spanned<CallArg>) -> Spanned<Expr> {
    match a.value {
        CallArg::Positional(x) => *x,
        CallArg::Named { value, .. } => *value,
    }
}

/// The diagnostics of the calls inside an expression, in order.
pub open spec fn v_expr(e: Spanned<Expr>, funcs: Seq<Seq<char>>, store: &TemplateStore) -> Seq<Diag>
    decreases e,
{
    match e.value {
        Expr::Call(c) => call_diags(e.span, c, funcs, store, false) + v_args(c.args@, funcs, store),
        Expr::Binary { lhs, rhs, .. } => v_expr(*lhs, funcs, store) + v_expr(*rhs, funcs, store),
        Expr::Unary { expr, .. } => v_expr(*expr, funcs, store),
        Expr::List(elems) => v_exprs(elems@, funcs, store),
        Expr::String(parts) => v_parts(parts@, funcs, store),
        _ => Seq::empty(),
    }
}

/// The diagnostics of the calls inside the value of an assignment or a
/// `return`: a call there is `valued`.
pub open spec fn v_value(e: Spanned<Expr>, funcs: Seq<Seq<char>>, store: &TemplateStore) -> Seq<Diag> {
    match e.value {
        Expr::Call(c) => call_diags(e.span, c, funcs, store, true) + v_args(c.args@, funcs, store),
        _ => v_expr(e, funcs, store),
    }
}

pub open spec fn v_args(args: Seq<Spanned<CallArg>>, funcs: Seq<Seq<char>>, store: &TemplateStore) -> Seq<Diag>
    decreases args,
{
    if args.len() == 0 {
        Seq::empty()
    } else {
        v_args(args.drop_last(), funcs, store) + v_expr(arg_expr(args.last()), funcs, store)
    }
}

pub open spec fn v_exprs(es: Seq<Spanned<Expr>>, funcs: Seq<Seq<char>>, store: &TemplateStore) -> Seq<Diag>
    decreases es,
{
    if es.len() == 0 {
        Seq::empty()
    } else {
        v_exprs(es.drop_last(), funcs, store) + v_expr(es.last(), funcs, store)
    }
}

pub open spec fn v_parts(ps: Seq<StringPart>, funcs: Seq<Seq<char>>, store: &TemplateStore) -> Seq<Diag>
    decreases ps,
{
    if ps.len() == 0 {
        Seq::empty()
    } else {
        v_parts(ps.drop_last(), funcs, store) + match ps.last() {
            StringPart::Interpolation(inner) => v_expr(*inner, funcs, store),
            StringPart::Literal(_) => Seq::empty(),
        }
    }
}

/// The diagnostics of a statement, in order.
pub open spec fn v_stmt(s: Spanned<Stmt>, funcs: Seq<Seq<char>>, store: &TemplateStore) -> Seq<Diag>
    decreases s,
{
    match s.value {
        Stmt::Meta { value, .. } => v_expr(*value, funcs, store),
        Stmt::Assign { target, value } => binding_diags(s.span, target@) + value_expr_diags(*value, funcs, store)
            + v_value(*value, funcs, store),
        Stmt::Call(c) => call_diags(s.span, c, funcs, store, false) + v_args(c.args@, funcs, store),
        Stmt::Return { value } => match value {
            Some(v) => value_expr_diags(*v, funcs, store) + v_value(*v, funcs, store),
            None => Seq::empty(),
        },
        Stmt::If { branches, else_block } => v_branches(branches@, funcs, store) + match else_block {
            Some(b) => v_block(b@, funcs, store),
            None => Seq::empty(),
        },
        Stmt::LoopUntil { body, cond } => v_block(body@, funcs, store) + v_expr(*cond, funcs, store),
        Stmt::For { var, iterable, body } => binding_diags(s.span, var@) + v_expr(*iterable, funcs, store) + v_block(
            body@,
            funcs,
            store,
        ),
        Stmt::Function { params, body, .. } => param_bindings(params@, s.span) + v_block(body@, funcs, store),
    }
}

pub open spec fn v_block(b: Seq<Spanned<Stmt>>, funcs: Seq<Seq<char>>, store: &TemplateStore) -> Seq<Diag>
    decreases b,
{
    if b.len() == 0 {
        Seq::empty()
    } else {
        v_block(b.drop_last(), funcs, store) + v_stmt(b.last(), funcs, store)
    }
}

pub open spec fn v_branches(bs: Seq<IfBranch>, funcs: Seq<Seq<char>>, store: &TemplateStore) -> Seq<Diag>
    decreases bs,
{
    if bs.len() == 0 {
        Seq::empty()
    } else {
        v_branches(bs.drop_last(), funcs, store) + v_expr(*bs.last().cond, funcs, store) + v_block(
            bs.last().body@,
            funcs,
            store,
        )
    }
}

pub open spec fn param_bindings(ps: Seq<String>, span: Span) -> Seq<Diag>
    decreases ps.len(),
{
    if ps.len() == 0 {
        Seq::empty()
    } else {
        param_bindings(ps.drop_last(), span) + binding_diags(span, ps.last()@)
    }
}

/// Every diagnostic of a module: function collection over the top level,
/// then the visit of every statement with the functions collected.
pub open spec fn spec_validate(m: Module, store: &TemplateStore) -> Seq<Diag> {
    let c = cf_block(m.body@, true, Collect { diags: Seq::empty(), funcs: Seq::empty() });
    c.diags + v_block(m.body@, c.funcs, store)
}

fn arg_type_matches(kind: ParamKind, e: &Expr) -> (r: bool)
    ensures
        r == arg_type_ok(kind, *e),
{
    match kind {
        ParamKind::String => match e {
            Expr::String(_) => true,
            _ => false,
        },
        ParamKind::Bool => match e {
            Expr::Var(v) => str_eq(v.as_str(), "true") || str_eq(v.as_str(), "false"),
            _ => false,
        },
        ParamKind::List => match e {
            Expr::List(_) => true,
            _ => false,
        },
        _ => false,
    }
}

/// The first parameter named `name`.
fn find_param(params: &Vec<crate::formatter::ParamSpec>, name: &str) -> (r: Option<usize>)
    ensures
        match r {
            Some(i) => i == index_named(crate::formatter::params_view(params@), name@, 0) && i < params@.len(),
            None => index_named(crate::formatter::params_view(params@), name@, 0) < 0,
        },
{
    let ghost pv = crate::formatter::params_view(params@);
    proof {
        crate::formatter::lemma_index_named_bounds(pv, name@, 0);
    }
    let mut k: usize = 0;
    while k < params.len()
        invariant
            k <= params@.len(),
            pv == crate::formatter::params_view(params@),
            index_named(pv, name@, 0) == index_named(pv, name@, k as int),
        decreases params.len() - k,
    {
        assert(pv[k as int] == params@[k as int]@);
        if str_eq(params[k].name.as_str(), name) {
            return Some(k);
        }
        k = k + 1;
    }
    None
}

impl Validator {
    fn dup_args(&mut self, c: &Call)
        ensures
            diags_view(final(self).diags@) == diags_view(old(self).diags@) + dup_arg_diags(c.args@, c.args@.len() as int),
            final(self).funcs == old(self).funcs,
    {
        let mut k: usize = 0;
        while k < c.args.len()
            invariant
                k <= c.args@.len(),
                self.funcs == old(self).funcs,
                diags_view(self.diags@) == diags_view(old(self).diags@) + dup_arg_diags(c.args@, k as int),
            decreases c.args.len() - k,
        {
            match &c.args[k].value {
                CallArg::Named { name, .. } => {
                    let mut seen = false;
                    let mut j: usize = 0;
                    while j < k
                        invariant
                            j <= k < c.args@.len(),
                            c.args@[k as int].value matches CallArg::Named { name: n, .. } && n@ == name@,
                            seen == exists|i: int| 0 <= i < j && arg_named(#[trigger] c.args@[i], name@),
                        decreases k - j,
                    {
                        match &c.args[j].value {
                            CallArg::Named { name: n, .. } => {
                                if str_eq(n.as_str(), name.as_str()) {
                                    seen = true;
                                }
                            },
                            _ => {},
                        }
                        j = j + 1;
                    }
                    if seen {
                        push_diag(&mut self.diags, c.args[k].span, quoted_msg("duplicate argument ", name.as_str(), ""));
                    }
                },
                _ => {},
            }
            proof {
                assert(diags_view(self.diags@) =~= diags_view(old(self).diags@) + dup_arg_diags(c.args@, k + 1));
            }
            k = k + 1;
        }
    }

    fn arg_types(&mut self, c: &Call, params: &Vec<crate::formatter::ParamSpec>)
        ensures
            diags_view(final(self).diags@) == diags_view(old(self).diags@) + arg_type_diags(
                c.args@,
                c.args@.len() as int,
                c.callee@,
                crate::formatter::params_view(params@),
            ),
            final(self).funcs == old(self).funcs,
    {
        let ghost pv = crate::formatter::params_view(params@);
        let mut k: usize = 0;
        while k < c.args.len()
            invariant
                k <= c.args@.len(),
                pv == crate::formatter::params_view(params@),
                self.funcs == old(self).funcs,
                diags_view(self.diags@) == diags_view(old(self).diags@) + arg_type_diags(c.args@, k as int, c.callee@, pv),
            decreases c.args.len() - k,
        {
            match &c.args[k].value {
                CallArg::Named { name, value } => {
                    match find_param(params, name.as_str()) {
                        Some(i) => {
                            let kind = params[i].kind;
                            assert(pv[i as int].kind == kind);
                            let meta = match kind {
                                ParamKind::NoValue | ParamKind::IntrinsicBool => true,
                                _ => false,
                            };
                            if !meta && !arg_type_matches(kind, &value.value) {
                                let mut m = quoted_msg("argument ", name.as_str(), " of ");
                                push_str(&mut m, "`");
                                append_string(&mut m, &c.callee);
                                push_str(&mut m, "` must be a ");
                                push_str(&mut m, kind_text_of(kind));
                                push_diag(&mut self.diags, c.args[k].span, m);
                            }
                        },
                        None => {},
                    }
                },
                _ => {},
            }
            proof {
                assert(diags_view(self.diags@) =~= diags_view(old(self).diags@) + arg_type_diags(
                    c.args@,
                    k + 1,
                    c.callee@,
                    pv,
                ));
            }
            k = k + 1;
        }
    }

    fn required_args(&mut self, c: &Call, params: &Vec<crate::formatter::ParamSpec>, span: Span, valued: bool)
        ensures
            diags_view(final(self).diags@) == diags_view(old(self).diags@) + required_diags(
                crate::formatter::params_view(params@),
                params@.len() as int,
                *c,
                span,
                valued,
            ),
            final(self).funcs == old(self).funcs,
    {
        let ghost pv = crate::formatter::params_view(params@);
        let mut k: usize = 0;
        while k < params.len()
            invariant
                k <= params@.len(),
                pv == crate::formatter::params_view(params@),
                self.funcs == old(self).funcs,
                diags_view(self.diags@) == diags_view(old(self).diags@) + required_diags(pv, k as int, *c, span, valued),
            decreases params.len() - k,
        {
            let p = &params[k];
            assert(pv[k as int] == p@);
            if !str_eq(p.name.as_str(), "instruction") && !(valued && str_eq(p.name.as_str(), "return")) && p.required
                && !has_named_arg(c, p.name.as_str()) {
                let mut m = quoted_msg("", c.callee.as_str(), " requires a ");
                push_str(&mut m, "`");
                append_string(&mut m, &p.name);
                push_str(&mut m, "` argument");
                push_diag(&mut self.diags, span, m);
            }
            proof {
                assert(diags_view(self.diags@) =~= diags_view(old(self).diags@) + required_diags(pv, k + 1, *c, span, valued));
            }
            k = k + 1;
        }
    }

    /// The diagnostics of a call (see [`call_diags`]).
    fn check_call(&mut self, span: Span, c: &Call, store: &TemplateStore, valued: bool)
        requires
            store.wf(),
        ensures
            diags_view(final(self).diags@) == diags_view(old(self).diags@) + call_diags(
                span,
                *c,
                names_view(old(self).funcs@),
                store,
                valued,
            ),
            final(self).funcs == old(self).funcs,
    {
        self.dup_args(c);
        if self.knows_func(c.callee.as_str()) {
            return;
        }
        let tmpl = resolve_template(c.callee.as_str(), store);
        let ghost pv = tmpl@.params;
        let mut needs_instruction = false;
        let mut k: usize = 0;
        while k < tmpl.params.len()
            invariant
                k <= tmpl.params@.len(),
                pv == tmpl@.params,
                needs_instruction == exists|i: int|
                    0 <= i < k && (#[trigger] pv[i]).name == "instruction"@ && pv[i].required,
            decreases tmpl.params.len() - k,
        {
            assert(pv[k as int] == tmpl.params@[k as int]@);
            if str_eq(tmpl.params[k].name.as_str(), "instruction") && tmpl.params[k].required {
                needs_instruction = true;
            }
            k = k + 1;
        }
        let mut positional = false;
        let mut j: usize = 0;
        while j < c.args.len()
            invariant
                j <= c.args@.len(),
                positional == exists|i: int| 0 <= i < j && (#[trigger] c.args@[i]).value is Positional,
            decreases c.args.len() - j,
        {
            match &c.args[j].value {
                CallArg::Positional(_) => {
                    positional = true;
                },
                _ => {},
            }
            j = j + 1;
        }
        let ghost before = diags_view(self.diags@);
        if needs_instruction && !positional {
            push_diag(&mut self.diags, span, quoted_msg("", c.callee.as_str(), " requires an instruction argument"));
        }
        self.arg_types(c, &tmpl.params);
        self.required_args(c, &tmpl.params, span, valued);
        proof {
            assert(diags_view(self.diags@) =~= diags_view(old(self).diags@) + call_diags(
                span,
                *c,
                names_view(old(self).funcs@),
                store,
                valued,
            ));
        }
    }

    /// The diagnostics for a call used as a value (see [`value_expr_diags`]).
    fn check_value_expr(&mut self, e: &Spanned<Expr>, store: &TemplateStore)
        requires
            store.wf(),
        ensures
            diags_view(final(self).diags@) == diags_view(old(self).diags@) + value_expr_diags(
                *e,
                names_view(old(self).funcs@),
                store,
            ),
            final(self).funcs == old(self).funcs,
    {
        match &e.value {
            Expr::Call(c) => {
                if self.knows_func(c.callee.as_str()) {
                    assert(diags_view(self.diags@) =~= diags_view(old(self).diags@) + value_expr_diags(
                        *e,
                        names_view(old(self).funcs@),
                        store,
                    ));
                    return;
                }
                let tmpl = resolve_template(c.callee.as_str(), store);
                proof {
                    crate::formatter::lemma_index_named_bounds(tmpl@.params, "return"@, 0);
                }
                let kind = match tmpl.return_spec() {
                    Some(p) => Some(p.kind),
                    None => None,
                };
                let no_value = match kind {
                    Some(ParamKind::NoValue) | None => true,
                    _ => false,
                };
                let is_string = match kind {
                    Some(ParamKind::String) => true,
                    _ => false,
                };
                if no_value {
                    push_diag(
                        &mut self.diags,
                        e.span,
                        quoted_msg("", c.callee.as_str(), " produces no value and cannot be assigned or returned"),
                    );
                } else if is_string && !has_named_arg(c, "return") {
                    push_diag(
                        &mut self.diags,
                        e.span,
                        quoted_msg(
                            "value node ",
                            c.callee.as_str(),
                            " used as a value needs a `return=` format argument",
                        ),
                    );
                } else {
                    assert(diags_view(self.diags@) =~= diags_view(old(self).diags@) + value_expr_diags(
                        *e,
                        names_view(old(self).funcs@),
                        store,
                    ));
                }
            },
            _ => {
                assert(diags_view(self.diags@) =~= diags_view(old(self).diags@) + value_expr_diags(
                    *e,
                    names_view(old(self).funcs@),
                    store,
                ));
            },
        }
    }
}

impl Validator {
    spec fn appended(&self, old_v: &Validator, d: Seq<Diag>) -> bool {
        &&& diags_view(self.diags@) == diags_view(old_v.diags@) + d
        &&& self.funcs == old_v.funcs
    }

    fn visit_args(&mut self, args: &Vec<Spanned<CallArg>>, store: &TemplateStore, Ghost(root): Ghost<Spanned<Expr>>)
        requires
            store.wf(),
            forall|j: int| 0 <= j < args@.len() ==> decreases_to!(root => arg_expr(#[trigger] args@[j])),
        ensures
            final(self).appended(old(self), v_args(args@, names_view(old(self).funcs@), store)),
        decreases root, 0int,
    {
        let ghost f = names_view(self.funcs@);
        let mut k: usize = 0;
        assert(args@.take(0) =~= Seq::<Spanned<CallArg>>::empty());
        while k < args.len()
            invariant
                k <= args@.len(),
                store.wf(),
                f == names_view(old(self).funcs@),
                forall|j: int| 0 <= j < args@.len() ==> decreases_to!(root => arg_expr(#[trigger] args@[j])),
                self.appended(old(self), v_args(args@.take(k as int), f, store)),
            decreases args.len() - k,
        {
            proof {
                let t = args@.take(k + 1);
                assert(t.drop_last() =~= args@.take(k as int));
                assert(t.last() == args@[k as int]);
                assert(decreases_to!(root => arg_expr(args@[k as int])));
            }
            let e = args[k].value.expr();
            self.visit_expr(e, store);
            proof {
                assert(diags_view(self.diags@) =~= diags_view(old(self).diags@) + v_args(args@.take(k + 1), f, store));
            }
            k = k + 1;
        }
        assert(args@.take(args@.len() as int) =~= args@);
    }

    /// The diagnostics of the calls inside the value of an assignment or a
    /// `return` (see [`v_value`]).
    fn visit_value(&mut self, e: &Spanned<Expr>, store: &TemplateStore)
        requires
            store.wf(),
        ensures
            final(self).appended(old(self), v_value(*e, names_view(old(self).funcs@), store)),
    {
        match &e.value {
            Expr::Call(c) => {
                let ghost f = names_view(self.funcs@);
                let ghost d0 = diags_view(self.diags@);
                self.check_call(e.span, c, store, true);
                let ghost d1 = diags_view(self.diags@);
                self.visit_args_of(&c.args, store);
                proof {
                    assert(diags_view(self.diags@) =~= d0 + (call_diags(e.span, *c, f, store, true) + v_args(
                        c.args@,
                        f,
                        store,
                    )));
                }
            },
            _ => self.visit_expr(e, store),
        }
    }

    /// The diagnostics of the calls inside an expression (see [`v_expr`]).
    fn visit_expr(&mut self, e: &Spanned<Expr>, store: &TemplateStore)
        requires
            store.wf(),
        ensures
            final(self).appended(old(self), v_expr(*e, names_view(old(self).funcs@), store)),
        decreases *e, 1int,
    {
        let ghost f = names_view(self.funcs@);
        match &e.value {
            Expr::Call(c) => {
                self.check_call(e.span, c, store, false);
                assert forall|j: int| 0 <= j < c.args@.len() implies decreases_to!(*e => arg_expr(#[trigger] c.args@[j])) by {
                    assert(decreases_to!(*e => e.value));
                    assert(decreases_to!(c.args@ => c.args@[j]));
                    assert(decreases_to!(c.args@[j] => c.args@[j].value));
                }
                self.visit_args(&c.args, store, Ghost(*e));
            },
            Expr::Binary { lhs, rhs, .. } => {
                self.visit_expr(lhs, store);
                self.visit_expr(rhs, store);
            },
            Expr::Unary { expr, .. } => {
                self.visit_expr(expr, store);
            },
            Expr::List(elems) => {
                let mut k: usize = 0;
                assert(elems@.take(0) =~= Seq::<Spanned<Expr>>::empty());
                assert forall|j: int| 0 <= j < elems@.len() implies decreases_to!(*e => #[trigger] elems@[j]) by {
                    assert(decreases_to!(*e => e.value));
                    assert(decreases_to!(*elems => elems@));
                }
                while k < elems.len()
                    invariant
                        k <= elems@.len(),
                        store.wf(),
                        f == names_view(old(self).funcs@),
                        forall|j: int| 0 <= j < elems@.len() ==> decreases_to!(*e => #[trigger] elems@[j]),
                        self.appended(old(self), v_exprs(elems@.take(k as int), f, store)),
                    decreases elems.len() - k,
                {
                    proof {
                        let t = elems@.take(k + 1);
                        assert(t.drop_last() =~= elems@.take(k as int));
                        assert(t.last() == elems@[k as int]);
                    }
                    self.visit_expr(&elems[k], store);
                    proof {
                        assert(diags_view(self.diags@) =~= diags_view(old(self).diags@) + v_exprs(
                            elems@.take(k + 1),
                            f,
                            store,
                        ));
                    }
                    k = k + 1;
                }
                assert(elems@.take(elems@.len() as int) =~= elems@);
            },
            Expr::String(parts) => {
                let mut k: usize = 0;
                assert(parts@.take(0) =~= Seq::<StringPart>::empty());
                assert forall|j: int| 0 <= j < parts@.len() implies (#[trigger] parts@[j] matches StringPart::Interpolation(
                    inner,
                ) ==> decreases_to!(*e => *inner)) by {
                    assert(decreases_to!(*e => e.value));
                    assert(decreases_to!(*parts => parts@));
                }
                while k < parts.len()
                    invariant
                        k <= parts@.len(),
                        store.wf(),
                        f == names_view(old(self).funcs@),
                        forall|j: int|
                            0 <= j < parts@.len() ==> (#[trigger] parts@[j] matches StringPart::Interpolation(inner)
                                ==> decreases_to!(*e => *inner)),
                        self.appended(old(self), v_parts(parts@.take(k as int), f, store)),
                    decreases parts.len() - k,
                {
                    proof {
                        let t = parts@.take(k + 1);
                        assert(t.drop_last() =~= parts@.take(k as int));
                        assert(t.last() == parts@[k as int]);
                    }
                    match &parts[k] {
                        StringPart::Interpolation(inner) => {
                            self.visit_expr(inner, store);
                        },
                        StringPart::Literal(_) => {},
                    }
                    proof {
                        assert(diags_view(self.diags@) =~= diags_view(old(self).diags@) + v_parts(
                            parts@.take(k + 1),
                            f,
                            store,
                        ));
                    }
                    k = k + 1;
                }
                assert(parts@.take(parts@.len() as int) =~= parts@);
            },
            _ => {
                assert(diags_view(self.diags@) =~= diags_view(old(self).diags@) + Seq::<Diag>::empty());
            },
        }
        proof {
            assert(diags_view(self.diags@) =~= diags_view(old(self).diags@) + v_expr(*e, f, store));
        }
    }
}

impl Validator {
    fn param_binding(&mut self, params: &Vec<String>, span: Span)
        ensures
            final(self).appended(old(self), param_bindings(params@, span)),
    {
        let mut k: usize = 0;
        assert(params@.take(0) =~= Seq::<String>::empty());
        while k < params.len()
            invariant
                k <= params@.len(),
                self.appended(old(self), param_bindings(params@.take(k as int), span)),
            decreases params.len() - k,
        {
            proof {
                let t = params@.take(k + 1);
                assert(t.drop_last() =~= params@.take(k as int));
                assert(t.last() == params@[k as int]);
            }
            check_binding(&mut self.diags, span, params[k].as_str());
            proof {
                assert(diags_view(self.diags@) =~= diags_view(old(self).diags@) + param_bindings(params@.take(k + 1), span));
            }
            k = k + 1;
        }
        assert(params@.take(params@.len() as int) =~= params@);
    }

    /// The diagnostics of a statement (see [`v_stmt`]).
    fn visit_stmt(&mut self, s: &Spanned<Stmt>, store: &TemplateStore)
        requires
            store.wf(),
        ensures
            final(self).appended(old(self), v_stmt(*s, names_view(old(self).funcs@), store)),
        decreases *s, 1int,
    {
        let ghost f = names_view(self.funcs@);
        match &s.value {
            Stmt::Meta { value, .. } => {
                self.visit_expr(value, store);
            },
            Stmt::Assign { target, value } => {
                check_binding(&mut self.diags, s.span, target.as_str());
                self.check_value_expr(value, store);
                self.visit_value(value, store);
            },
            Stmt::Call(c) => {
                self.check_call(s.span, c, store, false);
                self.visit_args_of(&c.args, store);
            },
            Stmt::Return { value } => match value {
                Some(v) => {
                    self.check_value_expr(v, store);
                    self.visit_value(v, store);
                },
                None => {},
            },
            Stmt::If { branches, else_block } => {
                let mut k: usize = 0;
                assert(branches@.take(0) =~= Seq::<IfBranch>::empty());
                assert forall|j: int| 0 <= j < branches@.len() implies decreases_to!(*s => (#[trigger] branches@[j]).body@) by {
                    assert(decreases_to!(*s => s.value));
                    assert(decreases_to!(*branches => branches@));
                    assert(decreases_to!(branches@ => branches@[j]));
                }
                while k < branches.len()
                    invariant
                        k <= branches@.len(),
                        store.wf(),
                        f == names_view(old(self).funcs@),
                        forall|j: int| 0 <= j < branches@.len() ==> decreases_to!(*s => (#[trigger] branches@[j]).body@),
                        self.appended(old(self), v_branches(branches@.take(k as int), f, store)),
                    decreases branches.len() - k,
                {
                    proof {
                        let t = branches@.take(k + 1);
                        assert(t.drop_last() =~= branches@.take(k as int));
                        assert(t.last() == branches@[k as int]);
                    }
                    self.visit_expr(&branches[k].cond, store);
                    self.visit_block(&branches[k].body, store);
                    proof {
                        assert(diags_view(self.diags@) =~= diags_view(old(self).diags@) + v_branches(
                            branches@.take(k + 1),
                            f,
                            store,
                        ));
                    }
                    k = k + 1;
                }
                assert(branches@.take(branches@.len() as int) =~= branches@);
                match else_block {
                    Some(b) => self.visit_block(b, store),
                    None => {},
                }
            },
            Stmt::LoopUntil { body, cond } => {
                self.visit_block(body, store);
                self.visit_expr(cond, store);
            },
            Stmt::For { var, iterable, body } => {
                check_binding(&mut self.diags, s.span, var.as_str());
                self.visit_expr(iterable, store);
                self.visit_block(body, store);
            },
            Stmt::Function { params, body, .. } => {
                self.param_binding(params, s.span);
                self.visit_block(body, store);
            },
        }
        proof {
            assert(diags_view(self.diags@) =~= diags_view(old(self).diags@) + v_stmt(*s, f, store));
        }
    }

    /// The argument expressions of a call statement.
    fn visit_args_of(&mut self, args: &Vec<Spanned<CallArg>>, store: &TemplateStore)
        requires
            store.wf(),
        ensures
            final(self).appended(old(self), v_args(args@, names_view(old(self).funcs@), store)),
    {
        let ghost f = names_view(self.funcs@);
        let mut k: usize = 0;
        assert(args@.take(0) =~= Seq::<Spanned<CallArg>>::empty());
        while k < args.len()
            invariant
                k <= args@.len(),
                store.wf(),
                f == names_view(old(self).funcs@),
                self.appended(old(self), v_args(args@.take(k as int), f, store)),
            decreases args.len() - k,
        {
            proof {
                let t = args@.take(k + 1);
                assert(t.drop_last() =~= args@.take(k as int));
                assert(t.last() == args@[k as int]);
            }
            let e = args[k].value.expr();
            self.visit_expr(e, store);
            proof {
                assert(diags_view(self.diags@) =~= diags_view(old(self).diags@) + v_args(args@.take(k + 1), f, store));
            }
            k = k + 1;
        }
        assert(args@.take(args@.len() as int) =~= args@);
    }

    fn visit_block(&mut self, b: &Vec<Spanned<Stmt>>, store: &TemplateStore)
        requires
            store.wf(),
        ensures
            final(self).appended(old(self), v_block(b@, names_view(old(self).funcs@), store)),
        decreases b@, 0int,
    {
        let ghost f = names_view(self.funcs@);
        let mut k: usize = 0;
        assert(b@.take(0) =~= Seq::<Spanned<Stmt>>::empty());
        while k < b.len()
            invariant
                k <= b@.len(),
                store.wf(),
                f == names_view(old(self).funcs@),
                self.appended(old(self), v_block(b@.take(k as int), f, store)),
            decreases b.len() - k,
        {
            proof {
                let t = b@.take(k + 1);
                assert(t.drop_last() =~= b@.take(k as int));
                assert(t.last() == b@[k as int]);
            }
            self.visit_stmt(&b[k], store);
            proof {
                assert(diags_view(self.diags@) =~= diags_view(old(self).diags@) + v_block(b@.take(k + 1), f, store));
            }
            k = k + 1;
        }
        assert(b@.take(b@.len() as int) =~= b@);
    }
}

/// Run every semantic check on `module`, returning every diagnostic found
/// (see [`spec_validate`]), in order.
pub fn validate(module: &Module, store: &TemplateStore) -> (r: Vec<Diagnostic>)
    requires
        store.wf(),
    ensures
        diags_view(r@) == spec_validate(*module, store),
        forall|i: int| 0 <= i < r@.len() ==> (#[trigger] r@[i]).severity == Severity::Error,
{
    let mut v = Validator { diags: Vec::new(), funcs: Vec::new() };
    proof {
        assert(v.state() == Collect { diags: Seq::empty(), funcs: Seq::empty() }) by {
            assert(diags_view(v.diags@) =~= Seq::<Diag>::empty());
            assert(names_view(v.funcs@) =~= Seq::<Seq<char>>::empty());
        }
    }
    v.collect_block(&module.body, true);
    v.visit_block(&module.body, store);
    v.diags
}

proof fn lemma_contains_concat(a: Seq<Diag>, b: Seq<Diag>)
    ensures
        forall|d: Diag| a.contains(d) ==> (a + b).contains(d),
        forall|d: Diag| b.contains(d) ==> (a + b).contains(d),
{
    assert forall|d: Diag| a.contains(d) implies (a + b).contains(d) by {
        let k = choose|k: int| 0 <= k < a.len() && a[k] == d;
        assert((a + b)[k] == d);
    }
    assert forall|d: Diag| b.contains(d) implies (a + b).contains(d) by {
        let k = choose|k: int| 0 <= k < b.len() && b[k] == d;
        assert((a + b)[a.len() + k] == d);
    }
}

/// Every statement of a block is checked: a diagnostic of any statement
/// of the block is a diagnostic of the block.
pub proof fn law_block_statements_are_checked(b: Seq<Spanned<Stmt>>, funcs: Seq<Seq<char>>, store: &TemplateStore)
    ensures
        forall|i: int, d: Diag|
            0 <= i < b.len() && #[trigger] v_stmt(b[i], funcs, store).contains(d) ==> v_block(b, funcs, store).contains(
                d,
            ),
    decreases b.len(),
{
    if b.len() > 0 {
        law_block_statements_are_checked(b.drop_last(), funcs, store);
        lemma_contains_concat(v_block(b.drop_last(), funcs, store), v_stmt(b.last(), funcs, store));
        assert forall|i: int, d: Diag|
            0 <= i < b.len() && #[trigger] v_stmt(b[i], funcs, store).contains(d) implies v_block(
                b,
                funcs,
                store,
            ).contains(d) by {
            if i < b.len() - 1 {
                assert(b.drop_last()[i] == b[i]);
            }
        }
    }
}

/// The blocks nested in a statement are checked: a diagnostic of the body
/// of a `loop ... until`, a `for`, a function, or of any branch or `else`
/// block of an `if`, is a diagnostic of the statement; so a statement that
/// is reported at the top level is reported inside these blocks too.
pub proof fn law_nested_blocks_are_checked(s: Spanned<Stmt>, funcs: Seq<Seq<char>>, store: &TemplateStore)
    ensures
        match s.value {
            Stmt::LoopUntil { body, .. } => forall|d: Diag|
                #[trigger] v_block(body@, funcs, store).contains(d) ==> v_stmt(s, funcs, store).contains(d),
            Stmt::For { body, .. } => forall|d: Diag|
                #[trigger] v_block(body@, funcs, store).contains(d) ==> v_stmt(s, funcs, store).contains(d),
            Stmt::Function { body, .. } => forall|d: Diag|
                #[trigger] v_block(body@, funcs, store).contains(d) ==> v_stmt(s, funcs, store).contains(d),
            Stmt::If { branches, else_block } => {
                &&& forall|i: int, d: Diag|
                    0 <= i < branches@.len() && #[trigger] v_block(branches@[i].body@, funcs, store).contains(d)
                        ==> v_stmt(s, funcs, store).contains(d)
                &&& else_block matches Some(eb) ==> forall|d: Diag|
                    #[trigger] v_block(eb@, funcs, store).contains(d) ==> v_stmt(s, funcs, store).contains(d)
            },
            _ => true,
        },
{
    match s.value {
        Stmt::LoopUntil { body, cond } => {
            lemma_contains_concat(v_block(body@, funcs, store), v_expr(*cond, funcs, store));
        },
        Stmt::For { var, iterable, body } => {
            lemma_contains_concat(
                binding_diags(s.span, var@) + v_expr(*iterable, funcs, store),
                v_block(body@, funcs, store),
            );
        },
        Stmt::Function { params, body, .. } => {
            lemma_contains_concat(param_bindings(params@, s.span), v_block(body@, funcs, store));
        },
        Stmt::If { branches, else_block } => {
            let tail = match else_block {
                Some(b) => v_block(b@, funcs, store),
                None => Seq::empty(),
            };
            lemma_contains_concat(v_branches(branches@, funcs, store), tail);
            lemma_branches_checked(branches@, funcs, store);
        },
        _ => {},
    }
}

proof fn lemma_branches_checked(bs: Seq<IfBranch>, funcs: Seq<Seq<char>>, store: &TemplateStore)
    ensures
        forall|i: int, d: Diag|
            0 <= i < bs.len() && #[trigger] v_block(bs[i].body@, funcs, store).contains(d) ==> v_branches(
                bs,
                funcs,
                store,
            ).contains(d),
    decreases bs.len(),
{
    if bs.len() > 0 {
        lemma_branches_checked(bs.drop_last(), funcs, store);
        let pre = v_branches(bs.drop_last(), funcs, store) + v_expr(*bs.last().cond, funcs, store);
        lemma_contains_concat(v_branches(bs.drop_last(), funcs, store), v_expr(*bs.last().cond, funcs, store));
        lemma_contains_concat(pre, v_block(bs.last().body@, funcs, store));
        assert forall|i: int, d: Diag|
            0 <= i < bs.len() && #[trigger] v_block(bs[i].body@, funcs, store).contains(d) implies v_branches(
                bs,
                funcs,
                store,
            ).contains(d) by {
            if i < bs.len() - 1 {
                assert(bs.drop_last()[i] == bs[i]);
            }
        }
    }
}

proof fn lemma_branch_conditions_checked(bs: Seq<IfBranch>, funcs: Seq<Seq<char>>, store: &TemplateStore)
    ensures
        forall|i: int, d: Diag|
            0 <= i < bs.len() && #[trigger] v_expr(*bs[i].cond, funcs, store).contains(d) ==> v_branches(
                bs,
                funcs,
                store,
            ).contains(d),
    decreases bs.len(),
{
    if bs.len() > 0 {
        lemma_branch_conditions_checked(bs.drop_last(), funcs, store);
        let pre = v_branches(bs.drop_last(), funcs, store) + v_expr(*bs.last().cond, funcs, store);
        lemma_contains_concat(v_branches(bs.drop_last(), funcs, store), v_expr(*bs.last().cond, funcs, store));
        lemma_contains_concat(pre, v_block(bs.last().body@, funcs, store));
        assert forall|i: int, d: Diag|
            0 <= i < bs.len() && #[trigger] v_expr(*bs[i].cond, funcs, store).contains(d) implies v_branches(
                bs,
                funcs,
                store,
            ).contains(d) by {
            if i < bs.len() - 1 {
                assert(bs.drop_last()[i] == bs[i]);
            }
        }
    }
}

/// The expressions a statement tests or walks are checked: a diagnostic of
/// the condition of a `loop ... until`, of the list a `for` iterates over,
/// or of the condition of any branch of an `if`, is a diagnostic of the
/// statement.
pub proof fn law_conditions_are_checked(s: Spanned<Stmt>, funcs: Seq<Seq<char>>, store: &TemplateStore)
    ensures
        match s.value {
            Stmt::LoopUntil { cond, .. } => forall|d: Diag|
                #[trigger] v_expr(*cond, funcs, store).contains(d) ==> v_stmt(s, funcs, store).contains(d),
            Stmt::For { iterable, .. } => forall|d: Diag|
                #[trigger] v_expr(*iterable, funcs, store).contains(d) ==> v_stmt(s, funcs, store).contains(d),
            Stmt::If { branches, .. } => forall|i: int, d: Diag|
                0 <= i < branches@.len() && #[trigger] v_expr(*branches@[i].cond, funcs, store).contains(d)
                    ==> v_stmt(s, funcs, store).contains(d),
            _ => true,
        },
{
    match s.value {
        Stmt::LoopUntil { body, cond } => {
            lemma_contains_concat(v_block(body@, funcs, store), v_expr(*cond, funcs, store));
        },
        Stmt::For { var, iterable, body } => {
            lemma_contains_concat(binding_diags(s.span, var@), v_expr(*iterable, funcs, store));
            lemma_contains_concat(
                binding_diags(s.span, var@) + v_expr(*iterable, funcs, store),
                v_block(body@, funcs, store),
            );
        },
        Stmt::If { branches, else_block } => {
            let tail = match else_block {
                Some(b) => v_block(b@, funcs, store),
                None => Seq::empty(),
            };
            lemma_contains_concat(v_branches(branches@, funcs, store), tail);
            lemma_branch_conditions_checked(branches@, funcs, store);
        },
        _ => {},
    }
}

/// A workflow's diagnostics include those of each of its statements.
pub proof fn law_validate_checks_every_statement(m: Module, store: &TemplateStore)
    ensures
        ({
            let funcs = cf_block(m.body@, true, Collect { diags: Seq::empty(), funcs: Seq::empty() }).funcs;
            forall|i: int, d: Diag|
                0 <= i < m.body@.len() && #[trigger] v_stmt(m.body@[i], funcs, store).contains(d)
                    ==> spec_validate(m, store).contains(d)
        }),
{
    let c = cf_block(m.body@, true, Collect { diags: Seq::empty(), funcs: Seq::empty() });
    law_block_statements_are_checked(m.body@, c.funcs, store);
    lemma_contains_concat(c.diags, v_block(m.body@, c.funcs, store));
}

} // verus!
