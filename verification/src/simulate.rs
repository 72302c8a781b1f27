//! Static dry-run of a workflow: render every action-node instruction in
//! source order.
//!
//! This is a static walk: it does not execute control flow, resolve
//! variables or inline function calls. Loops are shown once, both branches of
//! an `if` are shown, and a function's instructions are shown where the
//! function is defined (a call to a user function is not itself an
//! instruction). Runtime `{var}` interpolations are kept as placeholders.

use vstd::prelude::*;

use crate::ast::{Call, CallArg, Expr, IfBranch, Module, Stmt};
use crate::context::{opt_text, spec_apply_meta, WorkflowMeta};
use crate::render::{render_call, spec_context, TemplateStore};
use crate::source::Spanned;
use crate::text::str_eq;
use crate::validate::{arg_expr, names_view};
use crate::value::{eval_literal, spec_eval_literal};

verus! {

/// One rendered instruction of the dry run.
#[derive(Debug, PartialEq)]
pub struct SimStep {
    /// The callee name, e.g. `task`, `ask` or `command`.
    pub callee: String,
    /// The rendered instruction text.
    pub instruction: String,
}

pub open spec fn steps_view(s: Seq<SimStep>) -> Seq<(Seq<char>, Seq<char>)> {
    Seq::new(s.len(), |i: int| (s[i].callee@, s[i].instruction@))
}

/// The names of every function defined in a block, nested ones included.
pub open spec fn fn_names(b: Seq<Spanned<Stmt>>) -> Seq<Seq<char>>
    decreases b, 0int,
{
    if b.len() == 0 {
        Seq::empty()
    } else {
        fn_names(b.drop_last()) + fn_names_stmt(b.last())
    }
}

pub open spec fn fn_names_stmt(s: Spanned<Stmt>) -> Seq<Seq<char>>
    decreases s, 1int,
{
    match s.value {
        Stmt::Function { name, body, .. } => seq![name@] + fn_names(body@),
        Stmt::If { branches, else_block } => fn_names_branches(branches@) + match else_block {
            Some(b) => fn_names(b@),
            None => Seq::empty(),
        },
        Stmt::LoopUntil { body, .. } => fn_names(body@),
        Stmt::For { body, .. } => fn_names(body@),
        _ => Seq::empty(),
    }
}

pub open spec fn fn_names_branches(bs: Seq<IfBranch>) -> Seq<Seq<char>>
    decreases bs, 0int,
{
    if bs.len() == 0 {
        Seq::empty()
    } else {
        fn_names_branches(bs.drop_last()) + fn_names(bs.last().body@)
    }
}

/// The dry-run step of a call, unless it calls a user function.
pub open spec fn sim_call(
    c: Call,
    into: Option<Seq<char>>,
    funcs: Seq<Seq<char>>,
    meta: (Option<Seq<char>>, Option<Seq<char>>),
    store: &TemplateStore,
) -> Seq<(Seq<char>, Seq<char>)> {
    if funcs.contains(c.callee@) {
        Seq::empty()
    } else {
        seq![
            (c.callee@, store.chosen(meta.0, c.callee@).body_template().spec_render(
                spec_context(c, into, None, "<name>"@),
            )),
        ]
    }
}

/// The dry-run steps of every call inside an expression: the call itself,
/// then those inside its arguments; operands and list elements in order.
/// String interpolations hold no calls.
pub open spec fn sim_expr(
    e: Spanned<Expr>,
    into: Option<Seq<char>>,
    funcs: Seq<Seq<char>>,
    meta: (Option<Seq<char>>, Option<Seq<char>>),
    store: &TemplateStore,
) -> Seq<(Seq<char>, Seq<char>)>
    decreases e, 1int,
{
    match e.value {
        Expr::Call(c) => sim_call(c, into, funcs, meta, store) + sim_args(c.args@, funcs, meta, store),
        Expr::Binary { lhs, rhs, .. } => sim_expr(*lhs, None, funcs, meta, store) + sim_expr(
            *rhs,
            None,
            funcs,
            meta,
            store,
        ),
        Expr::Unary { expr, .. } => sim_expr(*expr, None, funcs, meta, store),
        Expr::List(elems) => sim_exprs(elems@, funcs, meta, store),
        _ => Seq::empty(),
    }
}

pub open spec fn sim_args(
    args: Seq<Spanned<CallArg>>,
    funcs: Seq<Seq<char>>,
    meta: (Option<Seq<char>>, Option<Seq<char>>),
    store: &TemplateStore,
) -> Seq<(Seq<char>, Seq<char>)>
    decreases args, 0int,
{
    if args.len() == 0 {
        Seq::empty()
    } else {
        sim_args(args.drop_last(), funcs, meta, store) + sim_expr(arg_expr(args.last()), None, funcs, meta, store)
    }
}

pub open spec fn sim_exprs(
    es: Seq<Spanned<Expr>>,
    funcs: Seq<Seq<char>>,
    meta: (Option<Seq<char>>, Option<Seq<char>>),
    store: &TemplateStore,
) -> Seq<(Seq<char>, Seq<char>)>
    decreases es, 0int,
{
    if es.len() == 0 {
        Seq::empty()
    } else {
        sim_exprs(es.drop_last(), funcs, meta, store) + sim_expr(es.last(), None, funcs, meta, store)
    }
}

/// The walk's state: the metadata the directives seen so far set, and the
/// steps so far.
pub struct SimState {
    pub meta: (Option<Seq<char>>, Option<Seq<char>>),
    pub steps: Seq<(Seq<char>, Seq<char>)>,
}

/// The walk over a statement: a directive updates the metadata; calls are
/// rendered where they stand; both branches of an `if`, a loop's body once,
/// and a function's body where it is defined.
pub open spec fn sim_stmt(s: Spanned<Stmt>, funcs: Seq<Seq<char>>, store: &TemplateStore, st: SimState) -> SimState
    decreases s, 1int,
{
    let with_steps = |x: Seq<(Seq<char>, Seq<char>)>| SimState { steps: st.steps + x, ..st };
    match s.value {
        Stmt::Meta { key, value } => SimState {
            meta: spec_apply_meta(st.meta, key@, spec_eval_literal(value.value)),
            ..st
        },
        Stmt::Call(c) => with_steps(sim_call(c, None, funcs, st.meta, store)),
        Stmt::Assign { target, value } => with_steps(sim_expr(*value, Some(target@), funcs, st.meta, store)),
        Stmt::Return { value } => match value {
            Some(v) => with_steps(sim_expr(*v, None, funcs, st.meta, store)),
            None => st,
        },
        Stmt::If { branches, else_block } => {
            let st2 = sim_branches(branches@, funcs, store, st);
            match else_block {
                Some(b) => sim_block(b@, funcs, store, st2),
                None => st2,
            }
        },
        Stmt::LoopUntil { body, cond } => {
            let st2 = sim_block(body@, funcs, store, st);
            SimState { steps: st2.steps + sim_expr(*cond, None, funcs, st2.meta, store), ..st2 }
        },
        Stmt::For { iterable, body, .. } => sim_block(body@, funcs, store, with_steps(sim_expr(*iterable, None, funcs, st.meta, store))),
        Stmt::Function { body, .. } => sim_block(body@, funcs, store, st),
    }
}

pub open spec fn sim_block(b: Seq<Spanned<Stmt>>, funcs: Seq<Seq<char>>, store: &TemplateStore, st: SimState) -> SimState
    decreases b, 0int,
{
    if b.len() == 0 {
        st
    } else {
        sim_stmt(b.last(), funcs, store, sim_block(b.drop_last(), funcs, store, st))
    }
}

pub open spec fn sim_branches(bs: Seq<IfBranch>, funcs: Seq<Seq<char>>, store: &TemplateStore, st: SimState) -> SimState
    decreases bs, 0int,
{
    if bs.len() == 0 {
        st
    } else {
        let st1 = sim_branches(bs.drop_last(), funcs, store, st);
        let st2 = SimState { steps: st1.steps + sim_expr(*bs.last().cond, None, funcs, st1.meta, store), ..st1 };
        sim_block(bs.last().body@, funcs, store, st2)
    }
}

/// The instructions a dry run of `module` renders, in source order.
pub open spec fn spec_simulate(m: Module, store: &TemplateStore) -> Seq<(Seq<char>, Seq<char>)> {
    sim_block(m.body@, fn_names(m.body@), store, SimState { meta: (None, None), steps: Seq::empty() }).steps
}

fn collect_names_block(b: &Vec<Spanned<Stmt>>, out: &mut Vec<String>)
    ensures
        names_view(final(out)@) == names_view(old(out)@) + fn_names(b@),
    decreases b@, 0int,
{
    let mut k: usize = 0;
    assert(b@.take(0) =~= Seq::<Spanned<Stmt>>::empty());
    while k < b.len()
        invariant
            k <= b@.len(),
            names_view(out@) == names_view(old(out)@) + fn_names(b@.take(k as int)),
        decreases b.len() - k,
    {
        proof {
            let t = b@.take(k + 1);
            assert(t.drop_last() =~= b@.take(k as int));
            assert(t.last() == b@[k as int]);
        }
        collect_names_stmt(&b[k], out);
        proof {
            assert(names_view(out@) =~= names_view(old(out)@) + fn_names(b@.take(k + 1)));
        }
        k = k + 1;
    }
    assert(b@.take(b@.len() as int) =~= b@);
}

fn collect_names_stmt(s: &Spanned<Stmt>, out: &mut Vec<String>)
    ensures
        names_view(final(out)@) == names_view(old(out)@) + fn_names_stmt(*s),
    decreases *s, 1int,
{
    match &s.value {
        Stmt::Function { name, body, .. } => {
            let ghost before = names_view(out@);
            out.push(name.clone());
            assert(names_view(out@) =~= before.push(name@));
            collect_names_block(body, out);
            assert(names_view(out@) =~= names_view(old(out)@) + fn_names_stmt(*s));
        },
        Stmt::If { branches, else_block } => {
            let mut k: usize = 0;
            assert(branches@.take(0) =~= Seq::<IfBranch>::empty());
            assert forall|j: int| 0 <= j < branches@.len() implies decreases_to!(*s => (#[trigger] branches@[j]).body@) by {
                assert(decreases_to!(*s => s.value));
                assert(decreases_to!(*branches => branches@));
                assert(decreases_to!(branches@ => branches@[j]));
            }
            while k < branches.len()
                invariant
                    k <= branches@.len(),
                    forall|j: int| 0 <= j < branches@.len() ==> decreases_to!(*s => (#[trigger] branches@[j]).body@),
                    names_view(out@) == names_view(old(out)@) + fn_names_branches(branches@.take(k as int)),
                decreases branches.len() - k,
            {
                proof {
                    let t = branches@.take(k + 1);
                    assert(t.drop_last() =~= branches@.take(k as int));
                    assert(t.last() == branches@[k as int]);
                }
                collect_names_block(&branches[k].body, out);
                proof {
                    assert(names_view(out@) =~= names_view(old(out)@) + fn_names_branches(branches@.take(k + 1)));
                }
                k = k + 1;
            }
            assert(branches@.take(branches@.len() as int) =~= branches@);
            match else_block {
                Some(b) => collect_names_block(b, out),
                None => {},
            }
            assert(names_view(out@) =~= names_view(old(out)@) + fn_names_stmt(*s));
        },
        Stmt::LoopUntil { body, .. } => collect_names_block(body, out),
        Stmt::For { body, .. } => collect_names_block(body, out),
        _ => {
            assert(names_view(out@) =~= names_view(old(out)@) + fn_names_stmt(*s));
        },
    }
}

struct Walker {
    funcs: Vec<String>,
    meta: WorkflowMeta,
    out: Vec<SimStep>,
}

impl Walker {
    spec fn state(&self) -> SimState {
        SimState { meta: (opt_text(self.meta.template_dir), opt_text(self.meta.context)), steps: steps_view(self.out@) }
    }

    fn is_func(&self, name: &str) -> (r: bool)
        ensures
            r == names_view(self.funcs@).contains(name@),
    {
        let mut k: usize = 0;
        while k < self.funcs.len()
            invariant
                k <= self.funcs@.len(),
                forall|i: int| 0 <= i < k ==> (#[trigger] self.funcs@[i])@ != name@,
            decreases self.funcs.len() - k,
        {
            if str_eq(self.funcs[k].as_str(), name) {
                assert(names_view(self.funcs@)[k as int] == name@);
                return true;
            }
            k = k + 1;
        }
        assert(!names_view(self.funcs@).contains(name@)) by {
            if names_view(self.funcs@).contains(name@) {
                let i = choose|i: int| 0 <= i < self.funcs@.len() && #[trigger] names_view(self.funcs@)[i] == name@;
                assert(self.funcs@[i]@ == name@);
            }
        }
        false
    }

    /// Render a call, unless it calls a user function.
    fn render_call_node(&mut self, call: &Call, into: Option<&str>, store: &TemplateStore)
        requires
            store.wf(),
        ensures
            final(self).funcs == old(self).funcs,
            final(self).meta == old(self).meta,
            final(self).state().steps == old(self).state().steps + sim_call(
                *call,
                crate::render::opt_str(into),
                names_view(old(self).funcs@),
                old(self).state().meta,
                store,
            ),
    {
        if !self.is_func(call.callee.as_str()) {
            let instruction = render_call(call, into, None, &self.meta, "<name>", store);
            let ghost before = self.out@;
            self.out.push(SimStep { callee: call.callee.clone(), instruction });
            assert(steps_view(self.out@) =~= steps_view(before) + sim_call(
                *call,
                crate::render::opt_str(into),
                names_view(self.funcs@),
                self.state().meta,
                store,
            ));
        } else {
            assert(steps_view(self.out@) =~= steps_view(self.out@) + Seq::<(Seq<char>, Seq<char>)>::empty());
        }
    }

    /// Render every call inside `e` (see [`sim_expr`]).
    fn render_if_call(&mut self, e: &Spanned<Expr>, into: Option<&str>, store: &TemplateStore)
        requires
            store.wf(),
        ensures
            final(self).funcs == old(self).funcs,
            final(self).meta == old(self).meta,
            final(self).state().steps == old(self).state().steps + sim_expr(
                *e,
                crate::render::opt_str(into),
                names_view(old(self).funcs@),
                old(self).state().meta,
                store,
            ),
        decreases *e, 1int,
    {
        let ghost f = names_view(self.funcs@);
        let ghost m = self.state().meta;
        let ghost s0 = self.state().steps;
        match &e.value {
            Expr::Call(c) => {
                self.render_call_node(c, into, store);
                assert forall|j: int| 0 <= j < c.args@.len() implies decreases_to!(*e => arg_expr(#[trigger] c.args@[j])) by {
                    assert(decreases_to!(*e => e.value));
                    assert(decreases_to!(c.args@ => c.args@[j]));
                    assert(decreases_to!(c.args@[j] => c.args@[j].value));
                }
                let ghost s1 = self.state().steps;
                let mut k: usize = 0;
                assert(c.args@.take(0) =~= Seq::<Spanned<CallArg>>::empty());
                while k < c.args.len()
                    invariant
                        k <= c.args@.len(),
                        store.wf(),
                        f == names_view(self.funcs@),
                        m == self.state().meta,
                        self.funcs == old(self).funcs,
                        self.meta == old(self).meta,
                        forall|j: int| 0 <= j < c.args@.len() ==> decreases_to!(*e => arg_expr(#[trigger] c.args@[j])),
                        self.state().steps == s1 + sim_args(c.args@.take(k as int), f, m, store),
                    decreases c.args.len() - k,
                {
                    proof {
                        let t = c.args@.take(k + 1);
                        assert(t.drop_last() =~= c.args@.take(k as int));
                        assert(t.last() == c.args@[k as int]);
                    }
                    let a = c.args[k].value.expr();
                    self.render_if_call(a, None, store);
                    proof {
                        assert(self.state().steps =~= s1 + sim_args(c.args@.take(k + 1), f, m, store));
                    }
                    k = k + 1;
                }
                assert(c.args@.take(c.args@.len() as int) =~= c.args@);
            },
            Expr::Binary { lhs, rhs, .. } => {
                self.render_if_call(lhs, None, store);
                self.render_if_call(rhs, None, store);
            },
            Expr::Unary { expr, .. } => {
                self.render_if_call(expr, None, store);
            },
            Expr::List(elems) => {
                let mut k: usize = 0;
                assert(elems@.take(0) =~= Seq::<Spanned<Expr>>::empty());
                assert forall|j: int| 0 <= j < elems@.len() implies decreases_to!(*e => #[trigger] elems@[j]) by {
                    assert(decreases_to!(*e => e.value));
                    assert(decreases_to!(*elems => elems@));
                }
                while k < elems.len()
                    invariant
                        k <= elems@.len(),
                        store.wf(),
                        f == names_view(self.funcs@),
                        m == self.state().meta,
                        self.funcs == old(self).funcs,
                        self.meta == old(self).meta,
                        forall|j: int| 0 <= j < elems@.len() ==> decreases_to!(*e => #[trigger] elems@[j]),
                        self.state().steps == s0 + sim_exprs(elems@.take(k as int), f, m, store),
                    decreases elems.len() - k,
                {
                    proof {
                        let t = elems@.take(k + 1);
                        assert(t.drop_last() =~= elems@.take(k as int));
                        assert(t.last() == elems@[k as int]);
                    }
                    self.render_if_call(&elems[k], None, store);
                    proof {
                        assert(self.state().steps =~= s0 + sim_exprs(elems@.take(k + 1), f, m, store));
                    }
                    k = k + 1;
                }
                assert(elems@.take(elems@.len() as int) =~= elems@);
            },
            _ => {},
        }
        proof {
            assert(self.state().steps =~= s0 + sim_expr(*e, crate::render::opt_str(into), f, m, store));
        }
    }
}

impl Walker {
    fn walk_block(&mut self, b: &Vec<Spanned<Stmt>>, store: &TemplateStore)
        requires
            store.wf(),
        ensures
            final(self).funcs == old(self).funcs,
            final(self).state() == sim_block(b@, names_view(old(self).funcs@), store, old(self).state()),
        decreases b@, 0int,
    {
        let ghost f = names_view(self.funcs@);
        let mut k: usize = 0;
        assert(b@.take(0) =~= Seq::<Spanned<Stmt>>::empty());
        while k < b.len()
            invariant
                k <= b@.len(),
                store.wf(),
                self.funcs == old(self).funcs,
                f == names_view(self.funcs@),
                self.state() == sim_block(b@.take(k as int), f, store, old(self).state()),
            decreases b.len() - k,
        {
            proof {
                let t = b@.take(k + 1);
                assert(t.drop_last() =~= b@.take(k as int));
                assert(t.last() == b@[k as int]);
            }
            self.walk_stmt(&b[k], store);
            k = k + 1;
        }
        assert(b@.take(b@.len() as int) =~= b@);
    }

    fn walk_stmt(&mut self, s: &Spanned<Stmt>, store: &TemplateStore)
        requires
            store.wf(),
        ensures
            final(self).funcs == old(self).funcs,
            final(self).state() == sim_stmt(*s, names_view(old(self).funcs@), store, old(self).state()),
        decreases *s, 1int,
    {
        let ghost f = names_view(self.funcs@);
        match &s.value {
            Stmt::Meta { key, value } => {
                let v = eval_literal(value);
                self.meta.apply(key.as_str(), &v);
            },
            Stmt::Call(call) => {
                self.render_call_node(call, None, store);
            },
            Stmt::Assign { target, value } => {
                self.render_if_call(value, Some(target.as_str()), store);
            },
            Stmt::Return { value } => match value {
                Some(v) => self.render_if_call(v, None, store),
                None => {},
            },
            Stmt::If { branches, else_block } => {
                let mut k: usize = 0;
                assert(branches@.take(0) =~= Seq::<IfBranch>::empty());
                assert forall|j: int| 0 <= j < branches@.len() implies decreases_to!(*s => (#[trigger] branches@[j]).body@) by {
                    assert(decreases_to!(*s => s.value));
                    assert(decreases_to!(*branches => branches@));
                    assert(decreases_to!(branches@ => branches@[j]));
                }
                while k < branches.len()
                    invariant
                        k <= branches@.len(),
                        store.wf(),
                        self.funcs == old(self).funcs,
                        f == names_view(self.funcs@),
                        forall|j: int| 0 <= j < branches@.len() ==> decreases_to!(*s => (#[trigger] branches@[j]).body@),
                        self.state() == sim_branches(branches@.take(k as int), f, store, old(self).state()),
                    decreases branches.len() - k,
                {
                    proof {
                        let t = branches@.take(k + 1);
                        assert(t.drop_last() =~= branches@.take(k as int));
                        assert(t.last() == branches@[k as int]);
                    }
                    self.render_if_call(&branches[k].cond, None, store);
                    self.walk_block(&branches[k].body, store);
                    k = k + 1;
                }
                assert(branches@.take(branches@.len() as int) =~= branches@);
                match else_block {
                    Some(b) => self.walk_block(b, store),
                    None => {},
                }
            },
            Stmt::LoopUntil { body, cond } => {
                self.walk_block(body, store);
                self.render_if_call(cond, None, store);
            },
            Stmt::For { iterable, body, .. } => {
                self.render_if_call(iterable, None, store);
                self.walk_block(body, store);
            },
            Stmt::Function { body, .. } => {
                self.walk_block(body, store);
            },
        }
    }
}

/// Render every action-node instruction of `module`, in source order (see
/// [`spec_simulate`]).
pub fn simulate(module: &Module, store: &TemplateStore) -> (r: Vec<SimStep>)
    requires
        store.wf(),
    ensures
        steps_view(r@) == spec_simulate(*module, store),
{
    let mut funcs: Vec<String> = Vec::new();
    collect_names_block(&module.body, &mut funcs);
    assert(names_view(funcs@) =~= fn_names(module.body@));
    let mut w = Walker { funcs, meta: WorkflowMeta::default(), out: Vec::new() };
    assert(w.state() == SimState { meta: (None, None), steps: Seq::empty() }) by {
        assert(steps_view(w.out@) =~= Seq::<(Seq<char>, Seq<char>)>::empty());
    }
    w.walk_block(&module.body, store);
    w.out
}

} // verus!
