//! The built-in action-node templates, template resolution, and rendering of
//! a call's instruction.
//!
//! A node's template is resolved in priority order: a file template in the
//! workflow's template directory (`@template`), a file template in the
//! `default` directory, the built-in template of that name, and finally a
//! generic task-like template. File templates are read by the caller and
//! handed to a [`TemplateStore`].

use vstd::prelude::*;

use crate::ast::{Call, CallArg, Expr};
use crate::context::WorkflowMeta;
use crate::formatter::{
    dup_node_template, opt_string_view, params_view, parse_template, spec_parse_template,
    NodeTemplate, NodeTemplateV, ParamKind, ParamSpec, ParamSpecV,
};
use crate::source::Spanned;
use crate::template::{Template, TemplateError};
use crate::text::{owned, str_eq};
use crate::value::{
    dup_value, eval, eval_literal, result_view, spec_eval, spec_eval_literal, EvalError, Value,
    ValueV, Vars,
};

verus! {

// ---- built-in action-node templates ----
//
// Each renders to Markdown that the agent reads as its instruction. The
// context carries `instruction` (the positional argument), `steer_target`
// (the variable to set, or `<var>`), `steer_instance` (the run's instance
// name) and the named arguments such as `return` and `produce`. `check` is
// rendered separately, by the check instruction.

/// `task`: the universal agent primitive. Do work, optionally report a value,
/// optionally produce files.
pub const TASK_BODY: &'static str = "{{ instruction }}\n{% if return %}- Report the result via `steer instance set {{ steer_instance }} {{ steer_target }} <value>`, where <value> is the {{ return }}\n{% endif %}{% if produce %}- Write or update the following files: {% for f in produce %}{{ f }} {% endfor %}\n{% endif %}";

/// `ask`: obtain a value from the human user.
pub const ASK_BODY: &'static str = "**Ask the user:** {{ instruction }}\n{% if return %}- Report their answer via `steer instance set {{ steer_instance }} {{ steer_target }} <value>`, where <value> is the {{ return }}\n{% endif %}{% if produce %}- Write or update the following files: {% for f in produce %}{{ f }} {% endfor %}\n{% endif %}";

/// `command`: run a shell command and capture its output.
pub const COMMAND_BODY: &'static str = "**Shell command:** {{ instruction }}\n{% if return %}- Report the output via `steer instance set {{ steer_instance }} {{ steer_target }} <value>`, where <value> is the {{ return }}\n{% endif %}{% if produce %}- Write or update the following files: {% for f in produce %}{{ f }} {% endfor %}\n{% endif %}";

/// `collect`: a reasoning value op; the agent investigates on its own and
/// reports the value that work produces.
pub const COLLECT_BODY: &'static str = "{{ instruction }}\n- Do the actual work yourself: read files, trace behavior, reason it through. Ground the answer in what you examined. Do not guess or hand-wave.\n{% if return %}- Report the result via `steer instance set {{ steer_instance }} {{ steer_target }} <value>`, where <value> is the {{ return }}\n{% endif %}{% if produce %}- Write or update the following files: {% for f in produce %}{{ f }} {% endfor %}\n{% endif %}";

/// `print`: output for side effects; no value, no verification.
pub const PRINT_BODY: &'static str = "{{ instruction }}\n{% if produce %}- Write or update the following files: {% for f in produce %}{{ f }} {% endfor %}\n{% endif %}";

/// `judge`: a boolean judgment, returned without a `return=` argument.
pub const JUDGE_BODY: &'static str = "{{ instruction }}\n\nAnswer with only `true` or `false`. Set it via `steer instance set {{ steer_instance }} {{ steer_target }} true` (or `false`).\n{% if produce %}- Write or update the following files: {% for f in produce %}{{ f }} {% endfor %}\n{% endif %}";

/// A parameter spec, in specifications.
pub open spec fn pv(name: Seq<char>, kind: ParamKind, required: bool, default: Option<ValueV>) -> ParamSpecV {
    ParamSpecV { name, kind, required, default }
}

/// The built-in template of a node, if it has one.
pub open spec fn spec_fallback(name: Seq<char>) -> Option<NodeTemplateV> {
    let tmpl = |params: Seq<ParamSpecV>, body: Seq<char>| NodeTemplateV { params, body, on_check: None };
    if name == "task"@ {
        Some(
            tmpl(
                seq![
                    pv("instruction"@, ParamKind::String, true, None),
                    pv("return"@, ParamKind::String, false, None),
                    pv("check"@, ParamKind::String, false, None),
                    pv("produce"@, ParamKind::List, false, None),
                ],
                TASK_BODY@,
            ),
        )
    } else if name == "ask"@ {
        Some(
            tmpl(
                seq![
                    pv("instruction"@, ParamKind::String, true, None),
                    pv("return"@, ParamKind::String, true, None),
                    pv("check"@, ParamKind::String, false, None),
                    pv("produce"@, ParamKind::List, false, None),
                ],
                ASK_BODY@,
            ),
        )
    } else if name == "command"@ {
        Some(
            tmpl(
                seq![
                    pv("instruction"@, ParamKind::String, true, None),
                    pv("return"@, ParamKind::String, true, Some(ValueV::Str("output"@))),
                    pv("produce"@, ParamKind::List, false, None),
                    pv("check"@, ParamKind::String, false, None),
                ],
                COMMAND_BODY@,
            ),
        )
    } else if name == "collect"@ {
        Some(
            tmpl(
                seq![
                    pv("instruction"@, ParamKind::String, true, None),
                    pv("return"@, ParamKind::String, true, Some(ValueV::Str("result"@))),
                    pv("check"@, ParamKind::String, false, None),
                    pv("produce"@, ParamKind::List, false, None),
                ],
                COLLECT_BODY@,
            ),
        )
    } else if name == "print"@ {
        Some(
            tmpl(
                seq![
                    pv("instruction"@, ParamKind::String, true, None),
                    pv("return"@, ParamKind::NoValue, false, None),
                    pv("check"@, ParamKind::String, false, None),
                    pv("produce"@, ParamKind::List, false, None),
                ],
                PRINT_BODY@,
            ),
        )
    } else if name == "judge"@ {
        Some(
            tmpl(
                seq![
                    pv("instruction"@, ParamKind::String, true, None),
                    pv("return"@, ParamKind::IntrinsicBool, false, None),
                    pv("check"@, ParamKind::String, false, None),
                    pv("produce"@, ParamKind::List, false, None),
                ],
                JUDGE_BODY@,
            ),
        )
    } else {
        None
    }
}

/// The template of a node with neither a file nor a built-in template: a
/// required `instruction` and the `task` body.
pub open spec fn generic_template() -> NodeTemplateV {
    NodeTemplateV {
        params: seq![pv("instruction"@, ParamKind::String, true, None)],
        body: TASK_BODY@,
        on_check: None,
    }
}

fn param(name: &str, kind: ParamKind, required: bool, default: Option<Value>) -> (r: ParamSpec)
    ensures
        r@ == pv(name@, kind, required, crate::formatter::opt_value_view(default)),
{
    ParamSpec { name: owned(name), kind, required, default }
}

fn template_of(params: Vec<ParamSpec>, body: &str) -> (r: NodeTemplate)
    ensures
        r@ == (NodeTemplateV { params: params_view(params@), body: body@, on_check: None }),
{
    NodeTemplate { params, body: owned(body), on_check: None }
}

/// The built-in template of a node, if it has one.
pub fn fallback_template(name: &str) -> (r: Option<NodeTemplate>)
    ensures
        match r {
            Some(t) => spec_fallback(name@) == Some(t@),
            None => spec_fallback(name@) is None,
        },
{
    let no: Option<Value> = None;
    if str_eq(name, "task") {
        let ps = vec![
            param("instruction", ParamKind::String, true, None),
            param("return", ParamKind::String, false, None),
            param("check", ParamKind::String, false, None),
            param("produce", ParamKind::List, false, None),
        ];
        let t = template_of(ps, TASK_BODY);
        assert(t@.params =~= spec_fallback(name@)->0.params);
        Some(t)
    } else if str_eq(name, "ask") {
        let ps = vec![
            param("instruction", ParamKind::String, true, None),
            param("return", ParamKind::String, true, None),
            param("check", ParamKind::String, false, None),
            param("produce", ParamKind::List, false, None),
        ];
        let t = template_of(ps, ASK_BODY);
        assert(t@.params =~= spec_fallback(name@)->0.params);
        Some(t)
    } else if str_eq(name, "command") {
        let ps = vec![
            param("instruction", ParamKind::String, true, None),
            param("return", ParamKind::String, true, Some(Value::Str(owned("output")))),
            param("produce", ParamKind::List, false, None),
            param("check", ParamKind::String, false, None),
        ];
        let t = template_of(ps, COMMAND_BODY);
        assert(t@.params =~= spec_fallback(name@)->0.params);
        Some(t)
    } else if str_eq(name, "collect") {
        let ps = vec![
            param("instruction", ParamKind::String, true, None),
            param("return", ParamKind::String, true, Some(Value::Str(owned("result")))),
            param("check", ParamKind::String, false, None),
            param("produce", ParamKind::List, false, None),
        ];
        let t = template_of(ps, COLLECT_BODY);
        assert(t@.params =~= spec_fallback(name@)->0.params);
        Some(t)
    } else if str_eq(name, "print") {
        let ps = vec![
            param("instruction", ParamKind::String, true, None),
            param("return", ParamKind::NoValue, false, None),
            param("check", ParamKind::String, false, None),
            param("produce", ParamKind::List, false, None),
        ];
        let t = template_of(ps, PRINT_BODY);
        assert(t@.params =~= spec_fallback(name@)->0.params);
        Some(t)
    } else if str_eq(name, "judge") {
        let ps = vec![
            param("instruction", ParamKind::String, true, None),
            param("return", ParamKind::IntrinsicBool, false, None),
            param("check", ParamKind::String, false, None),
            param("produce", ParamKind::List, false, no),
        ];
        let t = template_of(ps, JUDGE_BODY);
        assert(t@.params =~= spec_fallback(name@)->0.params);
        Some(t)
    } else {
        None
    }
}

fn generic_def() -> (r: NodeTemplate)
    ensures
        r@ == generic_template(),
{
    let t = template_of(vec![param("instruction", ParamKind::String, true, None)], TASK_BODY);
    assert(t@.params =~= generic_template().params);
    t
}

// ---- the template store ----

/// A node template ready to render: its definition, its parsed body and its
/// parsed check template.
pub struct StoredTemplate {
    dir: String,
    name: String,
    def: NodeTemplate,
    body: Template,
    check: Option<Template>,
}

/// Whether `on_check` holds a non-empty template.
pub open spec fn has_check(on_check: Option<Seq<char>>) -> bool {
    on_check matches Some(s) && s.len() > 0
}

impl StoredTemplate {
    /// The parsed templates are those of the definition's texts.
    pub closed spec fn wf(&self) -> bool {
        &&& self.body.source() == self.def@.body
        &&& self.check is Some == has_check(self.def@.on_check)
        &&& (self.check matches Some(t) ==> self.def@.on_check == Some(t.source()))
    }

    pub closed spec fn def_view(&self) -> NodeTemplateV {
        self.def@
    }

    /// The template the body renders with.
    pub closed spec fn body_template(&self) -> Template {
        self.body
    }

    /// The template the check instruction renders with, if any.
    pub closed spec fn check_template(&self) -> Option<Template> {
        self.check
    }
}

/// Parse a definition's body and check template.
/// Whether a node template's body, and its check template where it has a
/// non-empty one, parse.
pub open spec fn templates_parse(d: NodeTemplateV) -> bool {
    &&& crate::template::spec_template(d.body) is Ok
    &&& match d.on_check {
        Some(c) => c.len() == 0 || crate::template::spec_template(c) is Ok,
        None => true,
    }
}

fn stored(dir: String, name: String, def: NodeTemplate) -> (r: Result<StoredTemplate, TemplateError>)
    ensures
        r matches Ok(e) ==> e.wf() && e.def_view() == def@ && e.dir@ == dir@ && e.name@ == name@,
        r is Ok <==> templates_parse(def@),
{
    let body = Template::parse(def.body.as_str())?;
    let check = match &def.on_check {
        Some(s) => {
            if s.as_str().unicode_len() > 0 {
                Some(Template::parse(s.as_str())?)
            } else {
                None
            }
        },
        None => None,
    };
    Ok(StoredTemplate { dir, name, def, body, check })
}

/// The first index `k >= i` of a file template of `dir` named `name`, or -1.
pub closed spec fn find_file(files: Seq<StoredTemplate>, dir: Seq<char>, name: Seq<char>, i: int) -> int
    decreases files.len() - i,
{
    if i < 0 || i >= files.len() {
        -1
    } else if files[i].dir@ == dir && files[i].name@ == name {
        i
    } else {
        find_file(files, dir, name, i + 1)
    }
}

proof fn lemma_find_file(files: Seq<StoredTemplate>, dir: Seq<char>, name: Seq<char>, i: int)
    requires
        0 <= i,
    ensures
        find_file(files, dir, name, i) == -1 || (i <= find_file(files, dir, name, i) < files.len()
            && files[find_file(files, dir, name, i)].dir@ == dir
            && files[find_file(files, dir, name, i)].name@ == name),
        find_file(files, dir, name, i) == -1 ==> forall|j: int|
            i <= j < files.len() ==> !(files[j].dir@ == dir && files[j].name@ == name),
        forall|j: int|
            i <= j < find_file(files, dir, name, i) ==> !(files[j].dir@ == dir && files[j].name@ == name),
    decreases files.len() - i,
{
    if i < files.len() && !(files[i].dir@ == dir && files[i].name@ == name) {
        lemma_find_file(files, dir, name, i + 1);
    }
}

pub closed spec fn key_match(e: StoredTemplate, dir: Seq<char>, name: Seq<char>) -> bool {
    e.dir@ == dir && e.name@ == name
}

proof fn lemma_find_file_is(files: Seq<StoredTemplate>, dir: Seq<char>, name: Seq<char>, i: int, m: int)
    requires
        0 <= i <= m < files.len(),
        forall|j: int| i <= j < m ==> !key_match(files[j], dir, name),
        key_match(files[m], dir, name),
    ensures
        find_file(files, dir, name, i) == m,
    decreases m - i,
{
    if i < m {
        assert(!key_match(files[i], dir, name));
        lemma_find_file_is(files, dir, name, i + 1, m);
    }
}

/// Two sequences that agree, up to the shorter length, on which entries hold
/// a key, and hold it nowhere beyond, find it at the same place.
proof fn lemma_find_file_same(a: Seq<StoredTemplate>, b: Seq<StoredTemplate>, dir: Seq<char>, name: Seq<char>, i: int)
    requires
        0 <= i,
        a.len() <= b.len(),
        forall|j: int| 0 <= j < a.len() ==> key_match(a[j], dir, name) == key_match(b[j], dir, name),
        forall|j: int| a.len() <= j < b.len() ==> !key_match(b[j], dir, name),
    ensures
        find_file(a, dir, name, i) == find_file(b, dir, name, i),
    decreases b.len() - i,
{
    if i < b.len() {
        if i < a.len() {
            assert(key_match(a[i], dir, name) == key_match(b[i], dir, name));
        } else {
            assert(!key_match(b[i], dir, name));
        }
        lemma_find_file_same(a, b, dir, name, i + 1);
    }
}

/// The built-in template of the `k`-th built-in node.
pub open spec fn builtin_def(k: int) -> NodeTemplateV {
    spec_fallback(builtin_name(k))->Some_0
}

/// Whether every built-in template, and the generic one, parses.
pub open spec fn builtins_parse() -> bool {
    &&& forall|k: int| 0 <= k < 6 ==> templates_parse(#[trigger] builtin_def(k))
    &&& templates_parse(generic_template())
}

/// The names of the built-in templates, in store order.
pub open spec fn builtin_name(k: int) -> Seq<char> {
    if k == 0 {
        "task"@
    } else if k == 1 {
        "ask"@
    } else if k == 2 {
        "command"@
    } else if k == 3 {
        "collect"@
    } else if k == 4 {
        "print"@
    } else {
        "judge"@
    }
}

/// The position of a built-in template, or -1.
pub open spec fn builtin_index(name: Seq<char>) -> int {
    if name == "task"@ {
        0
    } else if name == "ask"@ {
        1
    } else if name == "command"@ {
        2
    } else if name == "collect"@ {
        3
    } else if name == "print"@ {
        4
    } else if name == "judge"@ {
        5
    } else {
        -1
    }
}

/// The node templates a run can resolve: file templates by directory and
/// node name, the built-in templates, and the generic template.
pub struct TemplateStore {
    files: Vec<StoredTemplate>,
    builtins: Vec<StoredTemplate>,
    generic: StoredTemplate,
}

impl TemplateStore {
    /// Every template is parsed from its definition, the built-ins are
    /// exactly the built-in templates, and the generic template is the
    /// generic one.
    pub closed spec fn wf(&self) -> bool {
        &&& forall|i: int| 0 <= i < self.files@.len() ==> (#[trigger] self.files@[i]).wf()
        &&& self.builtins@.len() == 6
        &&& forall|k: int|
            0 <= k < 6 ==> (#[trigger] self.builtins@[k]).wf() && spec_fallback(builtin_name(k))
                == Some(self.builtins@[k].def_view())
        &&& self.generic.wf()
        &&& self.generic.def_view() == generic_template()
    }

    /// The file template of directory `dir` for node `name`, if one was added.
    pub closed spec fn file(&self, dir: Seq<char>, name: Seq<char>) -> Option<NodeTemplateV> {
        let i = find_file(self.files@, dir, name, 0);
        if i >= 0 {
            Some(self.files@[i].def_view())
        } else {
            None
        }
    }

    /// The stored template that resolution picks.
    pub closed spec fn chosen(&self, template_dir: Option<Seq<char>>, callee: Seq<char>) -> StoredTemplate {
        let i1 = match template_dir {
            Some(d) => if d != "default"@ {
                find_file(self.files@, d, callee, 0)
            } else {
                -1
            },
            None => -1,
        };
        let i2 = find_file(self.files@, "default"@, callee, 0);
        let b = builtin_index(callee);
        if i1 >= 0 {
            self.files@[i1]
        } else if i2 >= 0 {
            self.files@[i2]
        } else if b >= 0 {
            self.builtins@[b]
        } else {
            self.generic
        }
    }

    /// A store with the built-in templates and no file templates; an error
    /// when a built-in body does not parse.
    pub fn new() -> (r: Result<TemplateStore, TemplateError>)
        ensures
            r is Ok <==> builtins_parse(),
            r matches Ok(s) ==> s.wf() && forall|d: Seq<char>, c: Seq<char>| #[trigger] s.file(d, c) is None,
    {
        let mut builtins: Vec<StoredTemplate> = Vec::new();
        let names = ["task", "ask", "command", "collect", "print", "judge"];
        let mut k: usize = 0;
        while k < 6
            invariant
                k <= 6,
                builtins@.len() == k,
                names@ == seq!["task", "ask", "command", "collect", "print", "judge"],
                forall|j: int|
                    0 <= j < k ==> (#[trigger] builtins@[j]).wf() && spec_fallback(builtin_name(j))
                        == Some(builtins@[j].def_view()) && templates_parse(builtins@[j].def_view()),
            decreases 6 - k,
        {
            let name = names[k];
            proof {
                reveal_strlit("task");
                reveal_strlit("ask");
                reveal_strlit("command");
                reveal_strlit("collect");
                reveal_strlit("print");
                reveal_strlit("judge");
                assert(name@ == builtin_name(k as int));
            }
            let def = match fallback_template(name) {
                Some(d) => d,
                None => {
                    assert(false);
                    return Err(TemplateError::UnterminatedTag);
                },
            };
            let e = match stored(String::new(), owned(name), def) {
                Ok(e) => e,
                Err(err) => {
                    proof {
                        assert(!templates_parse(builtin_def(k as int)));
                    }
                    return Err(err);
                },
            };
            builtins.push(e);
            k = k + 1;
        }
        let generic = stored(String::new(), String::new(), generic_def())?;
        let s = TemplateStore { files: Vec::new(), builtins, generic };
        proof {
            assert forall|j: int| 0 <= j < 6 implies templates_parse(#[trigger] builtin_def(j)) by {
                assert(builtin_def(j) == builtins@[j].def_view());
            }
        }
        assert forall|d: Seq<char>, c: Seq<char>| #[trigger] s.file(d, c) is None by {
            assert(find_file(s.files@, d, c, 0) == -1);
        }
        Ok(s)
    }

    /// Add the file template `src` of directory `dir` for node `name`,
    /// replacing an earlier one. An error, and no change, when the body or
    /// the check template does not parse.
    pub fn add(&mut self, dir: &str, name: &str, src: &str) -> (r: Result<(), TemplateError>)
        requires
            old(self).wf(),
        ensures
            final(self).wf(),
            r is Ok <==> templates_parse(spec_parse_template(src@)),
            r is Ok ==> final(self).file(dir@, name@) == Some(spec_parse_template(src@)),
            r is Ok ==> forall|d: Seq<char>, c: Seq<char>|
                !(d == dir@ && c == name@) ==> #[trigger] final(self).file(d, c) == old(self).file(d, c),
            r is Err ==> forall|d: Seq<char>, c: Seq<char>| #[trigger] final(self).file(d, c) == old(self).file(d, c),
    {
        let def = parse_template(src);
        let e = stored(owned(dir), owned(name), def)?;
        let mut k: usize = 0;
        proof {
            lemma_find_file(self.files@, dir@, name@, 0);
        }
        while k < self.files.len()
            invariant
                k <= self.files@.len(),
                find_file(self.files@, dir@, name@, 0) == find_file(self.files@, dir@, name@, k as int),
            ensures
                k <= self.files@.len(),
                find_file(self.files@, dir@, name@, 0) == find_file(self.files@, dir@, name@, k as int),
                k < self.files@.len() ==> key_match(self.files@[k as int], dir@, name@),
            decreases self.files.len() - k,
        {
            if str_eq(self.files[k].dir.as_str(), dir) && str_eq(self.files[k].name.as_str(), name) {
                break;
            }
            k = k + 1;
        }
        let ghost old_files = self.files@;
        let ghost e_view = e;
        if k < self.files.len() {
            self.files.set(k, e);
            proof {
                assert(find_file(old_files, dir@, name@, 0) == k);
                lemma_find_file(old_files, dir@, name@, 0);
                assert forall|d: Seq<char>, c: Seq<char>|
                    !(d == dir@ && c == name@) implies #[trigger] self.file(d, c) == old(self).file(d, c) by {
                    lemma_find_file_same(old_files, self.files@, d, c, 0);
                    lemma_find_file(old_files, d, c, 0);
                }
                assert forall|j: int| 0 <= j < k implies !key_match(self.files@[j], dir@, name@) by {
                    assert(self.files@[j] == old_files[j]);
                }
                lemma_find_file_is(self.files@, dir@, name@, 0, k as int);
                assert forall|i: int| 0 <= i < self.files@.len() implies (#[trigger] self.files@[i]).wf() by {
                    if i != k {
                        assert(self.files@[i] == old_files[i]);
                    }
                }
            }
        } else {
            self.files.push(e);
            proof {
                lemma_find_file(old_files, dir@, name@, 0);
                assert forall|d: Seq<char>, c: Seq<char>|
                    !(d == dir@ && c == name@) implies #[trigger] self.file(d, c) == old(self).file(d, c) by {
                    lemma_find_file_same(old_files, self.files@, d, c, 0);
                    lemma_find_file(old_files, d, c, 0);
                }
                assert forall|j: int| 0 <= j < old_files.len() implies !key_match(self.files@[j], dir@, name@) by {
                    assert(self.files@[j] == old_files[j]);
                }
                lemma_find_file_is(self.files@, dir@, name@, 0, old_files.len() as int);
                assert forall|i: int| 0 <= i < self.files@.len() implies (#[trigger] self.files@[i]).wf() by {
                    if i < old_files.len() {
                        assert(self.files@[i] == old_files[i]);
                    }
                }
            }
        }
        Ok(())
    }
}

/// The template definition resolution picks for `callee`: a file template of
/// the workflow's template directory (unless that is `default`), else one of
/// the `default` directory, else the built-in template, else the generic one.
pub open spec fn spec_resolve(store: &TemplateStore, template_dir: Option<Seq<char>>, callee: Seq<char>) -> NodeTemplateV {
    let from_dir = match template_dir {
        Some(d) => if d != "default"@ {
            store.file(d, callee)
        } else {
            None
        },
        None => None,
    };
    match from_dir {
        Some(t) => t,
        None => match store.file("default"@, callee) {
            Some(t) => t,
            None => match spec_fallback(callee) {
                Some(t) => t,
                None => generic_template(),
            },
        },
    }
}

/// A file template overrides the others for its node: one of the workflow's
/// template directory is picked first, and one of the `default` directory
/// is picked when the workflow names no directory (or `default`).
pub proof fn law_file_template_wins(store: &TemplateStore, dir: Seq<char>, name: Seq<char>, def: NodeTemplateV)
    requires
        store.file(dir, name) == Some(def),
    ensures
        dir != "default"@ ==> spec_resolve(store, Some(dir), name) == def,
        dir == "default"@ ==> spec_resolve(store, None, name) == def && spec_resolve(store, Some(dir), name) == def,
{
}

/// Without file templates for a node, a built-in node resolves to its
/// built-in template and any other node to the generic one.
pub proof fn law_builtin_fallback(store: &TemplateStore, template_dir: Option<Seq<char>>, name: Seq<char>)
    requires
        store.file("default"@, name) is None,
        template_dir matches Some(d) ==> store.file(d, name) is None,
    ensures
        spec_resolve(store, template_dir, name) == match spec_fallback(name) {
            Some(t) => t,
            None => generic_template(),
        },
{
}

/// The stored template that resolution picks holds the resolved definition,
/// and its parsed templates are those of that definition's texts.
pub proof fn lemma_chosen(store: &TemplateStore, template_dir: Option<Seq<char>>, callee: Seq<char>)
    requires
        store.wf(),
    ensures
        store.chosen(template_dir, callee).def_view() == spec_resolve(store, template_dir, callee),
        store.chosen(template_dir, callee).body_template().source() == spec_resolve(store, template_dir, callee).body,
        store.chosen(template_dir, callee).check_template() is Some == has_check(
            spec_resolve(store, template_dir, callee).on_check,
        ),
        store.chosen(template_dir, callee).check_template() matches Some(t) ==> spec_resolve(store, template_dir, callee).on_check
            == Some(t.source()),
{
    reveal_strlit("task");
    reveal_strlit("ask");
    reveal_strlit("command");
    reveal_strlit("collect");
    reveal_strlit("print");
    reveal_strlit("judge");
    let b = builtin_index(callee);
    if b >= 0 {
        assert(builtin_name(b) == callee);
        assert(store.builtins@[b].wf());
    }
    match template_dir {
        Some(d) => {
            if d != "default"@ {
                lemma_find_file(store.files@, d, callee, 0);
            }
        },
        None => {},
    }
    lemma_find_file(store.files@, "default"@, callee, 0);
    let i1 = match template_dir {
        Some(d) => if d != "default"@ {
            find_file(store.files@, d, callee, 0)
        } else {
            -1
        },
        None => -1,
    };
    if i1 >= 0 {
        assert(store.files@[i1].wf());
    }
    let i2 = find_file(store.files@, "default"@, callee, 0);
    if i2 >= 0 {
        assert(store.files@[i2].wf());
    }
}

impl TemplateStore {
    fn find_file_exec(&self, dir: &str, name: &str) -> (r: Option<usize>)
        ensures
            match r {
                Some(k) => k == find_file(self.files@, dir@, name@, 0) && k < self.files@.len(),
                None => find_file(self.files@, dir@, name@, 0) == -1,
            },
    {
        let mut k: usize = 0;
        while k < self.files.len()
            invariant
                k <= self.files@.len(),
                find_file(self.files@, dir@, name@, 0) == find_file(self.files@, dir@, name@, k as int),
            decreases self.files.len() - k,
        {
            if str_eq(self.files[k].dir.as_str(), dir) && str_eq(self.files[k].name.as_str(), name) {
                return Some(k);
            }
            k = k + 1;
        }
        None
    }

    /// The stored template that resolution picks for `callee` under `meta`.
    fn chosen_entry(&self, meta: &WorkflowMeta, callee: &str) -> (r: &StoredTemplate)
        requires
            self.wf(),
        ensures
            *r == self.chosen(crate::context::opt_text(meta.template_dir), callee@),
    {
        proof {
            reveal_strlit("default");
            reveal_strlit("task");
            reveal_strlit("ask");
            reveal_strlit("command");
            reveal_strlit("collect");
            reveal_strlit("print");
            reveal_strlit("judge");
        }
        match &meta.template_dir {
            Some(d) => {
                if !str_eq(d.as_str(), "default") {
                    match self.find_file_exec(d.as_str(), callee) {
                        Some(k) => {
                            return &self.files[k];
                        },
                        None => {},
                    }
                }
            },
            None => {},
        }
        match self.find_file_exec("default", callee) {
            Some(k) => {
                return &self.files[k];
            },
            None => {},
        }
        let b: usize = if str_eq(callee, "task") {
            0
        } else if str_eq(callee, "ask") {
            1
        } else if str_eq(callee, "command") {
            2
        } else if str_eq(callee, "collect") {
            3
        } else if str_eq(callee, "print") {
            4
        } else if str_eq(callee, "judge") {
            5
        } else {
            6
        };
        if b < 6 {
            &self.builtins[b]
        } else {
            &self.generic
        }
    }
}

/// Resolve the node template of `callee` under the workflow's metadata (see
/// [`spec_resolve`]).
pub fn resolve_template_with_meta(callee: &str, meta: &WorkflowMeta, store: &TemplateStore) -> (r: NodeTemplate)
    requires
        store.wf(),
    ensures
        r@ == spec_resolve(store, crate::context::opt_text(meta.template_dir), callee@),
{
    let e = store.chosen_entry(meta, callee);
    proof {
        lemma_chosen(store, crate::context::opt_text(meta.template_dir), callee@);
    }
    dup_node_template(&e.def)
}

/// Resolve the node template of `callee` with the default template
/// directory.
pub fn resolve_template(callee: &str, store: &TemplateStore) -> (r: NodeTemplate)
    requires
        store.wf(),
    ensures
        r@ == spec_resolve(store, None, callee@),
{
    let meta = WorkflowMeta::default();
    resolve_template_with_meta(callee, &meta, store)
}

// ---- the rendering context of a call ----

pub open spec fn opt_str(s: Option<&str>) -> Option<Seq<char>> {
    match s {
        Some(t) => Some(t@),
        None => None,
    }
}

pub open spec fn opt_vars(v: Option<&Vars>) -> Option<Map<Seq<char>, ValueV>> {
    match v {
        Some(m) => Some(m@),
        None => None,
    }
}

/// An argument's value: evaluated in the run's scope when there is one (its
/// static rendering if that fails), else its static rendering.
pub open spec fn spec_arg_value(e: Spanned<Expr>, vars: Option<Map<Seq<char>, ValueV>>) -> ValueV {
    match vars {
        Some(m) => match spec_eval(e.value, m) {
            Ok(v) => v,
            Err(_) => spec_eval_literal(e.value),
        },
        None => spec_eval_literal(e.value),
    }
}

/// The named arguments bound over `base`, in order: all but `check`, and
/// `return` only when the call has a receiver.
pub open spec fn ctx_named(
    args: Seq<Spanned<CallArg>>,
    has_into: bool,
    vars: Option<Map<Seq<char>, ValueV>>,
    base: Map<Seq<char>, ValueV>,
) -> Map<Seq<char>, ValueV>
    decreases args.len(),
{
    if args.len() == 0 {
        base
    } else {
        let m = ctx_named(args.drop_last(), has_into, vars, base);
        match args.last().value {
            CallArg::Named { name, value } => if name@ == "check"@ || (name@ == "return"@ && !has_into) {
                m
            } else {
                m.insert(name@, spec_arg_value(*value, vars))
            },
            CallArg::Positional(_) => m,
        }
    }
}

/// The template context of a call: `steer_target` (the receiver, or
/// `<var>`), `steer_instance`, `instruction` (the first argument, when it is
/// positional), and the named arguments.
pub open spec fn spec_context(
    call: Call,
    into: Option<Seq<char>>,
    vars: Option<Map<Seq<char>, ValueV>>,
    instance: Seq<char>,
) -> Map<Seq<char>, ValueV> {
    let target = match into {
        Some(t) => t,
        None => "<var>"@,
    };
    let m0 = Map::<Seq<char>, ValueV>::empty().insert("steer_target"@, ValueV::Str(target)).insert(
        "steer_instance"@,
        ValueV::Str(instance),
    );
    let m1 = if call.args@.len() > 0 && call.args@[0].value is Positional {
        m0.insert("instruction"@, spec_arg_value(*call.args@[0].value->Positional_0, vars))
    } else {
        m0
    };
    ctx_named(call.args@, into is Some, vars, m1)
}

/// Evaluate an argument expression (see [`spec_arg_value`]).
pub fn arg_value(e: &Spanned<Expr>, vars: Option<&Vars>) -> (r: Value)
    ensures
        r.view() == spec_arg_value(*e, opt_vars(vars)),
{
    match vars {
        Some(v) => match eval(&e.value, v) {
            Ok(x) => x,
            Err(_) => eval_literal(e),
        },
        None => eval_literal(e),
    }
}

/// Build the template context of a call (see [`spec_context`]).
pub fn build_context(call: &Call, into: Option<&str>, vars: Option<&Vars>, instance: &str) -> (r: Vars)
    ensures
        r@ == spec_context(*call, opt_str(into), opt_vars(vars), instance@),
{
    let mut ctx = Vars::new();
    let target = match into {
        Some(t) => owned(t),
        None => owned("<var>"),
    };
    ctx.insert(owned("steer_target"), Value::Str(target));
    ctx.insert(owned("steer_instance"), Value::Str(owned(instance)));
    if call.args.len() > 0 {
        match &call.args[0].value {
            CallArg::Positional(e) => {
                ctx.insert(owned("instruction"), arg_value(e, vars));
            },
            _ => {},
        }
    }
    let ghost m1 = ctx@;
    let mut k: usize = 0;
    proof {
        assert(call.args@.take(0) =~= Seq::<Spanned<CallArg>>::empty());
    }
    while k < call.args.len()
        invariant
            k <= call.args@.len(),
            ctx@ == ctx_named(call.args@.take(k as int), into is Some, opt_vars(vars), m1),
        decreases call.args.len() - k,
    {
        proof {
            let t = call.args@.take(k + 1);
            assert(t.drop_last() =~= call.args@.take(k as int));
            assert(t.last() == call.args@[k as int]);
        }
        match &call.args[k].value {
            CallArg::Named { name, value } => {
                let skip = str_eq(name.as_str(), "check") || (str_eq(name.as_str(), "return") && into.is_none());
                if !skip {
                    ctx.insert(name.clone(), arg_value(value, vars));
                }
            },
            CallArg::Positional(_) => {},
        }
        k = k + 1;
    }
    proof {
        assert(call.args@.take(call.args@.len() as int) =~= call.args@);
    }
    ctx
}

/// Render the instruction of a call with the template that resolution
/// picks under `meta`. `into` is the variable that receives the call's
/// value, exposed to the template as `steer_target`; `vars`, when given, is
/// the run's scope for evaluating arguments.
pub fn render_call(
    call: &Call,
    into: Option<&str>,
    vars: Option<&Vars>,
    meta: &WorkflowMeta,
    instance: &str,
    store: &TemplateStore,
) -> (r: String)
    requires
        store.wf(),
    ensures
        r@ == store.chosen(crate::context::opt_text(meta.template_dir), call.callee@).body_template().spec_render(
            spec_context(*call, opt_str(into), opt_vars(vars), instance@),
        ),
        store.chosen(crate::context::opt_text(meta.template_dir), call.callee@).body_template().source()
            == spec_resolve(store, crate::context::opt_text(meta.template_dir), call.callee@).body,
{
    let e = store.chosen_entry(meta, call.callee.as_str());
    proof {
        lemma_chosen(store, crate::context::opt_text(meta.template_dir), call.callee@);
    }
    let ctx = build_context(call, into, vars, instance);
    e.body.render(&ctx)
}

/// The stored template that resolution picks, for rendering a check.
pub fn chosen_template<'a>(store: &'a TemplateStore, meta: &WorkflowMeta, callee: &str) -> (r: &'a StoredTemplate)
    requires
        store.wf(),
    ensures
        *r == store.chosen(crate::context::opt_text(meta.template_dir), callee@),
{
    store.chosen_entry(meta, callee)
}

impl StoredTemplate {
    /// The parsed check template, if the definition has a non-empty one.
    pub fn check(&self) -> (r: Option<&Template>)
        ensures
            r == match self.check_template() {
                Some(t) => Some(&t),
                None => None,
            },
    {
        match &self.check {
            Some(t) => Some(t),
            None => None,
        }
    }
}

// ---- the check instruction ----

/// The index of the first named `check` argument at or after `i`, or -1.
pub open spec fn check_arg_index(args: Seq<Spanned<CallArg>>, i: int) -> int
    decreases args.len() - i,
{
    if i < 0 || i >= args.len() {
        -1
    } else if args[i].value matches CallArg::Named { name, .. } && name@ == "check"@ {
        i
    } else {
        check_arg_index(args, i + 1)
    }
}

/// The value of a call's `check=` argument: evaluated in the run's scope
/// when there is one, else rendered statically; null without the argument.
pub open spec fn spec_check_value(call: Call, vars: Option<Map<Seq<char>, ValueV>>) -> Result<ValueV, crate::value::EvalErrorV> {
    let k = check_arg_index(call.args@, 0);
    if k < 0 || k >= call.args@.len() {
        Ok(ValueV::Null)
    } else {
        let e = *call.args@[k].value->Named_value;
        match vars {
            Some(m) => spec_eval(e.value, m),
            None => Ok(spec_eval_literal(e.value)),
        }
    }
}

/// The check text: the `on_check` template rendered with `check` bound to
/// the check value, or the check value rendered.
pub open spec fn spec_check_text(
    on_check: Option<Template>,
    call: Call,
    into: Option<Seq<char>>,
    vars: Option<Map<Seq<char>, ValueV>>,
    instance: Seq<char>,
    v: ValueV,
) -> Seq<char> {
    match on_check {
        Some(t) => t.spec_render(spec_context(call, into, vars, instance).insert("check"@, v)),
        None => crate::value::spec_render(v),
    }
}

/// Render the check instruction of a call: the `on_check` template, when the
/// node's template has one, rendered with `check` bound to the evaluated
/// `check=` argument; else that value rendered. An error when the `check=`
/// argument cannot be evaluated.
pub fn render_check(
    on_check: Option<&Template>,
    call: &Call,
    into: Option<&str>,
    vars: Option<&Vars>,
    instance: &str,
) -> (r: Result<String, EvalError>)
    ensures
        match spec_check_value(*call, opt_vars(vars)) {
            Ok(v) => r matches Ok(s) && s@ == spec_check_text(
                match on_check {
                    Some(t) => Some(*t),
                    None => None,
                },
                *call,
                opt_str(into),
                opt_vars(vars),
                instance@,
                v,
            ),
            Err(e) => r matches Err(x) && x@ == e,
        },
{
    let mut k: usize = 0;
    while k < call.args.len()
        invariant
            k <= call.args@.len(),
            check_arg_index(call.args@, 0) == check_arg_index(call.args@, k as int),
        ensures
            k <= call.args@.len(),
            check_arg_index(call.args@, 0) == check_arg_index(call.args@, k as int),
            k < call.args@.len() ==> (call.args@[k as int].value matches CallArg::Named { name, .. }
                && name@ == "check"@),
        decreases call.args.len() - k,
    {
        let is_check = match &call.args[k].value {
            CallArg::Named { name, .. } => str_eq(name.as_str(), "check"),
            _ => false,
        };
        if is_check {
            break;
        }
        k = k + 1;
    }
    let value = if k < call.args.len() {
        match &call.args[k].value {
            CallArg::Named { value, .. } => match vars {
                Some(v) => match eval(&value.value, v) {
                    Ok(x) => x,
                    Err(e) => {
                        return Err(e);
                    },
                },
                None => eval_literal(value),
            },
            CallArg::Positional(_) => Value::Null,
        }
    } else {
        Value::Null
    };
    match on_check {
        Some(t) => {
            let mut ctx = build_context(call, into, vars, instance);
            ctx.insert(owned("check"), value);
            Ok(t.render(&ctx))
        },
        None => Ok(value.render()),
    }
}

// ---- command output texts ----

/// How the agent reports a verification result.
pub open spec fn spec_check_report(instance: Seq<char>) -> Seq<char> {
    "Report the verification result. If it passed, run `steer instance set "@ + instance
        + " checked true`. If it failed, run `steer instance set "@ + instance
        + " checked '{\"passed\":false,\"reason\":\"<why it failed>\"}'`."@
}

/// How the agent reports a verification result, for the check instruction's
/// reminder.
pub fn render_check_report(instance: &str) -> (r: String)
    ensures
        r@ == spec_check_report(instance@),
{
    let mut s = String::new();
    crate::text::push_str(&mut s, "Report the verification result. If it passed, run `steer instance set ");
    crate::text::push_str(&mut s, instance);
    crate::text::push_str(&mut s, " checked true`. If it failed, run `steer instance set ");
    crate::text::push_str(&mut s, instance);
    crate::text::push_str(&mut s, " checked '{\"passed\":false,\"reason\":\"<why it failed>\"}'`.");
    s
}

/// The reminder added to a retried op's instruction.
pub open spec fn spec_retry_context(reason: Seq<char>, retry_count: u32) -> Seq<char> {
    "Previous verification failed (retry #"@ + crate::text::int_text(retry_count as int) + "): "@ + reason
        + "\nAddress this failure before reporting the check again."@
}

/// The reminder added to the instruction of an op whose check failed.
pub fn render_retry_context(reason: &str, retry_count: u32) -> (r: String)
    ensures
        r@ == spec_retry_context(reason@, retry_count),
{
    let mut s = String::new();
    crate::text::push_str(&mut s, "Previous verification failed (retry #");
    crate::text::push_int(&mut s, retry_count as i64);
    crate::text::push_str(&mut s, "): ");
    crate::text::push_str(&mut s, reason);
    crate::text::push_str(&mut s, "\nAddress this failure before reporting the check again.");
    s
}

/// The output of `instance start`: the confirmation, then the workflow's
/// `@context` description when it has one.
pub open spec fn spec_start_output(name: Seq<char>, context: Option<Seq<char>>) -> Seq<char> {
    "instance `"@ + name + "` started"@ + match context {
        Some(c) => "\n\n"@ + c,
        None => Seq::empty(),
    }
}

/// The output of `instance start`.
pub fn render_start_output(name: &str, context: Option<&str>) -> (r: String)
    ensures
        r@ == spec_start_output(name@, opt_str(context)),
{
    let mut s = String::new();
    crate::text::push_str(&mut s, "instance `");
    crate::text::push_str(&mut s, name);
    crate::text::push_str(&mut s, "` started");
    match context {
        Some(c) => {
            crate::text::push_str(&mut s, "\n\n");
            crate::text::push_str(&mut s, c);
        },
        None => {},
    }
    s
}

/// The output of `instance status`: the instance and its status, then the
/// workflow's `@context` description when it has one.
pub open spec fn spec_status_output(name: Seq<char>, status: Seq<char>, context: Option<Seq<char>>) -> Seq<char> {
    name + ": "@ + status + match context {
        Some(c) => "\n"@ + c,
        None => Seq::empty(),
    }
}

/// The output of `instance status`.
pub fn render_status_output(name: &str, status: &str, context: Option<&str>) -> (r: String)
    ensures
        r@ == spec_status_output(name@, status@, opt_str(context)),
{
    let mut s = String::new();
    crate::text::push_str(&mut s, name);
    crate::text::push_str(&mut s, ": ");
    crate::text::push_str(&mut s, status);
    match context {
        Some(c) => {
            crate::text::push_str(&mut s, "\n");
            crate::text::push_str(&mut s, c);
        },
        None => {},
    }
    s
}

// ---- workflow metadata ----

/// The metadata `(template_dir, context)` that the top-level `@` directives
/// of `stmts` set, in order, each value rendered statically.
pub open spec fn spec_meta(stmts: Seq<Spanned<crate::ast::Stmt>>) -> (Option<Seq<char>>, Option<Seq<char>>)
    decreases stmts.len(),
{
    if stmts.len() == 0 {
        (None, None)
    } else {
        let m = spec_meta(stmts.drop_last());
        match stmts.last().value {
            crate::ast::Stmt::Meta { key, value } => if key@ == "template"@ {
                (crate::context::meta_text(spec_eval_literal(value.value)), m.1)
            } else if key@ == "context"@ {
                (m.0, crate::context::meta_text(spec_eval_literal(value.value)))
            } else {
                m
            },
            _ => m,
        }
    }
}

/// The metadata a module's top-level `@template` and `@context` directives
/// set, evaluated statically.
pub fn extract_meta(module: &crate::ast::Module) -> (r: WorkflowMeta)
    ensures
        (crate::context::opt_text(r.template_dir), crate::context::opt_text(r.context)) == spec_meta(module.body@),
{
    let mut meta = WorkflowMeta::default();
    let mut k: usize = 0;
    proof {
        assert(module.body@.take(0) =~= Seq::<Spanned<crate::ast::Stmt>>::empty());
    }
    while k < module.body.len()
        invariant
            k <= module.body@.len(),
            (crate::context::opt_text(meta.template_dir), crate::context::opt_text(meta.context)) == spec_meta(
                module.body@.take(k as int),
            ),
        decreases module.body.len() - k,
    {
        proof {
            let t = module.body@.take(k + 1);
            assert(t.drop_last() =~= module.body@.take(k as int));
            assert(t.last() == module.body@[k as int]);
            reveal_strlit("template");
            reveal_strlit("context");
            assert("template"@.len() != "context"@.len());
        }
        match &module.body[k].value {
            crate::ast::Stmt::Meta { key, value } => {
                let v = eval_literal(value);
                meta.apply(key.as_str(), &v);
            },
            _ => {},
        }
        k = k + 1;
    }
    proof {
        assert(module.body@.take(module.body@.len() as int) =~= module.body@);
    }
    meta
}

/// The description a module's last top-level `@description` directive sets,
/// rendered statically; none when there is no such directive or its text is
/// empty.
pub open spec fn spec_description(stmts: Seq<Spanned<crate::ast::Stmt>>) -> Option<Seq<char>>
    decreases stmts.len(),
{
    if stmts.len() == 0 {
        None
    } else {
        match stmts.last().value {
            crate::ast::Stmt::Meta { key, value } => if key@ == "description"@ {
                crate::context::meta_text(spec_eval_literal(value.value))
            } else {
                spec_description(stmts.drop_last())
            },
            _ => spec_description(stmts.drop_last()),
        }
    }
}

/// The workflow's `@description` text, for listing workflows.
pub fn workflow_description(module: &crate::ast::Module) -> (r: Option<String>)
    ensures
        crate::context::opt_text(r) == spec_description(module.body@),
{
    let mut k = module.body.len();
    assert(module.body@.take(k as int) =~= module.body@);
    while k > 0
        invariant
            k <= module.body@.len(),
            spec_description(module.body@) == spec_description(module.body@.take(k as int)),
        decreases k,
    {
        proof {
            let t = module.body@.take(k as int);
            assert(t.drop_last() =~= module.body@.take(k - 1));
            assert(t.last() == module.body@[k - 1]);
        }
        match &module.body[k - 1].value {
            crate::ast::Stmt::Meta { key, value } => {
                if str_eq(key.as_str(), "description") {
                    let text = eval_literal(value).render();
                    if text.as_str().unicode_len() == 0 {
                        return None;
                    } else {
                        return Some(text);
                    }
                }
            },
            _ => {},
        }
        k = k - 1;
    }
    None
}

} // verus!
