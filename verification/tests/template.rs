use steer::ast::{Expr, Stmt};
use steer::context::WorkflowMeta;
use steer::formatter::{parse_front_matter, parse_template, NodeTemplate, ParamKind, ParamSpec};
use steer::parser::parse;
use steer::render::{
    fallback_template, render_call, render_check, resolve_template, resolve_template_with_meta,
    TemplateStore, ASK_BODY, COLLECT_BODY, COMMAND_BODY, JUDGE_BODY, PRINT_BODY, TASK_BODY,
};
use steer::template::{Template, TemplateError};
use steer::value::{Value, Vars};

fn ctx(pairs: Vec<(&str, Value)>) -> Vars {
    let mut v = Vars::new();
    for (k, x) in pairs {
        v.insert(k.to_string(), x);
    }
    v
}

fn render(src: &str, pairs: Vec<(&str, Value)>) -> String {
    Template::parse(src).expect("template parses").render(&ctx(pairs))
}

fn store() -> TemplateStore {
    TemplateStore::new().expect("built-in templates parse")
}

fn spec(name: &str, kind: ParamKind, required: bool, default: Option<Value>) -> ParamSpec {
    ParamSpec { name: name.into(), kind, required, default }
}

#[test]
fn plain_text_passes_through() {
    assert_eq!(render("hello world", vec![]), "hello world");
}

#[test]
fn var_interpolation() {
    assert_eq!(render("hi {{ name }}", vec![("name", Value::Str("bob".into()))]), "hi bob");
}

#[test]
fn missing_var_renders_empty() {
    assert_eq!(render("hi {{ name }}", vec![]), "hi ");
}

#[test]
fn if_true_and_false() {
    let tmpl = "{% if flag %}ON{% else %}OFF{% endif %}";
    assert_eq!(render(tmpl, vec![("flag", Value::Bool(true))]), "ON");
    assert_eq!(render(tmpl, vec![("flag", Value::Bool(false))]), "OFF");
    assert_eq!(render(tmpl, vec![]), "OFF");
}

#[test]
fn template_if_without_else() {
    let tmpl = "x{% if flag %}Y{% endif %}z";
    assert_eq!(render(tmpl, vec![("flag", Value::Bool(true))]), "xYz");
    assert_eq!(render(tmpl, vec![("flag", Value::Bool(false))]), "xz");
}

#[test]
fn for_loop_over_list() {
    let tmpl = "{% for f in files %}[{{ f }}] {% endfor %}";
    let v = render(
        tmpl,
        vec![("files", Value::List(vec![Value::Str("a".into()), Value::Str("b".into())]))],
    );
    assert_eq!(v, "[a] [b] ");
}

#[test]
fn for_over_missing_renders_nothing() {
    let tmpl = "{% for f in files %}{{ f }}{% endfor %}end";
    assert_eq!(render(tmpl, vec![]), "end");
}

#[test]
fn nested_if_in_for() {
    let tmpl = "{% for n in xs %}{% if n %}{{ n }};{% endif %}{% endfor %}";
    let v = render(
        tmpl,
        vec![(
            "xs",
            Value::List(vec![
                Value::Str("a".into()),
                Value::Str(String::new()),
                Value::Str("b".into()),
            ]),
        )],
    );
    assert_eq!(v, "a;b;");
}

#[test]
fn err_unterminated_expr() {
    assert_eq!(Template::parse("hi {{ name").unwrap_err(), TemplateError::UnterminatedExpr);
}

#[test]
fn err_unterminated_tag() {
    assert_eq!(Template::parse("{% if x ").unwrap_err(), TemplateError::UnterminatedTag);
}

#[test]
fn err_unclosed_if_block() {
    assert!(matches!(
        Template::parse("{% if x %}body"),
        Err(TemplateError::WrongClose { expected: "endif", .. })
    ));
}

#[test]
fn err_wrong_close() {
    assert!(matches!(
        Template::parse("{% for x in xs %}{% endif %}"),
        Err(TemplateError::WrongClose { expected: "endfor", .. })
    ));
}

#[test]
fn err_unmatched_close() {
    assert!(matches!(
        Template::parse("hello {% endif %}"),
        Err(TemplateError::UnmatchedClose(_))
    ));
}

// ---- render_call ----

fn first_call_instruction(src: &str) -> String {
    let m = parse(src).unwrap();
    match &m.body[0].value {
        Stmt::Call(c) => render_call(c, None, None, &WorkflowMeta::default(), "<name>", &store()),
        _ => panic!("not a call statement"),
    }
}

#[test]
fn render_bare_task() {
    let out = first_call_instruction("task(\"do something\")\n");
    assert!(out.contains("do something"));
    assert!(!out.contains("Set the result"));
    assert!(!out.contains("Verify"));
}

#[test]
fn render_task_with_all_params() {
    let out = first_call_instruction(
        "task(\"do it\", return=\"path\", produce=[\"a\", \"b\"], check=\"ok\")\n",
    );
    assert!(out.contains("do it"));
    assert!(!out.contains("steer instance set <var>"));
    assert!(out.contains("Write or update the following files"));
    assert!(out.contains("a"));
    assert!(out.contains("b"));
    assert!(!out.contains("Verify: ok"));
    assert!(!out.contains("steer set checked"));
    assert!(!out.contains("sub-agent"));
}

#[test]
fn render_print_uses_minimal_body() {
    let out = first_call_instruction("print(\"hello\")\n");
    assert!(out.contains("hello"), "expected 'hello' in: {out}");
}

#[test]
fn render_unknown_callee_falls_back_to_value_template() {
    let out = first_call_instruction("custom(\"thing\", return=\"x\")\n");
    assert!(out.contains("thing"));
    assert!(!out.contains("steer instance set <var>"));
}

#[test]
fn assigned_value_call_renders_set_prompt_with_target() {
    let m = parse("out = task(\"do\", return=\"path\")\n").unwrap();
    let Stmt::Assign { target, value } = &m.body[0].value else { panic!("not an assignment") };
    let Expr::Call(c) = &value.value else { panic!("not a call") };
    let out = render_call(c, Some(target.as_str()), None, &WorkflowMeta::default(), "<name>", &store());
    assert!(out.contains("steer instance set") && out.contains("out"));
    assert!(out.contains("path"));
}

#[test]
fn render_judge_asks_for_boolean_and_targets_var() {
    let m = parse("passed = judge(\"is the build green?\")\n").unwrap();
    let Stmt::Assign { target, value } = &m.body[0].value else { panic!("not an assignment") };
    let Expr::Call(c) = &value.value else { panic!("not a call") };
    let out = render_call(c, Some(target.as_str()), None, &WorkflowMeta::default(), "<name>", &store());
    assert!(out.contains("is the build green?"));
    assert!(out.contains("`true` or `false`"));
    assert!(out.contains("steer instance set") && out.contains("passed"));
    assert!(!out.contains("Verify"));
    assert!(!out.contains("Expected files"));
}

#[test]
fn builtin_templates_all_parse() {
    for body in [TASK_BODY, ASK_BODY, COMMAND_BODY, COLLECT_BODY, PRINT_BODY, JUDGE_BODY] {
        Template::parse(body).expect("built-in template must parse");
    }
}

#[test]
fn value_nodes_differentiate_by_source() {
    let task_out = first_call_instruction("task(\"do\")\n");
    let ask_out = first_call_instruction("ask(\"do\", return=\"x\")\n");
    let cmd_out = first_call_instruction("command(\"do\", return=\"x\")\n");
    let col_out = first_call_instruction("collect(\"do\", return=\"x\")\n");
    assert!(!task_out.contains("Ask the user"));
    assert!(ask_out.contains("Ask the user"));
    assert!(cmd_out.contains("shell command") || cmd_out.contains("Shell command"));
    assert!(col_out.contains("Investigate") || col_out.contains("your own") || col_out.contains("yourself"));
    assert!(!col_out.contains("Ask the user"));
    assert!(!col_out.contains("Shell command"));
}

#[test]
fn collect_template_conveys_reasoning_semantic() {
    let out = first_call_instruction("collect(\"find the root cause\", return=\"summary\")\n");
    assert!(out.contains("find the root cause"), "instruction missing: {out}");
    assert!(
        out.contains("Investigate") || out.contains("your own") || out.contains("yourself"),
        "collect reasoning semantic missing: {out}",
    );
}

#[test]
fn interpolation_in_instruction_preserved_as_placeholder() {
    let out = first_call_instruction("task(\"fix {f}\")\n");
    assert!(out.contains("fix {f}"));
}

#[test]
fn workflow_template_dir_overrides_default() {
    let mut s = store();
    s.add("test-meta", "task", "CUSTOM {{ instruction }}").unwrap();
    let m = parse("task(\"body\")\n").unwrap();
    let Stmt::Call(c) = &m.body[0].value else { panic!("not a call statement") };
    let meta = WorkflowMeta { template_dir: Some("test-meta".into()), context: None };
    let out = render_call(c, None, None, &meta, "<name>", &s);
    assert_eq!(out, "CUSTOM body");
}

// ---- on_check ----

#[test]
fn parse_front_matter_with_on_check_block() {
    let src = "\
parameter:
  instruction: string, required
  check: string
on_check: |
  Verify the following:
  <check>{{ check }}</check>
  Inspect the work.
";
    let (params, on_check) = parse_front_matter(src);
    assert_eq!(params.len(), 2);
    assert_eq!(params[0].name, "instruction");
    assert_eq!(params[1].name, "check");
    let oc = on_check.expect("on_check should be parsed");
    assert!(oc.contains("Verify the following:"));
    assert!(oc.contains("{{ check }}"));
    assert!(oc.contains("Inspect the work."));
}

#[test]
fn parse_front_matter_with_on_check_inline() {
    let src = "parameter:\n  instruction: string, required\non_check: simple value\n";
    let (params, on_check) = parse_front_matter(src);
    assert_eq!(params.len(), 1);
    assert_eq!(on_check, Some("simple value".to_string()));
}

#[test]
fn parse_front_matter_without_on_check() {
    let src = "parameter:\n  instruction: string, required\n  check: string\n";
    let (params, on_check) = parse_front_matter(src);
    assert_eq!(params.len(), 2);
    assert!(on_check.is_none());
}

#[test]
fn parse_front_matter_on_check_at_end() {
    let src = "\
parameter:
  instruction: string, required
on_check: |
  Line one
  Line two
";
    let (_, on_check) = parse_front_matter(src);
    let oc = on_check.expect("on_check should be parsed");
    assert!(oc.contains("Line one"));
    assert!(oc.contains("Line two"));
}

#[test]
fn render_check_with_on_check_template() {
    let tmpl = NodeTemplate {
        params: vec![spec("instruction", ParamKind::String, true, None)],
        body: "{{ instruction }}".to_string(),
        on_check: Some("Verify: <check>{{ check }}</check> for {{ steer_target }}".to_string()),
    };
    let on_check = Template::parse(tmpl.on_check.as_deref().unwrap()).unwrap();
    let m = parse("x = task(\"do\", check=\"ok\")\n").unwrap();
    let Stmt::Assign { target, value } = &m.body[0].value else { panic!("not an assignment") };
    let Expr::Call(c) = &value.value else { panic!("not a call") };
    let vars = Vars::new();
    let out = render_check(Some(&on_check), c, Some(target.as_str()), Some(&vars), "<name>").unwrap();
    assert!(out.contains("Verify:"), "got: {out}");
    assert!(out.contains("<check>ok</check>"), "got: {out}");
    assert!(out.contains("for x"), "got: {out}");
}

#[test]
fn render_check_fallback_without_on_check() {
    let tmpl = NodeTemplate {
        params: vec![spec("instruction", ParamKind::String, true, None)],
        body: "{{ instruction }}".to_string(),
        on_check: None,
    };
    assert!(tmpl.on_check.is_none());
    let m = parse("task(\"do\", check=\"verify this\")\n").unwrap();
    let Stmt::Call(c) = &m.body[0].value else { panic!("not a call") };
    let vars = Vars::new();
    let out = render_check(None, c, None, Some(&vars), "<name>").unwrap();
    assert_eq!(out, "verify this");
}

// ---- further cases ----

#[test]
fn malformed_for_is_an_error() {
    assert!(matches!(
        Template::parse("{% for x %}a{% endfor %}"),
        Err(TemplateError::MalformedFor(_))
    ));
}

#[test]
fn unknown_tag_is_an_unmatched_close() {
    assert_eq!(
        Template::parse("{% foo %}").unwrap_err(),
        TemplateError::UnmatchedClose("foo".into())
    );
}

#[test]
fn template_error_messages() {
    assert_eq!(TemplateError::UnterminatedExpr.message(), "unterminated `{{ }}`");
    assert_eq!(
        TemplateError::WrongClose { expected: "endif", found: "endfor".into() }.message(),
        "expected `endif`, found `endfor`"
    );
}

#[test]
fn for_loop_variable_shadows_only_inside_the_body() {
    let tmpl = "{% for x in xs %}{{ x }}{% endfor %}-{{ x }}";
    let v = render(
        tmpl,
        vec![
            ("x", Value::Str("outer".into())),
            ("xs", Value::List(vec![Value::Int(1), Value::Int(2)])),
        ],
    );
    assert_eq!(v, "12-outer");
}

#[test]
fn parse_template_without_front_matter_is_all_body() {
    let t = parse_template("just {{ instruction }}");
    assert_eq!(t.body, "just {{ instruction }}");
    assert_eq!(t.params.len(), 1);
    assert_eq!(t.params[0].name, "instruction");
    assert!(t.params[0].required);
    assert!(t.on_check.is_none());
}

#[test]
fn parse_template_with_front_matter() {
    let t = parse_template(
        "---\nparameter:\n  instruction: string, required\n  return: bool\n  mode: string, default=\"fast\"\n---\nBODY {{ instruction }}\n",
    );
    assert_eq!(t.body, "BODY {{ instruction }}\n");
    assert_eq!(t.params.len(), 3);
    assert_eq!(t.params[1].kind, ParamKind::IntrinsicBool);
    assert_eq!(t.params[2].default, Some(Value::Str("fast".into())));
    assert!(!t.params[2].required);
}

#[test]
fn front_matter_skips_unknown_types_and_keeps_last_default() {
    let (params, on_check) =
        parse_front_matter("a: float\nb: list, default=true, default=false, required\n");
    assert_eq!(params.len(), 1);
    assert_eq!(params[0].name, "b");
    assert_eq!(params[0].kind, ParamKind::List);
    assert!(params[0].required);
    assert_eq!(params[0].default, Some(Value::Bool(false)));
    assert!(on_check.is_none());
}

#[test]
fn fallback_templates_cover_the_builtin_nodes() {
    for name in ["task", "ask", "command", "collect", "print", "judge"] {
        assert!(fallback_template(name).is_some(), "{name}");
    }
    assert!(fallback_template("custom").is_none());
    let cmd = fallback_template("command").unwrap();
    let ret = cmd.return_spec().unwrap();
    assert_eq!(ret.kind, ParamKind::String);
    assert!(ret.required);
    assert_eq!(ret.default, Some(Value::Str("output".into())));
}

#[test]
fn resolution_prefers_workflow_dir_then_default_then_builtin() {
    let mut s = store();
    assert_eq!(resolve_template("ask", &s).body, ASK_BODY);
    assert_eq!(resolve_template("custom", &s).body, TASK_BODY);
    s.add("default", "ask", "DEFAULT ASK").unwrap();
    assert_eq!(resolve_template("ask", &s).body, "DEFAULT ASK");
    s.add("bugfix", "ask", "BUGFIX ASK").unwrap();
    let meta = WorkflowMeta { template_dir: Some("bugfix".into()), context: None };
    assert_eq!(resolve_template_with_meta("ask", &meta, &s).body, "BUGFIX ASK");
    let default_meta = WorkflowMeta { template_dir: Some("default".into()), context: None };
    assert_eq!(resolve_template_with_meta("ask", &default_meta, &s).body, "DEFAULT ASK");
    // a directory without that node falls back
    let other = WorkflowMeta { template_dir: Some("other".into()), context: None };
    assert_eq!(resolve_template_with_meta("task", &other, &s).body, TASK_BODY);
}

#[test]
fn store_rejects_a_body_that_does_not_parse() {
    let mut s = store();
    assert_eq!(s.add("default", "task", "{{ broken").unwrap_err(), TemplateError::UnterminatedExpr);
    assert_eq!(resolve_template("task", &s).body, TASK_BODY);
}

#[test]
fn return_bool_is_the_intrinsic_boolean() {
    let (params, _) = parse_front_matter("return: bool\nflag: bool\n");
    assert_eq!(
        params,
        vec![
            ParamSpec { name: "return".into(), kind: ParamKind::IntrinsicBool, required: false, default: None },
            ParamSpec { name: "flag".into(), kind: ParamKind::Bool, required: false, default: None },
        ]
    );
}
