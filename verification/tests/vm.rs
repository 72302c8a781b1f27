use steer::ast::CallArg;
use steer::context::{Context, Status};
use steer::ir::{lower, Instr};
use steer::parser::parse;
use steer::render::TemplateStore;
use steer::value::Value;
use steer::vm::{check, report_error, set_value, step, validate_set_value, CheckOutcome, StepOutcome};

fn ir(src: &str) -> Vec<Instr> {
    lower(parse(src).expect("parses"))
}

fn store() -> TemplateStore {
    TemplateStore::new().expect("built-in templates parse")
}

fn obj(pairs: Vec<(&str, Value)>) -> Value {
    Value::Object(pairs.into_iter().map(|(k, v)| (k.to_string(), v)).collect())
}

#[test]
fn step_stops_at_first_agent_op() {
    let ir = ir("print(\"hi\")\n");
    let s = store();
    let mut ctx = Context::new();
    assert!(matches!(step(&ir, &mut ctx, "<name>", &s), StepOutcome::Instruction(t) if t.contains("hi")));
    assert_eq!(ctx.pc, 0);
}

#[test]
fn check_auto_advances_past_print() {
    let ir = ir("print(\"a\")\nprint(\"b\")\n");
    let s = store();
    let mut ctx = Context::new();
    step(&ir, &mut ctx, "<name>", &s);
    assert_eq!(check(&ir, &mut ctx, "<name>", &s), CheckOutcome::Advanced);
    assert!(matches!(step(&ir, &mut ctx, "<name>", &s), StepOutcome::Instruction(t) if t.contains("b")));
    check(&ir, &mut ctx, "<name>", &s);
    assert_eq!(step(&ir, &mut ctx, "<name>", &s), StepOutcome::Complete);
}

#[test]
fn assignment_runs_before_step_pausing() {
    let ir = ir("x = 5\nprint(x)\n");
    let s = store();
    let mut ctx = Context::new();
    match step(&ir, &mut ctx, "<name>", &s) {
        StepOutcome::Instruction(t) => assert!(t.contains("5"), "got: {t}"),
        o => panic!("unexpected {o:?}"),
    }
}

#[test]
fn value_op_check_pending_until_set() {
    let ir = ir("x = ask(\"q\", return=\"str\")\n");
    let s = store();
    let mut ctx = Context::new();
    step(&ir, &mut ctx, "<name>", &s);
    assert_eq!(check(&ir, &mut ctx, "<name>", &s), CheckOutcome::Pending);
    set_value(&mut ctx, "x", Value::Str("answer".into())).unwrap();
    assert_eq!(check(&ir, &mut ctx, "<name>", &s), CheckOutcome::Advanced);
    assert_eq!(step(&ir, &mut ctx, "<name>", &s), StepOutcome::Complete);
}

#[test]
fn bool_return_accepts_boolean_at_set() {
    let ir = ir("covered = judge(\"is it covered?\")\n");
    let s = store();
    let mut ctx = Context::new();
    step(&ir, &mut ctx, "<name>", &s);
    for v in [Value::Bool(true), Value::Bool(false)] {
        assert!(validate_set_value(&ir, &ctx, "covered", &v, &s).is_ok(), "bool value should be accepted");
    }
}

#[test]
fn bool_return_rejects_non_boolean_at_set() {
    let ir = ir("covered = judge(\"is it covered?\")\n");
    let s = store();
    let mut ctx = Context::new();
    step(&ir, &mut ctx, "<name>", &s);
    let verdict = obj(vec![
        ("verdict", Value::Str("COVERED".into())),
        ("prior_gap", Value::Int(354)),
    ]);
    let err = validate_set_value(&ir, &ctx, "covered", &verdict, &s).unwrap_err();
    assert!(err.contains("boolean"), "reason: {err}");
    assert!(!ctx.vars.contains_key("covered"));
}

#[test]
fn string_return_accepts_string_at_set() {
    let ir = ir("x = ask(\"q\", return=\"str\")\n");
    let s = store();
    let mut ctx = Context::new();
    step(&ir, &mut ctx, "<name>", &s);
    assert!(validate_set_value(&ir, &ctx, "x", &Value::Str("answer".into()), &s).is_ok());
}

#[test]
fn string_return_rejects_non_string_at_set() {
    let ir = ir("bug_slug = ask(\"q\", return=\"bug slug in kebab-case\")\n");
    let s = store();
    let mut ctx = Context::new();
    step(&ir, &mut ctx, "<name>", &s);
    let err = validate_set_value(&ir, &ctx, "bug_slug", &Value::Bool(false), &s).unwrap_err();
    assert!(err.contains("string") && err.contains("return:string"), "reason: {err}");
    assert!(!ctx.vars.contains_key("bug_slug"));
}

#[test]
fn string_return_rejects_object_at_set() {
    let ir = ir("x = ask(\"q\", return=\"str\")\n");
    let s = store();
    let mut ctx = Context::new();
    step(&ir, &mut ctx, "<name>", &s);
    let o = obj(vec![("verdict", Value::Str("COVERED".into()))]);
    let err = validate_set_value(&ir, &ctx, "x", &o, &s).unwrap_err();
    assert!(err.contains("string") && err.contains("return:string"), "reason: {err}");
}

#[test]
fn set_of_non_current_op_var_is_not_type_checked() {
    let ir = ir("x = ask(\"q\", return=\"str\")\n");
    let s = store();
    let mut ctx = Context::new();
    step(&ir, &mut ctx, "<name>", &s);
    assert!(validate_set_value(&ir, &ctx, "other", &Value::Bool(false), &s).is_ok());
    assert!(validate_set_value(&ir, &ctx, "other", &Value::Int(7), &s).is_ok());
}

#[test]
fn unchecked_return_kinds_pass_at_set() {
    let ir = ir("x = mycaller(\"do\")\n");
    let s = store();
    let mut ctx = Context::new();
    step(&ir, &mut ctx, "<name>", &s);
    let o = obj(vec![("k", Value::Str("v".into()))]);
    assert!(validate_set_value(&ir, &ctx, "x", &o, &s).is_ok());
    assert!(validate_set_value(&ir, &ctx, "x", &Value::Bool(false), &s).is_ok());
}

#[test]
fn task_with_check_uses_checked_flag() {
    let ir = ir("task(\"do\", check=\"ok\")\n");
    let s = store();
    let mut ctx = Context::new();
    match step(&ir, &mut ctx, "<name>", &s) {
        StepOutcome::Instruction(t) => assert!(!t.contains("ok"), "got: {t}"),
        o => panic!("unexpected {o:?}"),
    }
    match check(&ir, &mut ctx, "<name>", &s) {
        CheckOutcome::Instruction(t) => {
            assert!(t.contains("ok"), "got: {t}");
            assert!(t.contains("steer instance set <name> checked"), "got: {t}");
        }
        o => panic!("unexpected {o:?}"),
    }
    assert!(set_value(&mut ctx, "checked", Value::Bool(false)).is_err());
    let failed = obj(vec![("passed", Value::Bool(false)), ("reason", Value::Str("tests failed".into()))]);
    set_value(&mut ctx, "checked", failed).unwrap();
    assert_eq!(check(&ir, &mut ctx, "<name>", &s), CheckOutcome::Failed);
    match step(&ir, &mut ctx, "<name>", &s) {
        StepOutcome::Instruction(t) => {
            assert!(t.contains("Previous verification failed (retry #1)"), "got: {t}");
            assert!(t.contains("tests failed"), "got: {t}");
        }
        o => panic!("unexpected {o:?}"),
    }
    set_value(&mut ctx, "checked", Value::Bool(true)).unwrap();
    assert_eq!(check(&ir, &mut ctx, "<name>", &s), CheckOutcome::Advanced);
}

#[test]
fn if_branch_taken_at_runtime() {
    let ir = ir("if 1 > 0\n  print(\"yes\")\nelse\n  print(\"no\")\nend\n");
    let s = store();
    let mut ctx = Context::new();
    match step(&ir, &mut ctx, "<name>", &s) {
        StepOutcome::Instruction(t) => assert!(t.contains("yes"), "got: {t}"),
        o => panic!("unexpected {o:?}"),
    }
}

#[test]
fn elseif_runs_the_first_matching_branch() {
    let ir = ir(
        "x = 2\nif x == 1\n  print(\"one\")\nelseif x == 2\n  print(\"two\")\nelse\n  print(\"other\")\nend\n",
    );
    let s = store();
    let mut ctx = Context::new();
    match step(&ir, &mut ctx, "<name>", &s) {
        StepOutcome::Instruction(t) => assert!(t.contains("two"), "got: {t}"),
        o => panic!("unexpected {o:?}"),
    }
}

#[test]
fn func_call_resolves_return_value() {
    let ir = ir("func g()\n  return \"r\"\nend\nx = g()\nprint(x)\n");
    let s = store();
    let mut ctx = Context::new();
    match step(&ir, &mut ctx, "<name>", &s) {
        StepOutcome::Instruction(t) => assert!(t.contains("r"), "got: {t}"),
        o => panic!("unexpected {o:?}"),
    }
}

#[test]
fn for_loop_iterations() {
    let ir = ir("for f in [\"a\", \"b\"]\n  print(f)\nend\n");
    let s = store();
    let mut ctx = Context::new();
    assert!(matches!(step(&ir, &mut ctx, "<name>", &s), StepOutcome::Instruction(t) if t.contains("a")));
    check(&ir, &mut ctx, "<name>", &s);
    assert!(matches!(step(&ir, &mut ctx, "<name>", &s), StepOutcome::Instruction(t) if t.contains("b")));
    check(&ir, &mut ctx, "<name>", &s);
    assert_eq!(step(&ir, &mut ctx, "<name>", &s), StepOutcome::Complete);
}

#[test]
fn for_loop_check_requires_per_iteration_report() {
    let ir = ir("for f in [\"a\", \"b\"]\n  task(\"fix {f}\", check=\"confirm {f}\")\nend\n");
    let s = store();
    let mut ctx = Context::new();
    assert!(matches!(step(&ir, &mut ctx, "<name>", &s), StepOutcome::Instruction(t) if t.contains("fix a")));
    assert!(matches!(check(&ir, &mut ctx, "<name>", &s), CheckOutcome::Instruction(_)));
    set_value(&mut ctx, "checked", Value::Bool(true)).unwrap();
    assert_eq!(check(&ir, &mut ctx, "<name>", &s), CheckOutcome::Advanced);
    assert!(matches!(step(&ir, &mut ctx, "<name>", &s), StepOutcome::Instruction(t) if t.contains("fix b")));
    assert!(
        matches!(check(&ir, &mut ctx, "<name>", &s), CheckOutcome::Instruction(_)),
        "second iteration must require a fresh report"
    );
    set_value(&mut ctx, "checked", Value::Bool(true)).unwrap();
    assert_eq!(check(&ir, &mut ctx, "<name>", &s), CheckOutcome::Advanced);
    assert_eq!(step(&ir, &mut ctx, "<name>", &s), StepOutcome::Complete);
}

#[test]
fn loop_until_check_requires_per_iteration_report() {
    let ir = ir("i = 0\nloop\n  i = i + 1\n  task(\"step {i}\", check=\"ok\")\nuntil i >= 2\n");
    let s = store();
    let mut ctx = Context::new();
    assert!(matches!(step(&ir, &mut ctx, "<name>", &s), StepOutcome::Instruction(t) if t.contains("step 1")));
    set_value(&mut ctx, "checked", Value::Bool(true)).unwrap();
    assert_eq!(check(&ir, &mut ctx, "<name>", &s), CheckOutcome::Advanced);
    assert!(matches!(step(&ir, &mut ctx, "<name>", &s), StepOutcome::Instruction(t) if t.contains("step 2")));
    assert!(
        matches!(check(&ir, &mut ctx, "<name>", &s), CheckOutcome::Instruction(_)),
        "second iteration must require a fresh report"
    );
    set_value(&mut ctx, "checked", Value::Bool(true)).unwrap();
    assert_eq!(check(&ir, &mut ctx, "<name>", &s), CheckOutcome::Advanced);
    assert_eq!(step(&ir, &mut ctx, "<name>", &s), StepOutcome::Complete);
}

#[test]
fn passing_check_consumes_report_single_iteration() {
    let ir = ir("task(\"do\", check=\"ok\")\n");
    let s = store();
    let mut ctx = Context::new();
    step(&ir, &mut ctx, "<name>", &s);
    set_value(&mut ctx, "checked", Value::Bool(true)).unwrap();
    assert_eq!(check(&ir, &mut ctx, "<name>", &s), CheckOutcome::Advanced);
    assert!(ctx.steps.get(&0).map_or(true, |st| st.checked.is_none()));
    assert_eq!(check(&ir, &mut ctx, "<name>", &s), CheckOutcome::Done);
}

#[test]
fn failed_then_pass_within_iteration_consumes_report() {
    let ir = ir("for f in [\"a\", \"b\"]\n  task(\"fix {f}\", check=\"confirm {f}\")\nend\n");
    let s = store();
    let mut ctx = Context::new();
    assert!(matches!(step(&ir, &mut ctx, "<name>", &s), StepOutcome::Instruction(_)));
    let failed = obj(vec![("passed", Value::Bool(false)), ("reason", Value::Str("nope".into()))]);
    set_value(&mut ctx, "checked", failed).unwrap();
    assert_eq!(check(&ir, &mut ctx, "<name>", &s), CheckOutcome::Failed);
    assert!(matches!(step(&ir, &mut ctx, "<name>", &s), StepOutcome::Instruction(t) if t.contains("nope")));
    set_value(&mut ctx, "checked", Value::Bool(true)).unwrap();
    assert_eq!(check(&ir, &mut ctx, "<name>", &s), CheckOutcome::Advanced);
    assert!(matches!(step(&ir, &mut ctx, "<name>", &s), StepOutcome::Instruction(_)));
    assert!(
        matches!(check(&ir, &mut ctx, "<name>", &s), CheckOutcome::Instruction(_)),
        "second iteration must require a fresh report after a failed-then-pass"
    );
}

#[test]
fn report_error_halts() {
    let ir = ir("print(\"a\")\n");
    let s = store();
    let mut ctx = Context::new();
    step(&ir, &mut ctx, "<name>", &s);
    report_error(&mut ctx, "boom");
    assert!(!ctx.is_running());
    assert_eq!(step(&ir, &mut ctx, "<name>", &s), StepOutcome::NotRunning);
}

#[test]
fn full_example_bugfix_loop_run_with_mock_agent() {
    let src = r#"
bug = ask("Which bug?", return="bug id")
root_cause = collect("Reproduce {bug}", return="root cause", check="confirm summary")
files = command("git diff --name-only", return="files")
attempt = 0
passed = false
loop
    attempt = attempt + 1
    task("Fix {bug} attempt {attempt}", check="verify fix")
    passed = judge("Did the fix work?")
until passed or attempt >= 3
if not passed
    task("Write handoff", produce=["handoff.md"], check="confirm handoff")
    return
end
for f in files
    task("Review {f}", check="confirm {f} is clean")
end
print("done")
"#;
    let ir = ir(src);
    let s = store();
    let mut ctx = Context::new();
    let mut guard = 0;
    while ctx.is_running() && guard < 100 {
        guard += 1;
        match step(&ir, &mut ctx, "<name>", &s) {
            StepOutcome::Instruction(_) => match check(&ir, &mut ctx, "<name>", &s) {
                CheckOutcome::Pending => {
                    if let Some(Instr::AgentOp { into, call }) = ir.get(ctx.pc as usize) {
                        if into.is_some()
                            && !call.args.iter().any(|a| {
                                matches!(&a.value, CallArg::Named { name, .. } if name == "check")
                            })
                        {
                            set_value(&mut ctx, into.as_ref().unwrap(), Value::Str("v".into())).unwrap();
                        }
                    }
                }
                CheckOutcome::Instruction(_) => {
                    set_value(&mut ctx, "checked", Value::Bool(true)).unwrap();
                }
                CheckOutcome::Failed | CheckOutcome::Advanced | CheckOutcome::Done => {}
                CheckOutcome::NotRunning | CheckOutcome::Error(_) => break,
            },
            StepOutcome::Complete | StepOutcome::NotRunning | StepOutcome::Exhausted => break,
            StepOutcome::Error(e) => panic!("eval error: {}", e.message()),
        }
    }
    assert_eq!(ctx.status, Status::Complete);
}

// ---- further cases ----

#[test]
fn eval_error_halts_with_its_message() {
    let ir = ir("x = missing + 1\nprint(x)\n");
    let s = store();
    let mut ctx = Context::new();
    assert!(matches!(step(&ir, &mut ctx, "<name>", &s), StepOutcome::Error(_)));
    assert_eq!(ctx.status, Status::Halted("variable `missing` is not set".into()));
    assert_eq!(ctx.pc, 0);
}

#[test]
fn checked_reports_are_validated() {
    let mut ctx = Context::new();
    assert_eq!(
        set_value(&mut ctx, "checked", Value::Bool(false)).unwrap_err(),
        "`checked=false` is invalid; use `{\"passed\":false,\"reason\":\"...\"}`"
    );
    assert_eq!(
        set_value(&mut ctx, "checked", obj(vec![("reason", Value::Str("x".into()))])).unwrap_err(),
        "`checked` object must include boolean `passed`"
    );
    assert_eq!(
        set_value(&mut ctx, "checked", obj(vec![("passed", Value::Bool(false))])).unwrap_err(),
        "failed `checked` object must include `reason`"
    );
    assert_eq!(
        set_value(
            &mut ctx,
            "checked",
            obj(vec![("passed", Value::Bool(false)), ("reason", Value::Str("  ".into()))])
        )
        .unwrap_err(),
        "failed `checked` object must include a non-empty `reason`"
    );
    assert_eq!(
        set_value(
            &mut ctx,
            "checked",
            obj(vec![("passed", Value::Bool(true)), ("reason", Value::Int(1))])
        )
        .unwrap_err(),
        "`checked.reason` must be a string"
    );
    assert_eq!(
        set_value(&mut ctx, "checked", Value::Int(1)).unwrap_err(),
        "`checked` must be true or an object with `passed` and `reason`"
    );
    assert!(ctx.steps.is_empty());
}

#[test]
fn failure_without_reason_uses_the_default_reason() {
    let ir = ir("task(\"do\", check=\"ok\")\n");
    let s = store();
    let mut ctx = Context::new();
    step(&ir, &mut ctx, "<name>", &s);
    ctx.steps.insert(
        0,
        steer::context::StepState {
            checked: Some(steer::context::CheckedReport::Bool(false)),
            failure_reason: None,
            retry_count: 0,
        },
    );
    assert_eq!(check(&ir, &mut ctx, "<name>", &s), CheckOutcome::Failed);
    let st = ctx.steps.get(&0).unwrap();
    assert_eq!(st.failure_reason.as_deref(), Some("Verification failed without a reason."));
    assert_eq!(st.retry_count, 1);
}

#[test]
fn meta_directive_switches_the_template_dir() {
    let ir = ir("@template = \"bugfix\"\ntask(\"body\")\n");
    let mut s = store();
    s.add("bugfix", "task", "BUGFIX {{ instruction }}").unwrap();
    let mut ctx = Context::new();
    assert_eq!(step(&ir, &mut ctx, "<name>", &s), StepOutcome::Instruction("BUGFIX body".into()));
    assert_eq!(ctx.meta.template_dir.as_deref(), Some("bugfix"));
}

#[test]
fn endless_control_loop_is_not_an_agent_pause() {
    // Not run to exhaustion here: a program with an agent op inside the loop
    // pauses at once.
    let ir = ir("loop\n  print(\"x\")\nuntil false\n");
    let s = store();
    let mut ctx = Context::new();
    assert!(matches!(step(&ir, &mut ctx, "<name>", &s), StepOutcome::Instruction(_)));
}

#[test]
fn stepping_again_renders_the_same_instruction() {
    let ir = ir("x = 1\nx = x + 1\ntask(\"do {x}\")\n");
    let s = store();
    let mut ctx = Context::new();
    let first = step(&ir, &mut ctx, "<name>", &s);
    let pc = ctx.pc;
    let second = step(&ir, &mut ctx, "<name>", &s);
    assert_eq!(first, second);
    assert_eq!(ctx.pc, pc);
    assert!(matches!(first, StepOutcome::Instruction(t) if t.contains("do 2")));
}

#[test]
fn a_halted_instance_neither_steps_nor_checks() {
    let ir = ir("print(\"a\")\n");
    let s = store();
    let mut ctx = Context::new();
    report_error(&mut ctx, "stop");
    assert_eq!(check(&ir, &mut ctx, "<name>", &s), CheckOutcome::NotRunning);
    assert_eq!(step(&ir, &mut ctx, "<name>", &s), StepOutcome::NotRunning);
    assert_eq!(ctx.status, Status::Halted("stop".to_string()));
}

#[test]
fn falling_off_a_function_after_an_if_returns_to_the_caller() {
    let ir = ir("func f()\n  if 1 > 2\n    return\n  end\nend\nf()\nprint(\"after\")\n");
    let s = store();
    let mut ctx = Context::new();
    assert!(matches!(step(&ir, &mut ctx, "<name>", &s), StepOutcome::Instruction(t) if t.contains("after")));
}
