use steer::parser::parse;
use steer::render::TemplateStore;
use steer::validate::{validate, Diagnostic, Severity};

fn diags(src: &str) -> Vec<Diagnostic> {
    let m = parse(src).expect("should parse");
    let store = TemplateStore::new().expect("built-in templates parse");
    validate(&m, &store)
}

fn assert_valid(src: &str) {
    let d = diags(src);
    assert!(d.is_empty(), "expected no diagnostics, got: {d:?}");
}

fn assert_one_diagnostic(src: &str, needle: &str) {
    let d = diags(src);
    assert_eq!(d.len(), 1, "expected exactly one diagnostic, got: {d:?}");
    assert!(
        d[0].message.contains(needle),
        "diagnostic `{}` does not mention `{needle}`",
        d[0].message
    );
}

#[test]
fn valid_simple_workflow() {
    assert_valid("task(\"do something\")\n");
    assert_valid("x = task(\"do\", return=\"path\")\n");
    assert_valid("print(\"hi\")\n");
}

#[test]
fn value_task_assigned_without_return_is_error() {
    assert_one_diagnostic("x = task(\"do\")\n", "return=");
    assert_one_diagnostic("y = ask(\"q\")\n", "return=");
    assert_one_diagnostic("z = command(\"ls\")\n", "return=");
    assert_one_diagnostic("w = collect(\"think\")\n", "return=");
}

#[test]
fn value_task_assigned_with_return_is_ok() {
    assert_valid("x = task(\"do\", return=\"path\")\n");
    assert_valid("y = command(\"ls\", return=\"list\")\n");
}

#[test]
fn judge_assigned_without_return_is_ok() {
    assert_valid("passed = judge(\"is it done?\")\n");
    assert_valid("flag = judge(\"ready?\")\n");
}

#[test]
fn reserved_binding_names_are_rejected() {
    assert_one_diagnostic("checked = 1\n", "reserved name");
    assert_one_diagnostic("__x = 1\n", "reserved name");
    assert_one_diagnostic("for __i in xs\n  print(__i)\nend\n", "reserved name");
    assert_one_diagnostic("func f(__p)\n  print(__p)\nend\n", "reserved name");
}

#[test]
fn bare_task_without_return_is_ok() {
    assert_valid("task(\"do something\")\n");
    assert_valid("task(\"do\", check=\"ok\")\n");
}

#[test]
fn print_cannot_be_assigned() {
    assert_one_diagnostic("x = print(\"hi\")\n", "no value");
}

#[test]
fn return_of_value_task_needs_return_arg() {
    assert_one_diagnostic("func f()\n  return task(\"x\")\nend\n", "return=");
    assert_valid("func f()\n  return task(\"x\", return=\"p\")\nend\n");
}

#[test]
fn user_func_assigned_is_ok_without_return_arg() {
    assert_valid("func helper()\n  return task(\"x\", return=\"p\")\nend\nr = helper()\n");
}

#[test]
fn produce_must_be_list() {
    assert_one_diagnostic("task(\"x\", produce=\"not a list\")\n", "must be a list");
    assert_valid("task(\"x\", produce=[\"a\", \"b\"])\n");
}

#[test]
fn check_must_be_string() {
    assert_one_diagnostic("task(\"x\", check=42)\n", "must be a string");
    assert_valid("task(\"x\", check=\"ok\")\n");
}

#[test]
fn return_arg_must_be_string() {
    assert_one_diagnostic("x = task(\"d\", return=42)\n", "must be a string");
}

#[test]
fn duplicate_named_argument() {
    assert_one_diagnostic("task(\"x\", return=\"a\", return=\"b\")\n", "duplicate argument");
}

#[test]
fn duplicate_function() {
    assert_one_diagnostic(
        "func f()\n  print(\"a\")\nend\nfunc f()\n  print(\"b\")\nend\n",
        "duplicate function",
    );
}

#[test]
fn duplicate_parameter() {
    assert_one_diagnostic("func f(a, a)\n  print(a)\nend\n", "duplicate parameter");
}

#[test]
fn nested_blocks_are_checked() {
    assert_one_diagnostic("for f in files\n  x = task(\"do\")\nend\n", "return=");
}

#[test]
fn multiple_diagnostics_reported() {
    let d = diags("x = task(\"a\")\ny = print(\"b\")\n");
    assert_eq!(d.len(), 2);
}

#[test]
fn root_cause_bugfix_workflow_is_valid() {
    let src = r#"
func analyze(bug)
    existing = command("test -f root-{bug}.md", return="yes or no")
    if existing == "yes"
        return "root-{bug}.md"
    end
    task("analyze root cause", return="path", produce=["root-{bug}.md"],
         check="contains root")
    return "root-{bug}.md"
end

rc = analyze("login-500")
print("root at {rc}")
"#;
    assert_valid(src);
}

// ---- further cases ----

#[test]
fn nested_function_is_rejected() {
    assert_one_diagnostic("if x\n  func f()\n    print(\"a\")\n  end\nend\n", "top level");
}

#[test]
fn missing_instruction_and_required_arguments_are_reported() {
    let m = parse("ask(return=\"x\")\nreview(\"q\")\n").unwrap();
    let mut store = TemplateStore::new().unwrap();
    store
        .add("default", "review", "---\ninstruction: string, required\nmode: string, required\n---\n{{ mode }}")
        .unwrap();
    let d = validate(&m, &store);
    let messages: Vec<&str> = d.iter().map(|d| d.message.as_str()).collect();
    assert_eq!(
        messages,
        vec!["`ask` requires an instruction argument", "`review` requires a `mode` argument"]
    );
}

#[test]
fn diagnostics_are_errors_with_spans() {
    let d = diags("x = print(\"hi\")\n");
    assert_eq!(d[0].severity, Severity::Error);
    assert_eq!(d[0].message, "`print` produces no value and cannot be assigned or returned");
    assert_eq!(d[0].span.start, 4);
    assert_eq!(d[0].span.end, 15);
}

#[test]
fn calls_inside_expressions_are_checked() {
    assert_one_diagnostic("x = [task(\"a\", check=1)]\n", "must be a string");
}

#[test]
fn bare_value_node_without_return_is_reported() {
    assert_one_diagnostic("ask(\"q\")\n", "requires a `return` argument");
    assert_one_diagnostic("command(\"ls\")\n", "requires a `return` argument");
    assert_one_diagnostic("collect(\"think\")\n", "requires a `return` argument");
    assert_one_diagnostic("print(ask(\"q\"))\n", "requires a `return` argument");
    assert_valid("task(\"do\")\n");
}
