use steer::parser::parse;
use steer::render::TemplateStore;
use steer::simulate::{simulate, SimStep};

fn simulate_src(src: &str) -> Vec<SimStep> {
    let m = parse(src).expect("parses");
    let store = TemplateStore::new().expect("built-in templates parse");
    simulate(&m, &store)
}

fn callees(steps: &[SimStep]) -> Vec<&str> {
    steps.iter().map(|s| s.callee.as_str()).collect()
}

#[test]
fn renders_single_task() {
    let steps = simulate_src("task(\"do something\")\n");
    assert_eq!(steps.len(), 1);
    assert_eq!(steps[0].callee, "task");
    assert!(steps[0].instruction.contains("do something"));
}

#[test]
fn renders_in_source_order() {
    let steps = simulate_src("task(\"a\")\nprint(\"b\")\nask(\"c\", return=\"x\")\n");
    assert_eq!(callees(&steps), vec!["task", "print", "ask"]);
}

#[test]
fn assignment_call_simulates_set_prompt_with_target() {
    let steps = simulate_src("answer = ask(\"q\", return=\"str\")\n");
    assert_eq!(steps.len(), 1);
    assert!(steps[0].instruction.contains("steer instance set") && steps[0].instruction.contains("answer"));
}

#[test]
fn skips_user_function_calls_but_renders_their_bodies() {
    let src = "func analyze()\n  task(\"inside func\")\nend\nrc = analyze()\n";
    let steps = simulate_src(src);
    assert_eq!(callees(&steps), vec!["task"]);
    assert!(steps[0].instruction.contains("inside func"));
}

#[test]
fn renders_both_if_branches() {
    let src = "if x\n  task(\"then\")\nelse\n  task(\"else\")\nend\n";
    let steps = simulate_src(src);
    assert_eq!(steps.len(), 2);
}

#[test]
fn loop_body_shown_once() {
    let src = "for f in files\n  task(\"fix {f}\")\nend\n";
    let steps = simulate_src(src);
    assert_eq!(steps.len(), 1);
    assert!(steps[0].instruction.contains("fix {f}"));
}

#[test]
fn judge_node_is_rendered() {
    let steps = simulate_src("passed = judge(\"ok?\")\n");
    assert_eq!(steps.len(), 1);
    assert_eq!(steps[0].callee, "judge");
    assert!(steps[0].instruction.contains("ok?"));
    assert!(steps[0].instruction.contains("true"));
}

#[test]
fn iterable_call_is_rendered() {
    let src = "for f in command(\"ls\", return=\"list\")\n  print(f)\nend\n";
    let steps = simulate_src(src);
    assert_eq!(callees(&steps), vec!["command", "print"]);
}

#[test]
fn empty_workflow_yields_nothing() {
    assert!(simulate_src("// just a comment\n").is_empty());
}

#[test]
fn example_bugfix_loop_workflow_steps() {
    let src = r#"
bug = ask("Which bug?", return="bug id")
root_cause = collect("Reproduce {bug}", return="root cause", check="confirm summary")
files = command("git diff --name-only", return="files")
attempt = 0
passed = false
loop
    attempt = attempt + 1
    task("Fix {bug} attempt {attempt}", check="verify fix")
    passed = judge("Did the fix work?")
until passed or attempt >= 3
if not passed
    task("Write handoff", produce=["handoff.md"], check="confirm handoff")
    return
end
for f in files
    task("Review {f}", check="confirm {f} is clean")
end
print("done")
"#;
    let steps = simulate_src(src);
    assert_eq!(
        callees(&steps),
        vec!["ask", "collect", "command", "task", "judge", "task", "task", "print"]
    );
}

// ---- further cases ----

#[test]
fn template_directive_applies_to_later_calls_only() {
    let m = parse("task(\"one\")\n@template = \"bugfix\"\ntask(\"two\")\n").unwrap();
    let mut store = TemplateStore::new().unwrap();
    store.add("bugfix", "task", "B {{ instruction }}").unwrap();
    let steps = simulate(&m, &store);
    assert!(steps[0].instruction.starts_with("one"));
    assert_eq!(steps[1].instruction, "B two");
}

#[test]
fn calls_nested_in_arguments_of_a_value_are_rendered_after_their_caller() {
    let steps = simulate_src("x = task(\"outer\", produce=[ask(\"inner\", return=\"x\")])\n");
    assert_eq!(callees(&steps), vec!["task", "ask"]);
    // a call statement renders only itself
    let steps = simulate_src("task(\"outer\", produce=[ask(\"inner\", return=\"x\")])\n");
    assert_eq!(callees(&steps), vec!["task"]);
}
