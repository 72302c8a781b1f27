use steer::ir::{lower, Instr};
use steer::parser::parse;

fn ir(src: &str) -> Vec<Instr> {
    let m = parse(src).expect("parses");
    lower(m)
}

fn kinds(ir: &[Instr]) -> Vec<&'static str> {
    ir.iter()
        .map(|i| match i {
            Instr::AgentOp { .. } => "agent",
            Instr::SetMeta { .. } => "meta",
            Instr::Assign { .. } => "assign",
            Instr::JumpIfFalse { .. } => "jif",
            Instr::Jump { .. } => "j",
            Instr::ForInit { .. } => "forinit",
            Instr::ForIter { .. } => "foriter",
            Instr::Call { .. } => "call",
            Instr::Return { .. } => "ret",
            Instr::Halt => "halt",
        })
        .collect()
}

#[test]
fn bare_task_then_halt() {
    assert_eq!(kinds(&ir("task(\"do\")\n")), vec!["agent", "halt"]);
}

#[test]
fn meta_lowers_to_set_meta() {
    assert_eq!(kinds(&ir("@template = \"bugfix\"\ntask(\"do\")\n")), vec!["meta", "agent", "halt"]);
}

#[test]
fn assign_literal() {
    assert_eq!(kinds(&ir("x = 5\n")), vec!["assign", "halt"]);
}

#[test]
fn value_task_assigned_is_agent_op_with_target() {
    let code = ir("x = command(\"ls\", return=\"list\")\n");
    assert!(matches!(code[0], Instr::AgentOp { into: Some(_), .. }));
}

#[test]
fn if_else_lowers_to_jif_jump() {
    let code = ir("if x\n  print(\"a\")\nelse\n  print(\"b\")\nend\n");
    assert_eq!(kinds(&code), vec!["jif", "agent", "j", "agent", "halt"]);
    if let Instr::JumpIfFalse { target, .. } = &code[0] {
        assert_eq!(*target, 3);
    }
    if let Instr::Jump { target } = &code[2] {
        assert_eq!(*target, 4);
    }
}

#[test]
fn ir_if_without_else() {
    let code = ir("if x\n  print(\"a\")\nend\n");
    assert_eq!(kinds(&code), vec!["jif", "agent", "halt"]);
    if let Instr::JumpIfFalse { target, .. } = &code[0] {
        assert_eq!(*target, 2);
    }
}

#[test]
fn elseif_lowers_to_branch_chain() {
    let code = ir("if a\n  print(\"1\")\nelseif b\n  print(\"2\")\nelse\n  print(\"3\")\nend\n");
    assert_eq!(kinds(&code), vec!["jif", "agent", "j", "jif", "agent", "j", "agent", "halt"]);
    match &code[0] {
        Instr::JumpIfFalse { target, .. } => assert_eq!(*target, 3),
        _ => panic!("expected jif at 0"),
    }
    match &code[3] {
        Instr::JumpIfFalse { target, .. } => assert_eq!(*target, 6),
        _ => panic!("expected jif at 3"),
    }
    assert!(matches!(&code[2], Instr::Jump { target: 7 }));
    assert!(matches!(&code[5], Instr::Jump { target: 7 }));
}

#[test]
fn loop_until_back_edge() {
    let code = ir("loop\n  x = 1\nuntil x > 5\n");
    assert_eq!(kinds(&code), vec!["assign", "jif", "halt"]);
    if let Instr::JumpIfFalse { target, .. } = &code[1] {
        assert_eq!(*target, 0);
    }
}

#[test]
fn for_in_loop() {
    let code = ir("for f in items\n  print(f)\nend\n");
    assert_eq!(kinds(&code), vec!["forinit", "foriter", "agent", "j", "halt"]);
    if let Instr::ForIter { end, .. } = &code[1] {
        assert_eq!(*end, 4);
    }
}

#[test]
fn function_call_resolves_entry_after_halt() {
    let code = ir("func f()\n  print(\"in f\")\nend\nf()\n");
    assert_eq!(kinds(&code), vec!["call", "halt", "agent", "ret"]);
    if let Instr::Call { entry, .. } = &code[0] {
        assert_eq!(*entry, 2);
    }
}

#[test]
fn function_with_return_value_into_target() {
    let code = ir("func g()\n  return \"x\"\nend\nr = g()\n");
    assert_eq!(kinds(&code), vec!["call", "halt", "ret"]);
    if let Instr::Call { into, .. } = &code[0] {
        assert_eq!(into.as_deref(), Some("r"));
    }
}

#[test]
fn example_bugfix_loop_lowers_without_panic() {
    let src = r#"
bug = ask("Which bug?", return="bug id")
root_cause = collect("Reproduce {bug}", return="root cause", check="confirm summary")
files = command("git diff --name-only", return="files")
attempt = 0
passed = false
loop
    attempt = attempt + 1
    task("Fix {bug} attempt {attempt}", check="verify fix")
    passed = judge("Did the fix work?")
until passed or attempt >= 3
if not passed
    task("Write handoff", produce=["handoff.md"], check="confirm handoff")
    return
end
for f in files
    task("Review {f}", check="confirm {f} is clean")
end
print("done")
"#;
    let code = ir(src);
    assert!(code.len() > 10);
    assert!(code.iter().any(|i| matches!(i, Instr::Halt)));
    assert!(code.iter().any(|i| matches!(i, Instr::Return { .. })));
}

#[test]
fn empty_module_is_just_halt() {
    assert_eq!(kinds(&ir("// nothing\n")), vec!["halt"]);
}

// ---- further cases ----

#[test]
fn every_jump_target_lies_within_the_program() {
    let code = ir("for f in xs\n  if f\n    print(f)\n  elseif g\n    print(g)\n  end\nend\nfunc h()\nend\nh()\n");
    let n = code.len() as u32;
    for i in &code {
        match i {
            Instr::JumpIfFalse { target, .. } | Instr::Jump { target } => assert!(*target <= n),
            Instr::ForIter { end, .. } => assert!(*end <= n),
            Instr::Call { entry, .. } => assert!(*entry <= n),
            _ => {}
        }
    }
}

#[test]
fn returned_call_goes_through_a_temporary() {
    let code = ir("func f()\n  return ask(\"q\", return=\"x\")\nend\n");
    assert_eq!(kinds(&code), vec!["halt", "agent", "ret"]);
    assert!(matches!(&code[1], Instr::AgentOp { into: Some(t), .. } if t == "__ret"));
}

#[test]
fn loops_get_distinct_hidden_slots() {
    let code = ir("for a in xs\n  print(a)\nend\nfor b in ys\n  print(b)\nend\n");
    let slots: Vec<&str> = code
        .iter()
        .filter_map(|i| match i {
            Instr::ForInit { iter, .. } => Some(iter.as_str()),
            _ => None,
        })
        .collect();
    assert_eq!(slots, vec!["__for_1", "__for_2"]);
}
