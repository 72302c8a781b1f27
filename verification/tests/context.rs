use steer::context::{CheckedReport, Context, Status, WorkflowMeta};
use steer::parser::parse;
use steer::render::{
    extract_meta, render_check_report, render_retry_context, render_start_output, render_status_output,
    workflow_description,
};
use steer::value::Value;

#[test]
fn new_context_starts_running_at_zero() {
    let c = Context::new();
    assert_eq!(c.pc, 0);
    assert!(c.is_running());
    assert!(c.vars.is_empty());
}

// ---- further cases ----

#[test]
fn checked_report_accessors() {
    assert!(CheckedReport::Bool(true).passed());
    assert_eq!(CheckedReport::Bool(true).failure_reason(), None);
    let r = CheckedReport::Object { passed: false, reason: Some("why".into()) };
    assert!(!r.passed());
    assert_eq!(r.failure_reason(), Some("why"));
}

#[test]
fn halted_context_is_not_running() {
    let mut c = Context::new();
    c.status = Status::Halted("x".into());
    assert!(!c.is_running());
}

#[test]
fn meta_apply_sets_and_unsets() {
    let mut m = WorkflowMeta::default();
    m.apply("template", &Value::Str("bugfix".into()));
    assert_eq!(m.template_dir.as_deref(), Some("bugfix"));
    m.apply("template", &Value::Str(String::new()));
    assert_eq!(m.template_dir, None);
    m.apply("other", &Value::Str("x".into()));
    assert_eq!(m, WorkflowMeta::default());
}

#[test]
fn extract_meta_reads_top_level_directives() {
    let m = parse("@template = \"bugfix\"\n@context = \"root-cause analysis\"\ntask(\"x\")\n").unwrap();
    let meta = extract_meta(&m);
    assert_eq!(meta.template_dir.as_deref(), Some("bugfix"));
    assert_eq!(meta.context.as_deref(), Some("root-cause analysis"));
}

#[test]
fn workflow_description_reads_the_directive() {
    let m = parse("@description = \"Fix a bug\"\ntask(\"x\")\n").unwrap();
    assert_eq!(workflow_description(&m).as_deref(), Some("Fix a bug"));
    let m = parse("task(\"x\")\n").unwrap();
    assert_eq!(workflow_description(&m), None);
}

#[test]
fn output_texts() {
    assert!(render_check_report("run1").contains("steer instance set run1 checked"));
    assert_eq!(
        render_retry_context("tests failed", 2),
        "Previous verification failed (retry #2): tests failed\nAddress this failure before reporting the check again."
    );
    let start = render_start_output("run1", Some("This workflow fixes bugs."));
    assert!(start.contains("started") && start.contains("This workflow fixes bugs."));
    assert_eq!(render_start_output("run1", None), "instance `run1` started");
    assert_eq!(render_status_output("run1", "running", None), "run1: running");
}

#[test]
fn instance_names_hold_no_path() {
    assert!(steer::context::valid_instance_name("run-1"));
    assert!(steer::context::valid_instance_name("a.b"));
    assert!(!steer::context::valid_instance_name(""));
    assert!(!steer::context::valid_instance_name("."));
    assert!(!steer::context::valid_instance_name(".."));
    assert!(!steer::context::valid_instance_name("a/b"));
    assert!(!steer::context::valid_instance_name("a\\b"));
    assert!(!steer::context::valid_instance_name("a\0b"));
}
