use steer::ast::{BinaryOp, CallArg, Expr, Module, Stmt, StringPart, UnaryOp};
use steer::parser::{parse, ParseErrorKind};
use steer::lexer::Token;
use steer::source::{Span, Spanned};

fn parse_ok(src: &str) -> Module {
    parse(src).unwrap_or_else(|e| panic!("failed to parse {src:?}: {}", e.message()))
}

fn first_stmt(m: &Module) -> &Spanned<Stmt> {
    m.body.first().expect("at least one statement")
}

#[test]
fn parser_assignment_int() {
    let m = parse_ok("x = 5\n");
    match &first_stmt(&m).value {
        Stmt::Assign { target, value } => {
            assert_eq!(target, "x");
            assert_eq!(value.value, Expr::Int(5));
        }
        other => panic!("unexpected stmt {other:?}"),
    }
}

#[test]
fn assignment_string_interpolation() {
    let m = parse_ok("s = \"a {y} b\"\n");
    let Stmt::Assign { value, .. } = &first_stmt(&m).value else { panic!() };
    let Expr::String(parts) = &value.value else { panic!() };
    assert_eq!(parts.len(), 3);
    assert!(matches!(&parts[0], StringPart::Literal(s) if s == "a "));
    match &parts[1] {
        StringPart::Interpolation(e) => assert_eq!(e.value, Expr::Var("y".into())),
        StringPart::Literal(_) => panic!("expected an interpolation segment"),
    }
    assert!(matches!(&parts[2], StringPart::Literal(s) if s == " b"));
}

#[test]
fn call_with_named_args() {
    let m = parse_ok("task(\"do it\", return=\"path\", check=\"ok\", produce=[\"a\"])\n");
    let Stmt::Call(call) = &first_stmt(&m).value else { panic!() };
    assert_eq!(call.callee, "task");
    assert_eq!(call.args.len(), 4);
    assert!(matches!(call.args[0].value, CallArg::Positional(_)));
    let names: Vec<Option<&str>> = call.args.iter().map(|a| a.value.name()).collect();
    assert_eq!(names, vec![None, Some("return"), Some("check"), Some("produce")]);
}

#[test]
fn multiline_call() {
    let m = parse_ok("task(\"a\",\n     return=\"b\")\n");
    let Stmt::Call(call) = &first_stmt(&m).value else { panic!() };
    assert_eq!(call.args.len(), 2);
}

#[test]
fn meta_directive_parses_key() {
    let m = parse_ok("@template = \"bugfix\"\n");
    let Stmt::Meta { key, value } = &first_stmt(&m).value else {
        panic!("expected meta directive")
    };
    assert_eq!(key, "template");
    assert!(matches!(value.value, Expr::String(_)));
}

#[test]
fn bare_non_call_statement_is_rejected() {
    assert!(parse("1 + 2\n").is_err());
    assert!(parse("\"hello\"\n").is_err());
    assert!(parse("x == y\n").is_err());
    assert!(parse("[1, 2, 3]\n").is_err());
}

#[test]
fn operator_keywords_are_not_identifiers() {
    assert!(parse("x = not\n").is_err());
    assert!(parse("not = 5\n").is_err());
    assert!(parse("task(not = 1)\n").is_err());
    assert!(parse("x = a or\n").is_err());
    parse_ok("x = a or b\n");
    parse_ok("x = not a\n");
}

#[test]
fn if_else_end() {
    let m = parse_ok("if x > 3\n  print(\"big\")\nelse\n  print(\"small\")\nend\n");
    let Stmt::If { branches, else_block } = &first_stmt(&m).value else { panic!() };
    assert_eq!(branches.len(), 1);
    assert!(matches!(branches[0].cond.value, Expr::Binary { op: BinaryOp::Gt, .. }));
    assert_eq!(branches[0].body.len(), 1);
    assert!(else_block.is_some());
}

#[test]
fn parser_if_without_else() {
    let m = parse_ok("if x > 3\n  print(\"big\")\nend\n");
    let Stmt::If { branches, else_block } = &first_stmt(&m).value else { panic!() };
    assert_eq!(branches.len(), 1);
    assert!(else_block.is_none());
}

#[test]
fn if_elseif_else_parses_to_branches() {
    let m = parse_ok("if a\n  print(\"1\")\nelseif b\n  print(\"2\")\nelse\n  print(\"3\")\nend\n");
    let Stmt::If { branches, else_block } = &first_stmt(&m).value else { panic!() };
    assert_eq!(branches.len(), 2);
    assert_eq!(branches[0].cond.value, Expr::Var("a".into()));
    assert_eq!(branches[1].cond.value, Expr::Var("b".into()));
    assert!(else_block.is_some());
}

#[test]
fn loop_until() {
    let m = parse_ok("loop\n  x = x + 1\nuntil x > 5\n");
    let Stmt::LoopUntil { body, cond } = &first_stmt(&m).value else { panic!() };
    assert_eq!(body.len(), 1);
    assert!(matches!(cond.value, Expr::Binary { op: BinaryOp::Gt, .. }));
}

#[test]
fn loop_is_post_test_only_no_counted_form() {
    assert!(parse("loop 3\n  print(\"hi\")\nend\n").is_err());
    assert!(parse("repeat\n  print(\"hi\")\nuntil x > 5\n").is_err());
}

#[test]
fn logical_precedence_or_binds_looser_than_and() {
    let m = parse_ok("x = a or b and c\n");
    let Stmt::Assign { value, .. } = &first_stmt(&m).value else { panic!() };
    let Expr::Binary { op: BinaryOp::Or, rhs, .. } = &value.value else {
        panic!("top-level operator must be Or");
    };
    assert!(matches!(&rhs.value, Expr::Binary { op: BinaryOp::And, .. }));
}

#[test]
fn not_binds_looser_than_comparison() {
    let m = parse_ok("x = not a == b\n");
    let Stmt::Assign { value, .. } = &first_stmt(&m).value else { panic!() };
    let Expr::Unary { op: UnaryOp::Not, expr } = &value.value else {
        panic!("top-level must be Not");
    };
    assert!(matches!(&expr.value, Expr::Binary { op: BinaryOp::Eq, .. }));
}

#[test]
fn for_in() {
    let m = parse_ok("for item in list\n  print(item)\nend\n");
    let Stmt::For { var, iterable, body } = &first_stmt(&m).value else { panic!() };
    assert_eq!(var, "item");
    assert_eq!(iterable.value, Expr::Var("list".into()));
    assert_eq!(body.len(), 1);
}

#[test]
fn func_def() {
    let m = parse_ok("func add(a, b)\n  return a + b\nend\n");
    let Stmt::Function { name, params, body } = &first_stmt(&m).value else { panic!() };
    assert_eq!(name, "add");
    assert_eq!(params.clone(), vec!["a".to_string(), "b".to_string()]);
    assert_eq!(body.len(), 1);
    assert!(matches!(body[0].value, Stmt::Return { .. }));
}

#[test]
fn return_bare_and_value() {
    let m = parse_ok("return\n");
    let Stmt::Return { value } = &first_stmt(&m).value else { panic!() };
    assert!(value.is_none());
    let m = parse_ok("return a + b\n");
    let Stmt::Return { value } = &first_stmt(&m).value else { panic!() };
    assert!(value.is_some());
}

#[test]
fn precedence_add_mul() {
    let m = parse_ok("x = 1 + 2 * 3\n");
    let Stmt::Assign { value, .. } = &first_stmt(&m).value else { panic!() };
    let Expr::Binary { op, lhs, rhs } = &value.value else { panic!() };
    assert_eq!(*op, BinaryOp::Add);
    assert_eq!(lhs.value, Expr::Int(1));
    assert!(matches!(rhs.value, Expr::Binary { op: BinaryOp::Mul, .. }));
}

#[test]
fn list_literal() {
    let m = parse_ok("x = [\"a\", \"b\", \"c\"]\n");
    let Stmt::Assign { value, .. } = &first_stmt(&m).value else { panic!() };
    let Expr::List(elems) = &value.value else { panic!() };
    assert_eq!(elems.len(), 3);
}

#[test]
fn parens_grouping() {
    let m = parse_ok("x = (1 + 2) * 3\n");
    let Stmt::Assign { value, .. } = &first_stmt(&m).value else { panic!() };
    let Expr::Binary { op, .. } = &value.value else { panic!() };
    assert_eq!(*op, BinaryOp::Mul);
}

#[test]
fn nested_blocks() {
    let src = "for f in files\n  if f == \"a\"\n    print(f)\n  end\nend\n";
    let m = parse_ok(src);
    let Stmt::For { body, .. } = &first_stmt(&m).value else { panic!() };
    assert_eq!(body.len(), 1);
    assert!(matches!(body[0].value, Stmt::If { .. }));
}

#[test]
fn err_missing_end() {
    let err = parse("if x > 3\n  print(\"a\")\n").unwrap_err();
    assert!(matches!(
        err.kind,
        ParseErrorKind::UnexpectedToken { ref expected, .. } if expected.contains("end")
    ));
}

#[test]
fn err_unexpected_token() {
    let err = parse("x =\n").unwrap_err();
    assert!(matches!(err.kind, ParseErrorKind::UnexpectedToken { .. }));
}

#[test]
fn err_positional_after_named() {
    let err = parse("task(return=\"x\", \"pos\")\n").unwrap_err();
    assert_eq!(err.kind, ParseErrorKind::PositionalAfterNamed);
}

#[test]
fn err_stray_end_at_top_level() {
    let err = parse("x = 1\nend\n").unwrap_err();
    assert!(matches!(err.kind, ParseErrorKind::UnexpectedToken { .. }));
}

#[test]
fn err_lex_error_propagates() {
    let err = parse("x = \"unterminated").unwrap_err();
    assert!(matches!(err.kind, ParseErrorKind::Lex(_)));
}

#[test]
fn root_cause_bugfix_workflow_parses() {
    let src = r#"
func analyze(bug)
    existing = command("test -f root-{bug}.md", return="yes or no")
    if existing == "yes"
        return "root-{bug}.md"
    end
    task("analyze root cause", return="path", produce=["root-{bug}.md"],
         check="contains root")
    return "root-{bug}.md"
end

rc = analyze("login-500")
print("root at {rc}")

gate = ask("continue?", return="yes or no")
if gate != "yes"
    return
end

files = command("git diff --name-only", return="list of files")
for f in files
    task("fix {f}", return="bool", check="ok")
end

print("done")
"#;
    let m = parse_ok(src);
    assert!(m.body.len() >= 5);
}

#[test]
fn spans_are_populated() {
    let m = parse_ok("x = 5\n");
    let s = &m.body[0];
    assert!(s.span.start <= s.span.end);
}

// ---- further cases ----

#[test]
fn interpolation_spans_point_into_the_source() {
    // `{y}` starts at byte 7 of `s = "a {y} b"`; its expression `y` at byte 8.
    let m = parse_ok("s = \"a {y} b\"\n");
    let Stmt::Assign { value, .. } = &first_stmt(&m).value else { panic!() };
    let Expr::String(parts) = &value.value else { panic!() };
    let StringPart::Interpolation(e) = &parts[1] else { panic!() };
    assert_eq!(e.span.start, 8);
    assert_eq!(e.span.end, 9);
}

#[test]
fn parse_error_message_names_expected_and_found() {
    let err = parse("x =\n").unwrap_err();
    assert!(!err.message().is_empty());
}

#[test]
fn syntax_errors_carry_their_kind_and_span() {
    let e = parse("f(a=1, 2)\n").unwrap_err();
    assert_eq!(e.kind, ParseErrorKind::PositionalAfterNamed);
    assert_eq!(e.span, Span::new(7, 8));
    let e = parse("x = 1\nend\n").unwrap_err();
    assert_eq!(
        e.kind,
        ParseErrorKind::UnexpectedToken { expected: "end of workflow".into(), found: Token::Ident("end".into()) }
    );
    assert_eq!(e.span, Span::new(6, 9));
}
