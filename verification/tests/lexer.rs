use steer::lexer::{line_col, tokenize, LexErrorKind, StringSegment, Token};
use steer::source::{Span, Spanned};

/// Token kinds with spans dropped, for concise assertions. String-segment
/// spans are normalized too so a `strlit(...)` helper can compare cleanly.
fn kinds(src: &str) -> Vec<Token> {
    tokenize(src)
        .unwrap()
        .into_iter()
        .map(|s| drop_spans(s.value))
        .collect()
}

fn drop_spans(t: Token) -> Token {
    match t {
        Token::String(segs) => Token::String(
            segs.into_iter()
                .map(|s| Spanned {
                    value: s.value,
                    span: Span::new(0, 0),
                })
                .collect(),
        ),
        other => other,
    }
}

fn id(s: &str) -> Token {
    Token::Ident(s.to_string())
}

fn strlit(parts: &[&str]) -> Token {
    Token::String(
        parts
            .iter()
            .map(|p| Spanned {
                value: StringSegment::Literal((*p).to_string()),
                span: Span::new(0, 0),
            })
            .collect(),
    )
}

#[test]
fn lexer_assignment_int() {
    assert_eq!(
        kinds("x = 5"),
        vec![id("x"), Token::Assign, Token::Int(5), Token::Newline, Token::Eof]
    );
}

#[test]
fn assignment_string() {
    assert_eq!(
        kinds("name = \"hello\""),
        vec![id("name"), Token::Assign, strlit(&["hello"]), Token::Newline, Token::Eof]
    );
}

#[test]
fn string_interpolation() {
    let toks = tokenize("\"a {x} b\"").unwrap();
    assert_eq!(toks.len(), 3);
    let Token::String(segs) = &toks[0].value else {
        panic!("expected string")
    };
    let values: Vec<_> = segs.iter().map(|s| s.value.clone()).collect();
    assert_eq!(
        values,
        vec![
            StringSegment::Literal("a ".into()),
            StringSegment::Interpolation("x".into()),
            StringSegment::Literal(" b".into()),
        ]
    );
    assert_eq!(segs[1].span, Span::new(3, 6));
}

#[test]
fn unterminated_paren_does_not_emit_top_level_newline() {
    let toks: Vec<Token> = tokenize("task(").unwrap().into_iter().map(|s| s.value).collect();
    assert_eq!(toks, vec![Token::Ident("task".into()), Token::LParen, Token::Eof]);
}

#[test]
fn raw_newline_in_string_is_rejected() {
    assert!(tokenize("\"line one\nline two\"").is_err());
}

#[test]
fn interpolation_rejects_a_nested_string_or_brace() {
    assert!(tokenize("\"{a \\\"}\\\"}\"").is_err());
    assert!(tokenize("\"{a {b}}\"").is_err());
}

#[test]
fn string_escapes() {
    let toks = kinds("\"a\\\"b\\{c\\n\\t\"");
    let Token::String(segs) = &toks[0] else { panic!() };
    let values: Vec<_> = segs.iter().map(|s| s.value.clone()).collect();
    assert_eq!(values, vec![StringSegment::Literal("a\"b{c\n\t".into())]);
}

#[test]
fn line_comment_inline() {
    assert_eq!(
        kinds("x = 5 // set x"),
        vec![id("x"), Token::Assign, Token::Int(5), Token::Newline, Token::Eof]
    );
}

#[test]
fn line_comment_only_and_blank_lines_produce_no_newline() {
    assert_eq!(
        kinds("// header\n\nx = 1\n\n\ny = 2\n"),
        vec![
            id("x"),
            Token::Assign,
            Token::Int(1),
            Token::Newline,
            id("y"),
            Token::Assign,
            Token::Int(2),
            Token::Newline,
            Token::Eof
        ]
    );
}

#[test]
fn no_trailing_newline_still_terminated() {
    assert_eq!(
        kinds("x = 5"),
        vec![id("x"), Token::Assign, Token::Int(5), Token::Newline, Token::Eof]
    );
}

#[test]
fn multiline_call_suppresses_inner_newlines() {
    let src = "task(\"a\",\n     return=\"b\")\n";
    assert_eq!(
        kinds(src),
        vec![
            id("task"),
            Token::LParen,
            strlit(&["a"]),
            Token::Comma,
            id("return"),
            Token::Assign,
            strlit(&["b"]),
            Token::RParen,
            Token::Newline,
            Token::Eof
        ]
    );
}

#[test]
fn all_operators() {
    assert_eq!(
        kinds("a = = == != < > <= >= + - * /"),
        vec![
            id("a"),
            Token::Assign,
            Token::Assign,
            Token::Equal,
            Token::NotEq,
            Token::Lt,
            Token::Gt,
            Token::LtEq,
            Token::GtEq,
            Token::Plus,
            Token::Minus,
            Token::Star,
            Token::Slash,
            Token::Newline,
            Token::Eof
        ]
    );
}

#[test]
fn float_literals() {
    assert_eq!(kinds("x = 1.5")[2], Token::Float("1.5".into()));
    assert_eq!(kinds("x = 3.0")[2], Token::Float("3.0".into()));
    let toks = kinds("x = 3");
    assert_eq!(toks[2], Token::Int(3));
}

#[test]
fn control_keywords_are_idents() {
    assert_eq!(
        kinds("if x > 3\nelse\nend\n"),
        vec![
            id("if"),
            id("x"),
            Token::Gt,
            Token::Int(3),
            Token::Newline,
            id("else"),
            Token::Newline,
            id("end"),
            Token::Newline,
            Token::Eof
        ]
    );
}

#[test]
fn loops_and_func() {
    assert_eq!(
        kinds("loop\nfor item in list\nfunc add(a, b)\n"),
        vec![
            id("loop"),
            Token::Newline,
            id("for"),
            id("item"),
            id("in"),
            id("list"),
            Token::Newline,
            id("func"),
            id("add"),
            Token::LParen,
            id("a"),
            Token::Comma,
            id("b"),
            Token::RParen,
            Token::Newline,
            Token::Eof
        ]
    );
}

#[test]
fn produce_list_literal() {
    assert_eq!(
        kinds("produce=[\"a\", \"b\"]"),
        vec![
            id("produce"),
            Token::Assign,
            Token::LBracket,
            strlit(&["a"]),
            Token::Comma,
            strlit(&["b"]),
            Token::RBracket,
            Token::Newline,
            Token::Eof
        ]
    );
}

#[test]
fn unicode_in_strings() {
    let toks = kinds("\"你好 {name}\"");
    let Token::String(segs) = &toks[0] else { panic!() };
    let values: Vec<_> = segs.iter().map(|s| s.value.clone()).collect();
    assert_eq!(
        values,
        vec![
            StringSegment::Literal("你好 ".into()),
            StringSegment::Interpolation("name".into()),
        ]
    );
}

#[test]
fn error_unterminated_string() {
    let err = tokenize("\"abc").unwrap_err();
    assert_eq!(err.kind, LexErrorKind::UnterminatedString);
}

#[test]
fn error_unterminated_interp() {
    let err = tokenize("\"abc {x").unwrap_err();
    assert_eq!(err.kind, LexErrorKind::UnterminatedInterpolation);
}

#[test]
fn error_invalid_escape() {
    let err = tokenize("\"a\\q\"").unwrap_err();
    assert_eq!(err.kind, LexErrorKind::InvalidEscape('q'));
}

#[test]
fn error_unexpected_char() {
    let err = tokenize("x = $").unwrap_err();
    assert_eq!(err.kind, LexErrorKind::UnexpectedChar('$'));
}

#[test]
fn meta_directive_tokens() {
    assert_eq!(
        kinds("@template = \"bugfix\""),
        vec![
            Token::At,
            Token::Ident("template".into()),
            Token::Assign,
            strlit(&["bugfix"]),
            Token::Newline,
            Token::Eof,
        ]
    );
}

#[test]
fn spans_are_byte_offsets() {
    let toks = tokenize("ab = 1").unwrap();
    assert_eq!(toks[0].span, Span::new(0, 2));
    assert_eq!(toks[2].span, Span::new(5, 6));
}

#[test]
fn eof_span_is_at_end() {
    let toks = tokenize("x = 1\n").unwrap();
    let eof = toks.last().unwrap();
    assert_eq!(eof.value, Token::Eof);
    assert_eq!(eof.span, Span::new(6, 6));
}

#[test]
fn multiline_call_preserves_outer_newline_only() {
    let src = "task(\"a\",\n return=\"b\")\ntask(\"c\",\n return=\"d\")\n";
    let toks = kinds(src);
    let newlines = toks.iter().filter(|t| **t == Token::Newline).count();
    assert_eq!(newlines, 2);
}

// ---- further cases ----

#[test]
fn spans_count_utf8_bytes_of_multibyte_text() {
    // "é" is two bytes, so the `=` after `"é"` starts at byte 5.
    let toks = tokenize("\"é\" = 1").unwrap();
    assert_eq!(toks[0].span, Span::new(0, 4));
    assert_eq!(toks[1].span, Span::new(5, 6));
}

#[test]
fn line_col_counts_lines_and_columns() {
    let src = "x = 1\ny = $\n";
    assert_eq!(line_col(src, 0), (1, 1));
    assert_eq!(line_col(src, 10), (2, 5));
}

#[test]
fn integer_overflow_is_an_invalid_number() {
    let err = tokenize("x = 99999999999999999999").unwrap_err();
    assert!(matches!(err.kind, LexErrorKind::InvalidNumber(_)));
}

#[test]
fn string_pieces_span_their_own_text() {
    let toks = tokenize("\"a {x} b\"").unwrap();
    assert_eq!(toks[0].span, Span::new(0, 9));
    match &toks[0].value {
        Token::String(segs) => {
            assert_eq!(segs.len(), 3);
            assert_eq!(segs[0].value, StringSegment::Literal("a ".into()));
            assert_eq!(segs[0].span, Span::new(1, 3));
            assert_eq!(segs[1].span, Span::new(3, 6));
            assert_eq!(segs[2].value, StringSegment::Literal(" b".into()));
            assert_eq!(segs[2].span, Span::new(6, 8));
        },
        t => panic!("unexpected {t:?}"),
    }
}
