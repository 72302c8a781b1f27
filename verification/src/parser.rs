//! Recursive-descent parser: token stream -> AST.
//!
//! Grammar (informal):
//!
//! ```text
//! module      := stmt*
//! stmt        := meta | assign | exprStmt | if | loop | for | func | return
//! meta        := "@" IDENT ("." IDENT)* "=" expr
//! assign      := IDENT "=" expr
//! exprStmt    := call
//! if          := "if" expr sep block ("elseif" expr sep block)* ("else" sep block)? "end" sep
//! loop        := "loop" sep block "until" expr sep
//! for         := "for" IDENT "in" expr sep block "end" sep
//! func        := "func" IDENT "(" params? ")" sep block "end" sep
//! return      := "return" expr? sep
//! expr        := or
//! or          := and ("or" and)*
//! and         := not ("and" not)*
//! not         := "not" not | comparison
//! comparison  := additive ( ("=="|"!="|"<"|">"|"<="|">=") additive )?
//! additive    := mul ( ("+"|"-") mul )*
//! mul         := unary ( ("*"|"/") unary )*
//! unary       := "-" unary | primary
//! primary     := INT | FLOAT | STR | list | "(" expr ")" | call | var
//! list        := "[" (expr ("," expr)*)? "]"
//! call        := IDENT "(" (arg ("," arg)*)? ")"
//! arg         := IDENT "=" expr     (named)
//!              | expr               (positional; must precede any named)
//! ```
//!
//! `sep` is a statement separator: a newline, or the end of the input, or a
//! block terminator (`end` / `else` / `until`) which is left for the caller.

use vstd::prelude::*;

use crate::ast::{
    arg_wf, args_ordered, block_wf, branch_wf, call_wf, expr_wf, is_operator_keyword, operator_keyword,
    part_wf, stmt_wf, arg_view, block_view, branch_view, expr_view, part_view, stmt_view, ArgV, BinaryOp, BranchV,
    Call, CallArg, CallV, Expr, ExprV, IfBranch, Module, PartV, SArgV, SExprV, SStmtV, Stmt, StmtV, StringPart,
    UnaryOp,
};
use crate::lexer::{tokenize, LexError, SegV, StringSegment, Token, TokenV};
use crate::source::{mk_span, span_ok, spec_span, Span, Spanned};
use crate::text::{push_char, push_str, str_eq};

verus! {

/// Classification of a parse error.
#[derive(Debug, PartialEq)]
pub enum ParseErrorKind {
    /// A lexical error occurred while tokenising the source.
    Lex(LexError),
    /// The parser expected `expected` but found `found`.
    UnexpectedToken { expected: String, found: Token },
    /// The parser ran out of tokens while expecting `expected`.
    UnexpectedEof { expected: String },
    /// A positional argument appeared after a named argument.
    PositionalAfterNamed,
}

/// A parse error together with its source span.
#[derive(Debug, PartialEq)]
pub struct ParseError {
    pub kind: ParseErrorKind,
    pub span: Span,
}

/// The token kinds, without payloads.
#[derive(Clone, Copy, PartialEq, Eq, Structural)]
enum Kind {
    Ident,
    Int,
    Float,
    Str,
    LParen,
    RParen,
    LBracket,
    RBracket,
    Comma,
    Dot,
    At,
    Assign,
    Equal,
    NotEq,
    Lt,
    Gt,
    LtEq,
    GtEq,
    Plus,
    Minus,
    Star,
    Slash,
    Newline,
    Eof,
}

spec fn kind_of(t: Token) -> Kind {
    match t {
        Token::Ident(_) => Kind::Ident,
        Token::Int(_) => Kind::Int,
        Token::Float(_) => Kind::Float,
        Token::String(_) => Kind::Str,
        Token::LParen => Kind::LParen,
        Token::RParen => Kind::RParen,
        Token::LBracket => Kind::LBracket,
        Token::RBracket => Kind::RBracket,
        Token::Comma => Kind::Comma,
        Token::Dot => Kind::Dot,
        Token::At => Kind::At,
        Token::Assign => Kind::Assign,
        Token::Equal => Kind::Equal,
        Token::NotEq => Kind::NotEq,
        Token::Lt => Kind::Lt,
        Token::Gt => Kind::Gt,
        Token::LtEq => Kind::LtEq,
        Token::GtEq => Kind::GtEq,
        Token::Plus => Kind::Plus,
        Token::Minus => Kind::Minus,
        Token::Star => Kind::Star,
        Token::Slash => Kind::Slash,
        Token::Newline => Kind::Newline,
        Token::Eof => Kind::Eof,
    }
}

fn kind(t: &Token) -> (k: Kind)
    ensures
        k == kind_of(*t),
{
    match t {
        Token::Ident(_) => Kind::Ident,
        Token::Int(_) => Kind::Int,
        Token::Float(_) => Kind::Float,
        Token::String(_) => Kind::Str,
        Token::LParen => Kind::LParen,
        Token::RParen => Kind::RParen,
        Token::LBracket => Kind::LBracket,
        Token::RBracket => Kind::RBracket,
        Token::Comma => Kind::Comma,
        Token::Dot => Kind::Dot,
        Token::At => Kind::At,
        Token::Assign => Kind::Assign,
        Token::Equal => Kind::Equal,
        Token::NotEq => Kind::NotEq,
        Token::Lt => Kind::Lt,
        Token::Gt => Kind::Gt,
        Token::LtEq => Kind::LtEq,
        Token::GtEq => Kind::GtEq,
        Token::Plus => Kind::Plus,
        Token::Minus => Kind::Minus,
        Token::Star => Kind::Star,
        Token::Slash => Kind::Slash,
        Token::Newline => Kind::Newline,
        Token::Eof => Kind::Eof,
    }
}

spec fn kind_name(k: Kind) -> Seq<char> {
    match k {
        Kind::Ident => "identifier"@,
        Kind::Int => "integer"@,
        Kind::Float => "float"@,
        Kind::Str => "string literal"@,
        Kind::LParen => "`(`"@,
        Kind::RParen => "`)`"@,
        Kind::LBracket => "`[`"@,
        Kind::RBracket => "`]`"@,
        Kind::Comma => "`,`"@,
        Kind::Dot => "`.`"@,
        Kind::At => "`@`"@,
        Kind::Assign => "`=`"@,
        Kind::Equal => "`==`"@,
        Kind::NotEq => "`!=`"@,
        Kind::Lt => "`<`"@,
        Kind::Gt => "`>`"@,
        Kind::LtEq => "`<=`"@,
        Kind::GtEq => "`>=`"@,
        Kind::Plus => "`+`"@,
        Kind::Minus => "`-`"@,
        Kind::Star => "`*`"@,
        Kind::Slash => "`/`"@,
        Kind::Newline => "end of line"@,
        Kind::Eof => "end of input"@,
    }
}

/// How a token is named in diagnostics.
pub open spec fn describe_text(t: TokenV) -> Seq<char> {
    match t {
        TokenV::Ident(s) => "identifier `"@ + s + seq!['`'],
        TokenV::Int(n) => "integer "@ + crate::text::int_text(n as int),
        TokenV::Float(s) => "float "@ + s,
        TokenV::Str(_) => "string literal"@,
        TokenV::LParen => "`(`"@,
        TokenV::RParen => "`)`"@,
        TokenV::LBracket => "`[`"@,
        TokenV::RBracket => "`]`"@,
        TokenV::Comma => "`,`"@,
        TokenV::Dot => "`.`"@,
        TokenV::At => "`@`"@,
        TokenV::Assign => "`=`"@,
        TokenV::Equal => "`==`"@,
        TokenV::NotEq => "`!=`"@,
        TokenV::Lt => "`<`"@,
        TokenV::Gt => "`>`"@,
        TokenV::LtEq => "`<=`"@,
        TokenV::GtEq => "`>=`"@,
        TokenV::Plus => "`+`"@,
        TokenV::Minus => "`-`"@,
        TokenV::Star => "`*`"@,
        TokenV::Slash => "`/`"@,
        TokenV::Newline => "end of line"@,
        TokenV::Eof => "end of input"@,
    }
}

/// The message of a parse error, as the CLI prints it.
pub open spec fn parse_error_text(e: ParseError) -> Seq<char> {
    match e.kind {
        ParseErrorKind::Lex(le) => crate::lexer::lex_error_text(crate::lexer::lex_err_view(le)),
        ParseErrorKind::UnexpectedToken { expected, found } => "expected "@ + expected@ + ", found "@
            + describe_text(crate::lexer::token_view(found)),
        ParseErrorKind::UnexpectedEof { expected } => "expected "@ + expected@ + ", found end of input"@,
        ParseErrorKind::PositionalAfterNamed => "positional argument cannot follow a named argument"@,
    }
}

/// A kind whose tokens carry nothing.
spec fn plain_kind(k: Kind) -> bool {
    k == Kind::At || k == Kind::Assign || k == Kind::LParen || k == Kind::RParen || k == Kind::RBracket
}

spec fn kind_token(k: Kind) -> TokenV {
    match k {
        Kind::At => TokenV::At,
        Kind::Assign => TokenV::Assign,
        Kind::LParen => TokenV::LParen,
        Kind::RParen => TokenV::RParen,
        _ => TokenV::RBracket,
    }
}

/// How a token of each kind is named in error messages.
fn kind_text(k: Kind) -> (r: &'static str)
    ensures
        r@ == kind_name(k),
{
    match k {
        Kind::Ident => "identifier",
        Kind::Int => "integer",
        Kind::Float => "float",
        Kind::Str => "string literal",
        Kind::LParen => "`(`",
        Kind::RParen => "`)`",
        Kind::LBracket => "`[`",
        Kind::RBracket => "`]`",
        Kind::Comma => "`,`",
        Kind::Dot => "`.`",
        Kind::At => "`@`",
        Kind::Assign => "`=`",
        Kind::Equal => "`==`",
        Kind::NotEq => "`!=`",
        Kind::Lt => "`<`",
        Kind::Gt => "`>`",
        Kind::LtEq => "`<=`",
        Kind::GtEq => "`>=`",
        Kind::Plus => "`+`",
        Kind::Minus => "`-`",
        Kind::Star => "`*`",
        Kind::Slash => "`/`",
        Kind::Newline => "end of line",
        Kind::Eof => "end of input",
    }
}

impl Token {
    /// How the token is named in diagnostics, e.g. ``identifier `x` `` or
    /// `` `(` ``.
    pub fn describe(&self) -> (r: String)
        ensures
            r@ == describe_text(crate::lexer::token_view(*self)),
    {
        let mut s = String::new();
        match self {
            Token::Ident(name) => {
                push_str(&mut s, "identifier `");
                push_str(&mut s, name.as_str());
                push_char(&mut s, '`');
            },
            Token::Int(n) => {
                push_str(&mut s, "integer ");
                crate::text::push_int(&mut s, *n);
            },
            Token::Float(x) => {
                push_str(&mut s, "float ");
                push_str(&mut s, x.as_str());
            },
            _ => {
                push_str(&mut s, kind_text(kind(self)));
            },
        }
        proof {
            assert(s@ =~= describe_text(crate::lexer::token_view(*self)));
        }
        s
    }
}

impl ParseError {
    /// The error message, as the CLI prints it.
    pub fn message(&self) -> (r: String)
        ensures
            r@ == parse_error_text(*self),
    {
        let mut s = String::new();
        match &self.kind {
            ParseErrorKind::Lex(e) => {
                push_str(&mut s, crate::lexer::lex_error_message(e).as_str());
            },
            ParseErrorKind::UnexpectedToken { expected, found } => {
                push_str(&mut s, "expected ");
                push_str(&mut s, expected.as_str());
                push_str(&mut s, ", found ");
                push_str(&mut s, found.describe().as_str());
            },
            ParseErrorKind::UnexpectedEof { expected } => {
                push_str(&mut s, "expected ");
                push_str(&mut s, expected.as_str());
                push_str(&mut s, ", found end of input");
            },
            ParseErrorKind::PositionalAfterNamed => {
                push_str(&mut s, "positional argument cannot follow a named argument");
            },
        }
        proof {
            assert(s@ =~= parse_error_text(*self));
        }
        s
    }
}

/// A block terminator: `end`, `else`, `elseif` or `until`.
pub open spec fn spec_is_terminator(t: Token) -> bool {
    match t {
        Token::Ident(s) => s@ == "end"@ || s@ == "else"@ || s@ == "elseif"@ || s@ == "until"@,
        _ => false,
    }
}

fn is_terminator_name(s: &str) -> (r: bool)
    ensures
        r == (s@ == "end"@ || s@ == "else"@ || s@ == "elseif"@ || s@ == "until"@),
{
    str_eq(s, "end") || str_eq(s, "else") || str_eq(s, "elseif") || str_eq(s, "until")
}

fn is_terminator(t: &Token) -> (r: bool)
    ensures
        r == spec_is_terminator(*t),
{
    match t {
        Token::Ident(s) => is_terminator_name(s.as_str()),
        _ => false,
    }
}

/// An owned string from a literal.
fn text(s: &str) -> (r: String)
    ensures
        r@ == s@,
{
    crate::text::owned(s)
}

/// Parse a source string into a [`Module`].
///
/// The result is exactly [`spec_parse`]'s: the statements, or the error
/// (its kind and span) that stops the lexer or the parser. On success every
/// statement satisfies the grammar's constraints ([`stmt_wf`]).
pub fn parse(src: &str) -> (r: Result<Module, ParseError>)
    ensures
        r matches Ok(m) ==> block_wf(m.body@),
        match spec_parse(src@) {
            Ok(b) => r matches Ok(m) && block_view(m.body@) == b,
            Err(e) => r matches Err(x) && perr_view(x) == e,
        },
        crate::lexer::spec_tokenize(src@) matches Err(e) ==> r matches Err(x) && x.kind matches ParseErrorKind::Lex(
            le,
        ) && crate::lexer::lex_err_view(le) == e && x.span == le.span,
{
    let toks = lex_for_parse(src)?;
    let mut p = Parser::new(toks);
    let body = p.parse_block()?;
    proof {
        p.lemma_top();
    }
    // At the top level a stray block terminator is an error.
    if p.toks.len() > 0 && is_terminator(&p.toks[p.toks.len() - 1].value) {
        return Err(p.unexpected("end of workflow"));
    }
    p.expect_eof()?;
    Ok(Module { body })
}

/// Tokenise `src`, reporting a lexical error as a parse error.
fn lex_for_parse(src: &str) -> (r: Result<Vec<Spanned<Token>>, ParseError>)
    ensures
        r matches Err(e) ==> e.kind matches ParseErrorKind::Lex(le) && crate::lexer::lex_error_ok(
            le,
            src@,
        ),
        match crate::lexer::spec_tokenize(src@) {
            Ok(ts) => r matches Ok(t) && crate::lexer::toks_view(t@) == ts,
            Err(e) => r matches Err(x) && x.kind matches ParseErrorKind::Lex(le) && crate::lexer::lex_err_view(le)
                == e && x.span == le.span,
        },
{
    match tokenize(src) {
        Ok(t) => Ok(t),
        Err(e) => {
            let span = e.span;
            Err(ParseError { kind: ParseErrorKind::Lex(e), span })
        },
    }
}


/// `r` is what the model `m` gives: the same tree and the same state after
/// it, or an error where the model has none.
spec fn expr_result(r: Result<Spanned<Expr>, ParseError>, fin: PState, m: Result<(SExprV, PState), PErr>) -> bool {
    match m {
        Ok((e, ps)) => r matches Ok(x) && expr_view(x) == e && fin == ps,
        Err(e) => r matches Err(x) && perr_view(x) == e,
    }
}

/// As [`expr_result`], for statements.
spec fn stmt_result(r: Result<Spanned<Stmt>, ParseError>, fin: PState, m: Result<(SStmtV, PState), PErr>) -> bool {
    match m {
        Ok((st, ps)) => r matches Ok(x) && stmt_view(x) == st && fin == ps,
        Err(e) => r matches Err(x) && perr_view(x) == e,
    }
}

/// The models of branches, parameter names and an optional block.
spec fn branches_v(xs: Seq<IfBranch>) -> Seq<BranchV> {
    Seq::new(xs.len(), |i: int| branch_view(xs[i]))
}

spec fn params_v(xs: Seq<String>) -> Seq<Seq<char>> {
    Seq::new(xs.len(), |i: int| xs[i]@)
}

spec fn opt_block_v(b: Option<Vec<Spanned<Stmt>>>) -> Option<Seq<SStmtV>> {
    match b {
        Some(v) => Some(block_view(v@)),
        None => None,
    }
}

/// Recursive-descent parser over a token stream.
pub struct Parser {
    /// The tokens not yet consumed, last token first: the next token is the
    /// last element.
    toks: Vec<Spanned<Token>>,
    /// Byte offset where the last consumed token ended.
    prev_end: usize,
    /// Whether string literals may occur; interpolation bodies hold none.
    allow_strings: bool,
}

/// The measure that bounds the parser's recursion: interpolation bodies are
/// parsed by a fresh parser that holds no strings.
spec fn level(p: Parser) -> int {
    if p.allow_strings {
        2
    } else {
        0
    }
}

impl Parser {
    /// A parser over `toks`, in source order.
    pub fn new(toks: Vec<Spanned<Token>>) -> (r: Parser)
        ensures
            r.remaining() == toks@.len(),
            r.allows_strings(),
            r.state() == ps_init(crate::lexer::toks_view(toks@), true),
    {
        let ghost t0 = toks@;
        let prev_end = if toks.len() > 0 {
            toks[toks.len() - 1].span.end
        } else {
            0
        };
        let mut toks = toks;
        let mut rev: Vec<Spanned<Token>> = Vec::new();
        let n = toks.len();
        while toks.len() > 0
            invariant
                toks.len() + rev.len() == n,
                n == t0.len(),
                toks@ == t0.take(toks@.len() as int),
                forall|i: int| 0 <= i < rev@.len() ==> #[trigger] rev@[i] == t0[n - 1 - i],
            decreases toks.len(),
        {
            let ghost before = toks@;
            let t = toks.pop().unwrap();
            proof {
                assert(toks@ =~= t0.take(toks@.len() as int));
            }
            rev.push(t);
        }
        let r = Parser { toks: rev, prev_end, allow_strings: true };
        proof {
            let tv = crate::lexer::toks_view(t0);
            assert(crate::lexer::toks_view(rev@) =~= tv.reverse());
            assert(r.state() =~= ps_init(tv, true));
        }
        r
    }

    /// The model of the parser's state.
    pub closed spec fn state(&self) -> PState {
        PState { toks: crate::lexer::toks_view(self.toks@), prev_end: self.prev_end, strings: self.allow_strings }
    }

    /// The number of tokens not yet consumed.
    pub closed spec fn remaining(&self) -> nat {
        self.toks@.len()
    }

    /// Whether string literals may occur in the stream.
    pub closed spec fn allows_strings(&self) -> bool {
        self.allow_strings
    }

    /// The model's view of the next tokens agrees with the token stack.
    proof fn lemma_top(&self)
        ensures
            ps_top(self.state()) == crate::lexer::token_view(self.top()),
            self.toks@.len() > 0 ==> self.state().toks.last().1 == self.toks@.last().span,
            self.state().toks.len() == self.toks@.len(),
            self.toks@.len() > 1 ==> ps_second(self.state()) == Some(
                crate::lexer::token_view(self.toks@[self.toks@.len() - 2].value),
            ),
    {
    }

    /// Whether `self` is `old` with some tokens consumed.
    spec fn advanced_from(&self, old: &Parser) -> bool {
        &&& self.toks@.len() <= old.toks@.len()
        &&& forall|j: int| 0 <= j < self.toks@.len() ==> #[trigger] self.toks@[j] == old.toks@[j]
        &&& self.allow_strings == old.allow_strings
    }

    /// The next token (`Eof` once none is left).
    spec fn top(&self) -> Token {
        if self.toks@.len() > 0 {
            self.toks@.last().value
        } else {
            Token::Eof
        }
    }

    // ---- low-level cursor helpers ----

    fn peek_kind(&self) -> (k: Kind)
        ensures
            k == kind_of(self.top()),
            ps_top(self.state()) == crate::lexer::token_view(self.top()),
    {
        proof {
            self.lemma_top();
        }
        if self.toks.len() > 0 {
            kind(&self.toks[self.toks.len() - 1].value)
        } else {
            Kind::Eof
        }
    }

    /// The kind of the token after the next one.
    fn peek_second_kind(&self) -> (k: Option<Kind>)
        ensures
            k == (if self.toks@.len() > 1 {
                Some(kind_of(self.toks@[self.toks@.len() - 2].value))
            } else {
                None
            }),
    {
        if self.toks.len() > 1 {
            Some(kind(&self.toks[self.toks.len() - 2].value))
        } else {
            None
        }
    }

    fn peek_ident_is(&self, name: &str) -> (r: bool)
        ensures
            r == (self.top() matches Token::Ident(s) && s@ == name@),
    {
        if self.toks.len() > 0 {
            match &self.toks[self.toks.len() - 1].value {
                Token::Ident(s) => str_eq(s.as_str(), name),
                _ => false,
            }
        } else {
            false
        }
    }

    fn peek_is_terminator(&self) -> (r: bool)
        ensures
            r == spec_is_terminator(self.top()),
    {
        if self.toks.len() > 0 {
            is_terminator(&self.toks[self.toks.len() - 1].value)
        } else {
            false
        }
    }

    fn peek_is_operator_keyword(&self) -> (r: bool)
        ensures
            r == (self.top() matches Token::Ident(s) && is_operator_keyword(s@)),
    {
        if self.toks.len() > 0 {
            match &self.toks[self.toks.len() - 1].value {
                Token::Ident(s) => operator_keyword(s.as_str()),
                _ => false,
            }
        } else {
            false
        }
    }

    /// Consume the next token.
    fn bump(&mut self) -> (r: Option<Spanned<Token>>)
        ensures
            final(self).state() == ps_bump(old(self).state()),
            final(self).advanced_from(old(self)),
            old(self).toks@.len() > 0 ==> final(self).toks@.len() == old(self).toks@.len() - 1
                && r == Some(old(self).toks@.last()),
            old(self).toks@.len() == 0 ==> final(self).toks@.len() == 0 && r is None,
    {
        let ghost before = self.toks@;
        match self.toks.pop() {
            Some(t) => {
                self.prev_end = t.span.end;
                proof {
                    assert(crate::lexer::toks_view(self.toks@) =~= crate::lexer::toks_view(before).drop_last());
                }
                Some(t)
            },
            None => None,
        }
    }

    fn cur_start(&self) -> (r: usize)
        ensures
            r == ps_start(self.state()),
    {
        if self.toks.len() > 0 {
            self.toks[self.toks.len() - 1].span.start
        } else {
            self.prev_end
        }
    }

    fn spanned_from<T>(&self, start: usize, value: T) -> (r: Spanned<T>)
        ensures
            r.value == value,
            span_ok(r.span),
            r.span.start == start,
            r.span == ps_span(self.state(), start),
    {
        let end = if self.prev_end > start {
            self.prev_end
        } else {
            start
        };
        Spanned { value, span: mk_span(start, end) }
    }

    fn skip_newlines(&mut self)
        ensures
            final(self).advanced_from(old(self)),
            !(final(self).top() is Newline),
            final(self).state() == skip_newlines(old(self).state()),
    {
        while self.peek_kind() == Kind::Newline
            invariant
                self.advanced_from(old(self)),
                skip_newlines(old(self).state()) == skip_newlines(self.state()),
            decreases self.toks@.len(),
        {
            self.bump();
        }
    }

    // ---- error helpers ----

    /// The error for an unexpected next token (which is consumed).
    fn unexpected(&mut self, expected: &str) -> (r: ParseError)
        ensures
            final(self).advanced_from(old(self)),
            final(self).state() == ps_bump(old(self).state()),
            perr_view(r) == p_unexpected(old(self).state(), expected@),
    {
        proof {
            self.lemma_top();
        }
        let pe = self.prev_end;
        match self.bump() {
            Some(t) => ParseError {
                kind: ParseErrorKind::UnexpectedToken { expected: text(expected), found: t.value },
                span: t.span,
            },
            None => ParseError {
                kind: ParseErrorKind::UnexpectedEof { expected: text(expected) },
                span: mk_span(pe, pe),
            },
        }
    }

    /// The error for an unexpected next token, naming the expected text
    /// between backticks.
    fn unexpected_quoted(&mut self, what: &str) -> (r: ParseError)
        ensures
            final(self).advanced_from(old(self)),
            final(self).state() == ps_bump(old(self).state()),
            perr_view(r) == p_unexpected(old(self).state(), quoted(what@)),
    {
        let mut e = String::new();
        push_char(&mut e, '`');
        push_str(&mut e, what);
        push_char(&mut e, '`');
        proof {
            assert(e@ =~= seq!['`'] + what@ + seq!['`']);
        }
        self.unexpected(e.as_str())
    }

    // ---- separators / expectations ----

    /// A statement separator: newline, end of input, or a block terminator.
    /// A terminator is left unconsumed for the enclosing construct.
    fn expect_sep(&mut self) -> (r: Result<(), ParseError>)
        ensures
            final(self).advanced_from(old(self)),
            match p_sep(old(self).state()) {
                Ok(ps) => r is Ok && final(self).state() == ps,
                Err(e) => r matches Err(x) && perr_view(x) == e,
            },
    {
        proof {
            self.lemma_top();
        }
        let k = self.peek_kind();
        if k == Kind::Newline {
            self.bump();
            Ok(())
        } else if k == Kind::Eof || self.peek_is_terminator() {
            Ok(())
        } else {
            Err(self.unexpected("end of statement (newline)"))
        }
    }

    fn expect_keyword(&mut self, kw: &str) -> (r: Result<(), ParseError>)
        ensures
            final(self).advanced_from(old(self)),
            r is Ok ==> final(self).toks@.len() < old(self).toks@.len(),
            match p_keyword(old(self).state(), kw@) {
                Ok(ps) => r is Ok && final(self).state() == ps,
                Err(e) => r matches Err(x) && perr_view(x) == e,
            },
    {
        proof {
            self.lemma_top();
        }
        if self.peek_ident_is(kw) {
            self.bump();
            Ok(())
        } else {
            Err(self.unexpected_quoted(kw))
        }
    }

    fn expect_kind(&mut self, want: Kind) -> (r: Result<(), ParseError>)
        ensures
            final(self).advanced_from(old(self)),
            r is Ok ==> final(self).toks@.len() < old(self).toks@.len(),
            plain_kind(want) ==> match p_expect(old(self).state(), kind_token(want)) {
                Ok(ps) => r is Ok && final(self).state() == ps,
                Err(e) => r matches Err(x) && perr_view(x) == e,
            },
    {
        proof {
            self.lemma_top();
        }
        if self.peek_kind() == want && self.toks.len() > 0 {
            self.bump();
            Ok(())
        } else {
            Err(self.unexpected_quoted(kind_text(want)))
        }
    }

    fn expect_eof(&mut self) -> (r: Result<(), ParseError>)
        ensures
            final(self).advanced_from(old(self)),
            r is Ok <==> ps_top(old(self).state()) is Eof,
            r is Ok ==> final(self).state() == old(self).state(),
            r matches Err(x) ==> perr_view(x) == p_unexpected(old(self).state(), "end of workflow"@),
    {
        proof {
            self.lemma_top();
        }
        if self.peek_kind() == Kind::Eof {
            Ok(())
        } else {
            Err(self.unexpected("end of workflow"))
        }
    }

    fn expect_ident(&mut self) -> (r: Result<String, ParseError>)
        ensures
            final(self).advanced_from(old(self)),
            r is Ok ==> final(self).toks@.len() < old(self).toks@.len(),
            r matches Ok(s) ==> old(self).top() == Token::Ident(s),
            match p_ident(old(self).state()) {
                Ok((name, ps)) => r matches Ok(x) && x@ == name && final(self).state() == ps,
                Err(e) => r matches Err(x) && perr_view(x) == e,
            },
    {
        proof {
            self.lemma_top();
        }
        if self.peek_kind() == Kind::Ident {
            match self.bump() {
                Some(Spanned { value: Token::Ident(s), .. }) => Ok(s),
                _ => Err(self.unexpected("identifier")),
            }
        } else {
            let pe = self.prev_end;
            match self.bump() {
                Some(t) => Err(
                    ParseError {
                        kind: ParseErrorKind::UnexpectedToken {
                            expected: text("identifier"),
                            found: t.value,
                        },
                        span: t.span,
                    },
                ),
                None => Err(
                    ParseError {
                        kind: ParseErrorKind::UnexpectedToken {
                            expected: text("identifier"),
                            found: Token::Eof,
                        },
                        span: mk_span(pe, pe),
                    },
                ),
            }
        }
    }

    // ---- block & statement parsing ----

    fn parse_block(&mut self) -> (r: Result<Vec<Spanned<Stmt>>, ParseError>)
        ensures
            final(self).advanced_from(old(self)),
            r matches Ok(b) ==> block_wf(b@),
            match p_block(Seq::empty(), old(self).state()) {
                Ok((b, ps)) => r matches Ok(v) && block_view(v@) == b && final(self).state() == ps,
                Err(e) => r matches Err(x) && perr_view(x) == e,
            },
        decreases level(*old(self)), old(self).toks@.len(), 30int,
    {
        let ghost ps0 = self.state();
        let mut out: Vec<Spanned<Stmt>> = Vec::new();
        proof {
            assert(block_view(out@) =~= Seq::<SStmtV>::empty());
        }
        loop
            invariant_except_break
                p_block(Seq::empty(), ps0) == p_block(block_view(out@), self.state()),
            invariant
                self.advanced_from(old(self)),
                ps0 == old(self).state(),
                block_wf(out@),
            ensures
                self.advanced_from(old(self)),
                block_wf(out@),
                p_block(Seq::empty(), ps0) == Ok::<(Seq<SStmtV>, PState), PErr>((block_view(out@), self.state())),
            decreases self.toks@.len(),
        {
            proof {
                lemma_p_block(block_view(out@), self.state());
            }
            self.skip_newlines();
            proof {
                self.lemma_top();
            }
            if self.peek_kind() == Kind::Eof || self.peek_is_terminator() {
                break ;
            }
            let s = self.parse_stmt()?;
            let ghost old_out = out@;
            out.push(s);
            proof {
                assert(out@ == old_out.push(out@.last()));
                assert(block_view(out@) =~= block_view(old_out).push(stmt_view(out@.last())));
                assert forall|k: int| 0 <= k < out@.len() implies stmt_wf(#[trigger] out@[k]) by {
                    if k < old_out.len() {
                        assert(out@[k] == old_out[k]);
                    }
                }
            }
        }
        Ok(out)
    }

    /// Parse one statement; on success at least one token is consumed.
    fn parse_stmt(&mut self) -> (r: Result<Spanned<Stmt>, ParseError>)
        requires
            !(old(self).top() is Eof),
            !(old(self).top() is Newline),
            !spec_is_terminator(old(self).top()),
        ensures
            final(self).advanced_from(old(self)),
            r is Ok ==> final(self).toks@.len() < old(self).toks@.len(),
            r matches Ok(s) ==> stmt_wf(s),
            stmt_result(r, final(self).state(), p_stmt(old(self).state())),
        decreases level(*old(self)), old(self).toks@.len(), 29int,
    {
        proof {
            lemma_p_stmt(self.state());
            self.lemma_top();
        }
        let start = self.cur_start();
        if self.peek_kind() == Kind::At {
            return self.parse_meta();
        }
        if self.peek_ident_is("if") {
            return self.parse_if();
        }
        if self.peek_ident_is("loop") {
            return self.parse_loop();
        }
        if self.peek_ident_is("for") {
            return self.parse_for();
        }
        if self.peek_ident_is("func") {
            return self.parse_func();
        }
        if self.peek_ident_is("return") {
            return self.parse_return();
        }
        if self.is_assign_start() {
            self.parse_assign()
        } else {
            // A standalone statement must be a call; bare non-call expressions
            // (e.g. `1 + 2`, `"x"`) have no effect and are rejected.
            let ghost n0 = self.toks@.len();
            let e = self.parse_expr()?;
            match e.value {
                Expr::Call(call) => {
                    proof {
                        assert(expr_wf(e));
                        assert(call_wf(call));
                        // a call consumes at least its name
                        assert(self.toks@.len() < n0);
                    }
                    self.expect_sep()?;
                    Ok(self.spanned_from(start, Stmt::Call(call)))
                },
                _ => Err(self.unexpected("a call statement, e.g. `task(...)`")),
            }
        }
    }

    fn parse_meta(&mut self) -> (r: Result<Spanned<Stmt>, ParseError>)
        requires
            old(self).top() is At,
        ensures
            final(self).advanced_from(old(self)),
            r is Ok ==> final(self).toks@.len() < old(self).toks@.len(),
            r matches Ok(s) ==> stmt_wf(s),
            stmt_result(r, final(self).state(), p_meta(old(self).state())),
        decreases level(*old(self)), old(self).toks@.len(), 28int,
    {
        proof {
            lemma_p_meta(self.state());
        }
        let start = self.cur_start();
        self.expect_kind(Kind::At)?;
        let mut key = self.expect_ident()?;
        let ghost k0 = key@;
        let ghost s2 = self.state();
        while self.peek_kind() == Kind::Dot
            invariant
                self.advanced_from(old(self)),
                self.toks@.len() < old(self).toks@.len(),
                p_meta_key(k0, s2) == p_meta_key(key@, self.state()),
                p_meta_key(k0, s2) matches Err(e) ==> p_meta(old(self).state()) == Err::<(SStmtV, PState), PErr>(e),
            decreases self.toks@.len(),
        {
            proof {
                self.lemma_top();
            }
            self.bump();
            push_char(&mut key, '.');
            let part = self.expect_ident()?;
            push_str(&mut key, part.as_str());
        }
        proof {
            self.lemma_top();
        }
        self.expect_kind(Kind::Assign)?;
        let value = self.parse_expr()?;
        self.expect_sep()?;
        Ok(self.spanned_from(start, Stmt::Meta { key, value: Box::new(value) }))
    }

    /// `Ident =` (a single equals, not `==`) starts an assignment. Word
    /// operators (`not`/`and`/`or`/`in`) are not assignment targets.
    fn is_assign_start(&self) -> (r: bool)
        ensures
            r ==> self.top() is Ident && !(self.top() matches Token::Ident(s) && is_operator_keyword(
                s@,
            )),
            r == (ps_top(self.state()) is Ident && !is_operator_keyword(ps_top(self.state())->Ident_0)
                && ps_second(self.state()) == Some(TokenV::Assign)),
    {
        proof {
            self.lemma_top();
        }
        !self.peek_is_operator_keyword() && self.peek_kind() == Kind::Ident
            && self.peek_second_kind() == Some(Kind::Assign)
    }

    fn parse_assign(&mut self) -> (r: Result<Spanned<Stmt>, ParseError>)
        requires
            old(self).top() is Ident,
            !(old(self).top() matches Token::Ident(s) && is_operator_keyword(s@)),
        ensures
            final(self).advanced_from(old(self)),
            r is Ok ==> final(self).toks@.len() < old(self).toks@.len(),
            r matches Ok(s) ==> stmt_wf(s),
            stmt_result(r, final(self).state(), p_assign(old(self).state())),
        decreases level(*old(self)), old(self).toks@.len(), 28int,
    {
        proof {
            lemma_p_assign(self.state());
        }
        let start = self.cur_start();
        let target = self.expect_ident()?;
        self.expect_kind(Kind::Assign)?;
        let value = self.parse_expr()?;
        self.expect_sep()?;
        Ok(self.spanned_from(start, Stmt::Assign { target, value: Box::new(value) }))
    }

    fn parse_if(&mut self) -> (r: Result<Spanned<Stmt>, ParseError>)
        ensures
            final(self).advanced_from(old(self)),
            r is Ok ==> final(self).toks@.len() < old(self).toks@.len(),
            r matches Ok(s) ==> stmt_wf(s),
            stmt_result(r, final(self).state(), p_if(old(self).state())),
        decreases level(*old(self)), old(self).toks@.len(), 28int,
    {
        proof {
            lemma_p_if(self.state());
        }
        let start = self.cur_start();
        // First branch (`if cond <block>`).
        self.expect_keyword("if")?;
        let first = self.parse_if_branch()?;
        let mut branches: Vec<IfBranch> = Vec::new();
        branches.push(first);
        proof {
            assert(branches_v(branches@) =~= seq![branch_view(first)]);
        }
        // `elseif cond <block>` chain.
        self.parse_elifs(&mut branches)?;
        // Optional trailing `else <block>`.
        let else_block = self.parse_else()?;
        self.expect_keyword("end")?;
        self.expect_sep()?;
        let ghost bv = branches@;
        let ghost ev = else_block;
        let st = self.spanned_from(start, Stmt::If { branches, else_block });
        proof {
            match &st.value {
                Stmt::If { branches: bs, else_block: eb } => {
                    assert(bs@ == bv);
                    assert(stmt_view(st).value->If_branches =~= branches_v(bv));
                },
                _ => {},
            }
        }
        Ok(st)
    }

    /// The `elseif` branches, appended to `branches`.
    fn parse_elifs(&mut self, branches: &mut Vec<IfBranch>) -> (r: Result<(), ParseError>)
        requires
            old(branches)@.len() >= 1,
            forall|k: int| 0 <= k < old(branches)@.len() ==> branch_wf(#[trigger] old(branches)@[k]),
        ensures
            final(self).advanced_from(old(self)),
            final(branches)@.len() >= 1,
            forall|k: int| 0 <= k < final(branches)@.len() ==> branch_wf(#[trigger] final(branches)@[k]),
            match p_elifs(branches_v(old(branches)@), old(self).state()) {
                Ok((bs, ps)) => r is Ok && branches_v(final(branches)@) == bs && final(self).state() == ps,
                Err(e) => r matches Err(x) && perr_view(x) == e,
            },
        decreases level(*old(self)), old(self).toks@.len(), 28int,
    {
        let ghost ps0 = self.state();
        let ghost b0 = branches_v(branches@);
        loop
            invariant_except_break
                p_elifs(b0, ps0) == p_elifs(branches_v(branches@), self.state()),
            invariant
                self.advanced_from(old(self)),
                ps0 == old(self).state(),
                b0 == branches_v(old(branches)@),
                branches@.len() >= 1,
                forall|k: int| 0 <= k < branches@.len() ==> branch_wf(#[trigger] branches@[k]),
            ensures
                self.advanced_from(old(self)),
                branches@.len() >= 1,
                forall|k: int| 0 <= k < branches@.len() ==> branch_wf(#[trigger] branches@[k]),
                p_elifs(b0, ps0) == Ok::<(Seq<BranchV>, PState), PErr>((branches_v(branches@), self.state())),
            decreases self.toks@.len(),
        {
            proof {
                lemma_p_elifs(branches_v(branches@), self.state());
                self.lemma_top();
            }
            if !self.peek_ident_is("elseif") {
                break ;
            }
            self.bump();
            let b = self.parse_if_branch()?;
            let ghost old_b = branches@;
            branches.push(b);
            proof {
                assert(branches_v(branches@) =~= branches_v(old_b).push(branch_view(b)));
                assert forall|k: int| 0 <= k < branches@.len() implies branch_wf(#[trigger] branches@[k]) by {
                    if k < old_b.len() {
                        assert(branches@[k] == old_b[k]);
                    }
                }
            }
        }
        Ok(())
    }

    /// An optional `else <sep> <block>`.
    fn parse_else(&mut self) -> (r: Result<Option<Vec<Spanned<Stmt>>>, ParseError>)
        ensures
            final(self).advanced_from(old(self)),
            r matches Ok(Some(b)) ==> block_wf(b@),
            match p_else(old(self).state()) {
                Ok((eb, ps)) => r matches Ok(v) && opt_block_v(v) == eb && final(self).state() == ps,
                Err(e) => r matches Err(x) && perr_view(x) == e,
            },
        decreases level(*old(self)), old(self).toks@.len(), 28int,
    {
        proof {
            lemma_p_else(self.state());
            self.lemma_top();
        }
        if self.peek_ident_is("else") {
            self.bump();
            self.expect_sep()?;
            Ok(Some(self.parse_block()?))
        } else {
            Ok(None)
        }
    }

    /// Parse one `cond <sep> <block>` pair. The leading `if`/`elseif` keyword
    /// is consumed by the caller.
    fn parse_if_branch(&mut self) -> (r: Result<IfBranch, ParseError>)
        ensures
            final(self).advanced_from(old(self)),
            r matches Ok(b) ==> branch_wf(b),
            match p_if_branch(old(self).state()) {
                Ok((b, ps)) => r matches Ok(x) && branch_view(x) == b && final(self).state() == ps,
                Err(e) => r matches Err(x) && perr_view(x) == e,
            },
        decreases level(*old(self)), old(self).toks@.len(), 27int,
    {
        proof {
            lemma_p_if_branch(self.state());
        }
        let cond = self.parse_expr()?;
        self.expect_sep()?;
        let body = self.parse_block()?;
        Ok(IfBranch { cond: Box::new(cond), body })
    }

    fn parse_loop(&mut self) -> (r: Result<Spanned<Stmt>, ParseError>)
        ensures
            final(self).advanced_from(old(self)),
            r is Ok ==> final(self).toks@.len() < old(self).toks@.len(),
            r matches Ok(s) ==> stmt_wf(s),
            stmt_result(r, final(self).state(), p_loop(old(self).state())),
        decreases level(*old(self)), old(self).toks@.len(), 28int,
    {
        proof {
            lemma_p_loop(self.state());
        }
        let start = self.cur_start();
        self.expect_keyword("loop")?;
        // `loop` is post-test only: a body terminated by `until <cond>`.
        self.expect_sep()?;
        let body = self.parse_block()?;
        self.expect_keyword("until")?;
        let cond = self.parse_expr()?;
        self.expect_sep()?;
        Ok(self.spanned_from(start, Stmt::LoopUntil { body, cond: Box::new(cond) }))
    }

    fn parse_for(&mut self) -> (r: Result<Spanned<Stmt>, ParseError>)
        ensures
            final(self).advanced_from(old(self)),
            r is Ok ==> final(self).toks@.len() < old(self).toks@.len(),
            r matches Ok(s) ==> stmt_wf(s),
            stmt_result(r, final(self).state(), p_for(old(self).state())),
        decreases level(*old(self)), old(self).toks@.len(), 28int,
    {
        proof {
            lemma_p_for(self.state());
        }
        let start = self.cur_start();
        self.expect_keyword("for")?;
        let var = self.expect_ident()?;
        self.expect_keyword("in")?;
        let iterable = self.parse_expr()?;
        self.expect_sep()?;
        let body = self.parse_block()?;
        self.expect_keyword("end")?;
        self.expect_sep()?;
        Ok(self.spanned_from(start, Stmt::For { var, iterable: Box::new(iterable), body }))
    }

    fn parse_func(&mut self) -> (r: Result<Spanned<Stmt>, ParseError>)
        ensures
            final(self).advanced_from(old(self)),
            r is Ok ==> final(self).toks@.len() < old(self).toks@.len(),
            r matches Ok(s) ==> stmt_wf(s),
            stmt_result(r, final(self).state(), p_func(old(self).state())),
        decreases level(*old(self)), old(self).toks@.len(), 28int,
    {
        proof {
            lemma_p_func(self.state());
        }
        let start = self.cur_start();
        self.expect_keyword("func")?;
        let name = self.expect_ident()?;
        self.expect_kind(Kind::LParen)?;
        let mut params: Vec<String> = Vec::new();
        let ghost s3 = self.state();
        proof {
            self.lemma_top();
            assert(params_v(params@) =~= Seq::<Seq<char>>::empty());
        }
        if self.peek_kind() != Kind::RParen {
            loop
                invariant_except_break
                    p_params(Seq::empty(), s3) == p_params(params_v(params@), self.state()),
                invariant
                    self.advanced_from(old(self)),
                    self.toks@.len() < old(self).toks@.len(),
                    p_params(Seq::empty(), s3) matches Err(e) ==> p_func(old(self).state()) == Err::<(SStmtV, PState), PErr>(e),
                ensures
                    self.advanced_from(old(self)),
                    self.toks@.len() < old(self).toks@.len(),
                    p_params(Seq::empty(), s3) == Ok::<(Seq<Seq<char>>, PState), PErr>((params_v(params@), self.state())),
                decreases self.toks@.len(),
            {
                let p = self.expect_ident()?;
                let ghost old_p = params@;
                params.push(p);
                proof {
                    assert(params_v(params@) =~= params_v(old_p).push(p@));
                    self.lemma_top();
                }
                let k = self.peek_kind();
                if k == Kind::Comma {
                    self.bump();
                } else if k == Kind::RParen {
                    break ;
                } else {
                    return Err(self.unexpected("`,` or `)`"));
                }
            }
        }
        self.expect_kind(Kind::RParen)?;
        self.expect_sep()?;
        let body = self.parse_block()?;
        self.expect_keyword("end")?;
        self.expect_sep()?;
        let ghost pv = params@;
        let st = self.spanned_from(start, Stmt::Function { name, params, body });
        proof {
            match &st.value {
                Stmt::Function { params: ps, .. } => {
                    assert(ps@ == pv);
                    assert(stmt_view(st).value->Function_params =~= params_v(pv));
                },
                _ => {},
            }
        }
        Ok(st)
    }

    fn parse_return(&mut self) -> (r: Result<Spanned<Stmt>, ParseError>)
        ensures
            final(self).advanced_from(old(self)),
            r is Ok ==> final(self).toks@.len() < old(self).toks@.len(),
            r matches Ok(s) ==> stmt_wf(s),
            stmt_result(r, final(self).state(), p_return(old(self).state())),
        decreases level(*old(self)), old(self).toks@.len(), 28int,
    {
        proof {
            lemma_p_return(self.state());
        }
        let start = self.cur_start();
        self.expect_keyword("return")?;
        proof {
            self.lemma_top();
        }
        let k = self.peek_kind();
        let value = if k == Kind::Newline || k == Kind::Eof || self.peek_is_terminator() {
            None
        } else {
            Some(Box::new(self.parse_expr()?))
        };
        self.expect_sep()?;
        Ok(self.spanned_from(start, Stmt::Return { value }))
    }

    // ---- expression parsing (precedence climbing) ----

    /// Parse an expression; on success at least one token is consumed.
    fn parse_expr(&mut self) -> (r: Result<Spanned<Expr>, ParseError>)
        ensures
            final(self).advanced_from(old(self)),
            r is Ok ==> final(self).toks@.len() < old(self).toks@.len(),
            r matches Ok(e) ==> expr_wf(e),
            expr_result(r, final(self).state(), p_expr(old(self).state())),
        decreases level(*old(self)), old(self).toks@.len(), 20int,
    {
        proof {
            reveal(p_expr);
            reveal(p_or);
        }
        self.parse_or()
    }

    fn binary(&self, start: usize, op: BinaryOp, lhs: Spanned<Expr>, rhs: Spanned<Expr>) -> (r:
        Spanned<Expr>)
        requires
            expr_wf(lhs),
            expr_wf(rhs),
        ensures
            expr_wf(r),
            expr_view(r) == binary_v(self.state(), start, op, expr_view(lhs), expr_view(rhs)),
    {
        let r = self.spanned_from(start, Expr::Binary { op, lhs: Box::new(lhs), rhs: Box::new(rhs) });
        r
    }

    /// `or` (lowest precedence): `and ("or" and)*`.
    #[verifier::rlimit(40)]
    fn parse_or(&mut self) -> (r: Result<Spanned<Expr>, ParseError>)
        ensures
            final(self).advanced_from(old(self)),
            r is Ok ==> final(self).toks@.len() < old(self).toks@.len(),
            r matches Ok(e) ==> expr_wf(e),
            expr_result(r, final(self).state(), p_or(old(self).state())),
        decreases level(*old(self)), old(self).toks@.len(), 19int,
    {
        proof {
            reveal(p_or);
            reveal(p_or_rest);
            reveal(p_and);
        }
        let ghost ps0 = self.state();
        let start = self.cur_start();
        let mut lhs = self.parse_and()?;
        while self.peek_ident_is("or")
            invariant
                self.advanced_from(old(self)),
                self.toks@.len() < old(self).toks@.len(),
                expr_wf(lhs),
                ps0 == old(self).state(),
                p_or(ps0) == p_or_rest(start, expr_view(lhs), self.state()),
            decreases self.toks@.len(),
        {
            proof {
                self.lemma_top();
                reveal(p_or_rest);
                reveal(p_and);
            }
            self.bump();
            let rhs = self.parse_and()?;
            lhs = self.binary(start, BinaryOp::Or, lhs, rhs);
        }
        proof {
            self.lemma_top();
            reveal(p_or_rest);
        }
        Ok(lhs)
    }

    /// `and`: `not ("and" not)*`.
    #[verifier::rlimit(40)]
    fn parse_and(&mut self) -> (r: Result<Spanned<Expr>, ParseError>)
        ensures
            final(self).advanced_from(old(self)),
            r is Ok ==> final(self).toks@.len() < old(self).toks@.len(),
            r matches Ok(e) ==> expr_wf(e),
            expr_result(r, final(self).state(), p_and(old(self).state())),
        decreases level(*old(self)), old(self).toks@.len(), 18int,
    {
        proof {
            reveal(p_and);
            reveal(p_and_rest);
            reveal(p_not);
        }
        let ghost ps0 = self.state();
        let start = self.cur_start();
        let mut lhs = self.parse_not()?;
        while self.peek_ident_is("and")
            invariant
                self.advanced_from(old(self)),
                self.toks@.len() < old(self).toks@.len(),
                expr_wf(lhs),
                ps0 == old(self).state(),
                p_and(ps0) == p_and_rest(start, expr_view(lhs), self.state()),
            decreases self.toks@.len(),
        {
            proof {
                self.lemma_top();
                reveal(p_and_rest);
                reveal(p_not);
            }
            self.bump();
            let rhs = self.parse_not()?;
            lhs = self.binary(start, BinaryOp::And, lhs, rhs);
        }
        proof {
            self.lemma_top();
            reveal(p_and_rest);
        }
        Ok(lhs)
    }

    /// `not`: `"not" not | comparison` (`not` binds looser than comparisons).
    fn parse_not(&mut self) -> (r: Result<Spanned<Expr>, ParseError>)
        ensures
            final(self).advanced_from(old(self)),
            r is Ok ==> final(self).toks@.len() < old(self).toks@.len(),
            r matches Ok(e) ==> expr_wf(e),
            expr_result(r, final(self).state(), p_not(old(self).state())),
        decreases level(*old(self)), old(self).toks@.len(), 17int,
    {
        proof {
            reveal(p_not);
            reveal(p_comparison);
        }
        proof {
            self.lemma_top();
        }
        let start = self.cur_start();
        if self.peek_ident_is("not") {
            self.bump();
            let expr = self.parse_not()?;
            return Ok(self.spanned_from(start, Expr::Unary { op: UnaryOp::Not, expr: Box::new(expr) }));
        }
        self.parse_comparison()
    }

    fn parse_comparison(&mut self) -> (r: Result<Spanned<Expr>, ParseError>)
        ensures
            final(self).advanced_from(old(self)),
            r is Ok ==> final(self).toks@.len() < old(self).toks@.len(),
            r matches Ok(e) ==> expr_wf(e),
            expr_result(r, final(self).state(), p_comparison(old(self).state())),
        decreases level(*old(self)), old(self).toks@.len(), 16int,
    {
        proof {
            reveal(p_comparison);
            reveal(p_additive);
        }
        let start = self.cur_start();
        let lhs = self.parse_additive()?;
        proof {
            self.lemma_top();
            lemma_ops(self.top());
        }
        match comparison_op(self.peek_kind()) {
            Some(op) => {
                self.bump();
                let rhs = self.parse_additive()?;
                Ok(self.binary(start, op, lhs, rhs))
            },
            None => Ok(lhs),
        }
    }

    #[verifier::rlimit(40)]
    fn parse_additive(&mut self) -> (r: Result<Spanned<Expr>, ParseError>)
        ensures
            final(self).advanced_from(old(self)),
            r is Ok ==> final(self).toks@.len() < old(self).toks@.len(),
            r matches Ok(e) ==> expr_wf(e),
            expr_result(r, final(self).state(), p_additive(old(self).state())),
        decreases level(*old(self)), old(self).toks@.len(), 15int,
    {
        proof {
            reveal(p_additive);
            reveal(p_additive_rest);
            reveal(p_mul);
        }
        let ghost ps0 = self.state();
        let start = self.cur_start();
        let mut lhs = self.parse_mul()?;
        loop
            invariant
                self.advanced_from(old(self)),
                self.toks@.len() < old(self).toks@.len(),
                expr_wf(lhs),
                ps0 == old(self).state(),
                p_additive(ps0) == p_additive_rest(start, expr_view(lhs), self.state()),
            ensures
                add_op_v(ps_top(self.state())) is None,
            decreases self.toks@.len(),
        {
            proof {
                self.lemma_top();
                lemma_ops(self.top());
                reveal(p_additive_rest);
                reveal(p_mul);
            }
            match add_op(self.peek_kind()) {
                Some(op) => {
                    self.bump();
                    let rhs = self.parse_mul()?;
                    lhs = self.binary(start, op, lhs, rhs);
                },
                None => break ,
            }
        }
        Ok(lhs)
    }

    #[verifier::rlimit(40)]
    fn parse_mul(&mut self) -> (r: Result<Spanned<Expr>, ParseError>)
        ensures
            final(self).advanced_from(old(self)),
            r is Ok ==> final(self).toks@.len() < old(self).toks@.len(),
            r matches Ok(e) ==> expr_wf(e),
            expr_result(r, final(self).state(), p_mul(old(self).state())),
        decreases level(*old(self)), old(self).toks@.len(), 14int,
    {
        proof {
            reveal(p_mul);
            reveal(p_mul_rest);
            reveal(p_unary);
        }
        let ghost ps0 = self.state();
        let start = self.cur_start();
        let mut lhs = self.parse_unary()?;
        loop
            invariant
                self.advanced_from(old(self)),
                self.toks@.len() < old(self).toks@.len(),
                expr_wf(lhs),
                ps0 == old(self).state(),
                p_mul(ps0) == p_mul_rest(start, expr_view(lhs), self.state()),
            ensures
                mul_op_v(ps_top(self.state())) is None,
            decreases self.toks@.len(),
        {
            proof {
                self.lemma_top();
                lemma_ops(self.top());
                reveal(p_mul_rest);
                reveal(p_unary);
            }
            match mul_op(self.peek_kind()) {
                Some(op) => {
                    self.bump();
                    let rhs = self.parse_unary()?;
                    lhs = self.binary(start, op, lhs, rhs);
                },
                None => break ,
            }
        }
        Ok(lhs)
    }

    fn parse_unary(&mut self) -> (r: Result<Spanned<Expr>, ParseError>)
        ensures
            final(self).advanced_from(old(self)),
            r is Ok ==> final(self).toks@.len() < old(self).toks@.len(),
            r matches Ok(e) ==> expr_wf(e),
            expr_result(r, final(self).state(), p_unary(old(self).state())),
        decreases level(*old(self)), old(self).toks@.len(), 13int,
    {
        proof {
            reveal(p_unary);
            reveal(p_primary);
        }
        proof {
            self.lemma_top();
        }
        let start = self.cur_start();
        if self.peek_kind() == Kind::Minus {
            self.bump();
            let expr = self.parse_unary()?;
            return Ok(self.spanned_from(start, Expr::Unary { op: UnaryOp::Neg, expr: Box::new(expr) }));
        }
        self.parse_primary()
    }

    fn parse_primary(&mut self) -> (r: Result<Spanned<Expr>, ParseError>)
        ensures
            final(self).advanced_from(old(self)),
            r is Ok ==> final(self).toks@.len() < old(self).toks@.len(),
            r matches Ok(e) ==> expr_wf(e),
            expr_result(r, final(self).state(), p_primary(old(self).state())),
        decreases level(*old(self)), old(self).toks@.len(), 12int,
    {
        proof {
            self.lemma_top();
        }
        let k = self.peek_kind();
        if k == Kind::LBracket {
            return self.parse_list_literal();
        } else if k == Kind::LParen {
            return self.parse_paren();
        } else if k == Kind::Ident {
            return self.parse_name();
        } else if k == Kind::Str {
            return self.parse_string_literal();
        }
        proof {
            lemma_p_primary_atom(self.state());
        }
        let start = self.cur_start();
        let pe = self.prev_end;
        match self.bump() {
            Some(tok) => match tok.value {
                Token::Int(n) => Ok(self.spanned_from(start, Expr::Int(n))),
                Token::Float(f) => Ok(self.spanned_from(start, Expr::Float(f))),
                _ => Err(
                    ParseError {
                        kind: ParseErrorKind::UnexpectedToken {
                            expected: text("an expression"),
                            found: tok.value,
                        },
                        span: tok.span,
                    },
                ),
            },
            None => Err(
                ParseError {
                    kind: ParseErrorKind::UnexpectedToken {
                        expected: text("an expression"),
                        found: Token::Eof,
                    },
                    span: mk_span(pe, pe),
                },
            ),
        }
    }

    /// A list literal, from its `[`.
    fn parse_list_literal(&mut self) -> (r: Result<Spanned<Expr>, ParseError>)
        requires
            ps_top(old(self).state()) is LBracket,
        ensures
            final(self).advanced_from(old(self)),
            r is Ok ==> final(self).toks@.len() < old(self).toks@.len(),
            r matches Ok(e) ==> expr_wf(e),
            expr_result(r, final(self).state(), p_primary(old(self).state())),
        decreases level(*old(self)), old(self).toks@.len(), 11int,
    {
        proof {
            reveal(p_primary);
            reveal(p_list);
            self.lemma_top();
        }
        let start = self.cur_start();
        self.bump();
        let elems = self.parse_list()?;
        let e = self.spanned_from(start, Expr::List(elems));
        proof {
            match &e.value {
                Expr::List(xs) => {
                    assert(expr_view(e).value->List_0 =~= exprs_v(xs@));
                },
                _ => {},
            }
        }
        Ok(e)
    }

    /// A parenthesised expression, from its `(`.
    fn parse_paren(&mut self) -> (r: Result<Spanned<Expr>, ParseError>)
        requires
            ps_top(old(self).state()) is LParen,
        ensures
            final(self).advanced_from(old(self)),
            r is Ok ==> final(self).toks@.len() < old(self).toks@.len(),
            r matches Ok(e) ==> expr_wf(e),
            expr_result(r, final(self).state(), p_primary(old(self).state())),
        decreases level(*old(self)), old(self).toks@.len(), 11int,
    {
        proof {
            reveal(p_primary);
            reveal(p_expr);
            self.lemma_top();
        }
        self.bump();
        let e = self.parse_expr()?;
        self.expect_kind(Kind::RParen)?;
        Ok(e)
    }

    /// A call or a variable, from its name.
    fn parse_name(&mut self) -> (r: Result<Spanned<Expr>, ParseError>)
        requires
            ps_top(old(self).state()) is Ident,
        ensures
            final(self).advanced_from(old(self)),
            r is Ok ==> final(self).toks@.len() < old(self).toks@.len(),
            r matches Ok(e) ==> expr_wf(e),
            expr_result(r, final(self).state(), p_primary(old(self).state())),
        decreases level(*old(self)), old(self).toks@.len(), 11int,
    {
        proof {
            reveal(p_primary);
            reveal(p_args);
            self.lemma_top();
        }
        if self.peek_is_operator_keyword() {
            return Err(self.unexpected("an expression"));
        }
        let start = self.cur_start();
        let name = self.expect_ident()?;
        proof {
            self.lemma_top();
        }
        if self.peek_kind() == Kind::LParen {
            self.bump();
            let args = self.parse_args()?;
            let ghost av = args@;
            let e = self.spanned_from(start, Expr::Call(Call { callee: name, args }));
            proof {
                assert(e.value matches Expr::Call(c) && call_wf(c));
                match &e.value {
                    Expr::Call(c) => {
                        assert(c.args@ == av);
                        assert(crate::ast::call_view(*c).args =~= args_v(av));
                    },
                    _ => {},
                }
            }
            Ok(e)
        } else {
            Ok(self.spanned_from(start, Expr::Var(name)))
        }
    }

    /// A string literal, its interpolations parsed.
    fn parse_string_literal(&mut self) -> (r: Result<Spanned<Expr>, ParseError>)
        requires
            ps_top(old(self).state()) is Str,
        ensures
            final(self).advanced_from(old(self)),
            r is Ok ==> final(self).toks@.len() < old(self).toks@.len(),
            r matches Ok(e) ==> expr_wf(e),
            expr_result(r, final(self).state(), p_primary(old(self).state())),
        decreases level(*old(self)), old(self).toks@.len(), 11int,
    {
        proof {
            reveal(p_primary);
            reveal(p_parts);
            self.lemma_top();
        }
        if !self.allow_strings {
            // Interpolation bodies never hold a string literal.
            return Err(self.unexpected("an expression"));
        }
        let start = self.cur_start();
        let tok = self.bump();
        match tok {
            Some(Spanned { value: Token::String(segs), .. }) => {
                let parts = convert_str_segments(segs)?;
                let e = self.spanned_from(start, Expr::String(parts));
                proof {
                    match &e.value {
                        Expr::String(xs) => {
                            assert(expr_view(e).value->Str_0 =~= parts_v(xs@));
                        },
                        _ => {},
                    }
                }
                Ok(e)
            },
            _ => Err(self.unexpected("an expression")),
        }
    }

    /// The elements of a list literal after its `[`, through its `]`.
    #[verifier::rlimit(100)]
    fn parse_list(&mut self) -> (r: Result<Vec<Spanned<Expr>>, ParseError>)
        ensures
            final(self).advanced_from(old(self)),
            r matches Ok(xs) ==> forall|j: int| 0 <= j < xs@.len() ==> expr_wf(#[trigger] xs@[j]),
            match p_list(old(self).state()) {
                Ok((xs, ps)) => r matches Ok(v) && exprs_v(v@) == xs && final(self).state() == ps,
                Err(e) => r matches Err(x) && perr_view(x) == e,
            },
        decreases level(*old(self)), old(self).toks@.len(), 22int,
    {
        proof {
            reveal(p_list);
            reveal(p_list_items);
            self.lemma_top();
        }
        let ghost ps0 = self.state();
        let mut elems: Vec<Spanned<Expr>> = Vec::new();
        proof {
            assert(exprs_v(elems@) =~= Seq::<SExprV>::empty());
        }
        if self.peek_kind() != Kind::RBracket {
            loop
                invariant_except_break
                    p_list(ps0) == p_list_items(exprs_v(elems@), self.state()),
                invariant
                    self.advanced_from(old(self)),
                    ps0 == old(self).state(),
                    forall|j: int| 0 <= j < elems@.len() ==> expr_wf(#[trigger] elems@[j]),
                ensures
                    self.advanced_from(old(self)),
                    forall|j: int| 0 <= j < elems@.len() ==> expr_wf(#[trigger] elems@[j]),
                    ps_top(self.state()) is RBracket,
                    p_list(ps0) == Ok::<(Seq<SExprV>, PState), PErr>((exprs_v(elems@), ps_bump(self.state()))),
                decreases self.toks@.len(),
            {
                proof {
                    reveal(p_list_items);
                    reveal(p_expr);
                }
                let ghost s = self.state();
                let e = self.parse_expr()?;
                let ghost old_e = elems@;
                elems.push(e);
                proof {
                    self.lemma_top();
                    assert forall|j: int| 0 <= j < elems@.len() implies expr_wf(#[trigger] elems@[j]) by {
                        if j < old_e.len() {
                            assert(elems@[j] == old_e[j]);
                        }
                    }
                    assert(exprs_v(elems@) =~= exprs_v(old_e).push(expr_view(e)));
                }
                let k2 = self.peek_kind();
                if k2 == Kind::Comma {
                    self.bump();
                } else if k2 == Kind::RBracket {
                    break ;
                } else {
                    return Err(self.unexpected("`,` or `]`"));
                }
            }
        }
        proof {
            self.lemma_top();
            if elems@.len() == 0 {
                assert(exprs_v(elems@) =~= Seq::<SExprV>::empty());
            }
        }
        self.expect_kind(Kind::RBracket)?;
        Ok(elems)
    }

    #[verifier::rlimit(100)]
    fn parse_args(&mut self) -> (r: Result<Vec<Spanned<CallArg>>, ParseError>)
        ensures
            final(self).advanced_from(old(self)),
            r matches Ok(args) ==> args_ordered(args@) && forall|j: int|
                0 <= j < args@.len() ==> arg_wf(#[trigger] args@[j]),
            match p_args(old(self).state()) {
                Ok((xs, ps)) => r matches Ok(v) && args_v(v@) == xs && final(self).state() == ps,
                Err(e) => r matches Err(x) && perr_view(x) == e,
            },
        decreases level(*old(self)), old(self).toks@.len(), 22int,
    {
        proof {
            reveal(p_args);
            reveal(p_args_items);
            self.lemma_top();
        }
        let ghost ps0 = self.state();
        let mut args: Vec<Spanned<CallArg>> = Vec::new();
        let mut seen_named = false;
        proof {
            assert(args_v(args@) =~= Seq::<SArgV>::empty());
        }
        if self.peek_kind() == Kind::RParen {
            self.bump();
            return Ok(args);
        }
        loop
            invariant_except_break
                seen_named <==> exists|j: int| 0 <= j < args@.len() && (#[trigger] args@[j]).value is Named,
                p_args(ps0) == p_args_items(args_v(args@), seen_named, self.state()),
            invariant
                self.advanced_from(old(self)),
                ps0 == old(self).state(),
                args_ordered(args@),
                forall|j: int| 0 <= j < args@.len() ==> arg_wf(#[trigger] args@[j]),
            ensures
                self.advanced_from(old(self)),
                args_ordered(args@),
                forall|j: int| 0 <= j < args@.len() ==> arg_wf(#[trigger] args@[j]),
                p_args(ps0) == Ok::<(Seq<SArgV>, PState), PErr>((args_v(args@), self.state())),
            decreases self.toks@.len(),
        {
            proof {
                lemma_args_items(args_v(args@), seen_named, self.state());
            }
            let ghost s = self.state();
            let arg = self.parse_arg(seen_named)?;
            let ghost old_a = args@;
            let named = matches!(arg.value, CallArg::Named { .. });
            proof {
                lemma_args_push(old_a, arg, seen_named);
            }
            args.push(arg);
            proof {
                assert(args@ == old_a.push(args@.last()));
                assert(args_v(args@) =~= args_v(old_a).push(arg_view(args@.last())));
                self.lemma_top();
            }
            seen_named = seen_named || named;
            let k = self.peek_kind();
            if k == Kind::RParen {
                self.bump();
                break ;
            } else if k == Kind::Comma {
                self.bump();
            } else {
                return Err(self.unexpected("`,` or `)`"));
            }
        }
        Ok(args)
    }

    #[verifier::rlimit(100)]
    fn parse_arg(&mut self, seen_named: bool) -> (r: Result<Spanned<CallArg>, ParseError>)
        ensures
            final(self).advanced_from(old(self)),
            r is Ok ==> final(self).toks@.len() < old(self).toks@.len(),
            r matches Ok(a) ==> arg_wf(a) && (seen_named ==> a.value is Named),
            match p_arg(seen_named, old(self).state()) {
                Ok((a, ps)) => r matches Ok(x) && arg_view(x) == a && final(self).state() == ps,
                Err(e) => r matches Err(x) && perr_view(x) == e,
            },
        decreases level(*old(self)), old(self).toks@.len(), 21int,
    {
        proof {
            reveal(p_arg);
            reveal(p_expr);
            self.lemma_top();
        }
        let start = self.cur_start();
        // Named argument: `Ident = expr` (single equals; `==` is a comparison).
        let is_named = self.peek_kind() == Kind::Ident && self.peek_second_kind() == Some(
            Kind::Assign,
        );
        if is_named {
            let name = self.expect_ident()?;
            if operator_keyword(name.as_str()) {
                return Err(self.unexpected("a named-argument name"));
            }
            proof {
                self.lemma_top();
            }
            self.expect_kind(Kind::Assign)?;
            let value = self.parse_expr()?;
            let a = self.spanned_from(start, CallArg::Named { name, value: Box::new(value) });
            Ok(a)
        } else {
            if seen_named {
                let cs = self.cur_start();
                let end = if cs > start {
                    cs
                } else if start < usize::MAX {
                    start + 1
                } else {
                    start
                };
                return Err(ParseError { kind: ParseErrorKind::PositionalAfterNamed, span: mk_span(start, end) });
            }
            let e = self.parse_expr()?;
            Ok(self.spanned_from(start, CallArg::Positional(Box::new(e))))
        }
    }

}

// ---- free functions ----

/// The operator that a token kind stands for, at each precedence level.
spec fn cmp_op_k(k: Kind) -> Option<BinaryOp> {
    match k {
        Kind::Equal => Some(BinaryOp::Eq),
        Kind::NotEq => Some(BinaryOp::Ne),
        Kind::Lt => Some(BinaryOp::Lt),
        Kind::Gt => Some(BinaryOp::Gt),
        Kind::LtEq => Some(BinaryOp::Le),
        Kind::GtEq => Some(BinaryOp::Ge),
        _ => None,
    }
}

spec fn add_op_k(k: Kind) -> Option<BinaryOp> {
    match k {
        Kind::Plus => Some(BinaryOp::Add),
        Kind::Minus => Some(BinaryOp::Sub),
        _ => None,
    }
}

spec fn mul_op_k(k: Kind) -> Option<BinaryOp> {
    match k {
        Kind::Star => Some(BinaryOp::Mul),
        Kind::Slash => Some(BinaryOp::Div),
        _ => None,
    }
}

/// The operators of a token and of its kind agree.
proof fn lemma_ops(t: Token)
    ensures
        cmp_op_v(crate::lexer::token_view(t)) == cmp_op_k(kind_of(t)),
        add_op_v(crate::lexer::token_view(t)) == add_op_k(kind_of(t)),
        mul_op_v(crate::lexer::token_view(t)) == mul_op_k(kind_of(t)),
{
}

fn comparison_op(k: Kind) -> (r: Option<BinaryOp>)
    ensures
        r == cmp_op_k(k),
{
    match k {
        Kind::Equal => Some(BinaryOp::Eq),
        Kind::NotEq => Some(BinaryOp::Ne),
        Kind::Lt => Some(BinaryOp::Lt),
        Kind::Gt => Some(BinaryOp::Gt),
        Kind::LtEq => Some(BinaryOp::Le),
        Kind::GtEq => Some(BinaryOp::Ge),
        _ => None,
    }
}

fn add_op(k: Kind) -> (r: Option<BinaryOp>)
    ensures
        r == add_op_k(k),
{
    match k {
        Kind::Plus => Some(BinaryOp::Add),
        Kind::Minus => Some(BinaryOp::Sub),
        _ => None,
    }
}

fn mul_op(k: Kind) -> (r: Option<BinaryOp>)
    ensures
        r == mul_op_k(k),
{
    match k {
        Kind::Star => Some(BinaryOp::Mul),
        Kind::Slash => Some(BinaryOp::Div),
        _ => None,
    }
}

/// Convert lexer string segments into AST parts, parsing each interpolation's
/// inner text as an expression whose spans are shifted back to global source
/// coordinates.
/// The models of a sequence of expressions, arguments or string parts.
spec fn exprs_v(xs: Seq<Spanned<Expr>>) -> Seq<SExprV> {
    Seq::new(xs.len(), |i: int| expr_view(xs[i]))
}

spec fn args_v(xs: Seq<Spanned<CallArg>>) -> Seq<SArgV> {
    Seq::new(xs.len(), |i: int| arg_view(xs[i]))
}

spec fn parts_v(xs: Seq<StringPart>) -> Seq<PartV> {
    Seq::new(xs.len(), |i: int| part_view(xs[i]))
}

/// Appending an argument keeps the arguments well formed and ordered
/// (positional before named), given that a positional one is only
/// appended while none is named.
proof fn lemma_args_push(old_a: Seq<Spanned<CallArg>>, a: Spanned<CallArg>, seen: bool)
    requires
        args_ordered(old_a),
        forall|j: int| 0 <= j < old_a.len() ==> arg_wf(#[trigger] old_a[j]),
        seen <==> exists|j: int| 0 <= j < old_a.len() && (#[trigger] old_a[j]).value is Named,
        arg_wf(a),
        seen ==> a.value is Named,
    ensures
        args_ordered(old_a.push(a)),
        forall|j: int| 0 <= j < old_a.push(a).len() ==> arg_wf(#[trigger] old_a.push(a)[j]),
        (seen || a.value is Named) <==> exists|j: int|
            0 <= j < old_a.push(a).len() && (#[trigger] old_a.push(a)[j]).value is Named,
{
    let args = old_a.push(a);
    assert forall|j: int| 0 <= j < args.len() implies arg_wf(#[trigger] args[j]) by {
        if j < old_a.len() {
            assert(args[j] == old_a[j]);
        }
    }
    assert forall|x: int, y: int|
        0 <= x < y < args.len() && (#[trigger] args[x]).value is Named implies (#[trigger] args[y]).value is Named by {
        if y < old_a.len() {
            assert(args[x] == old_a[x]);
            assert(args[y] == old_a[y]);
        } else {
            assert(args[x] == old_a[x]);
        }
    }
    if a.value is Named {
        assert(args[old_a.len() as int].value is Named);
    } else if !seen {
        assert forall|j: int| 0 <= j < args.len() implies !((#[trigger] args[j]).value is Named) by {
            if j < old_a.len() {
                assert(args[j] == old_a[j]);
            }
        }
    } else {
        let w = choose|j: int| 0 <= j < old_a.len() && (#[trigger] old_a[j]).value is Named;
        assert(args[w] == old_a[w]);
    }
}

/// A primary expression that is a number, or none at all.
proof fn lemma_p_primary_atom(ps: PState)
    requires
        !(ps_top(ps) is LBracket || ps_top(ps) is LParen || ps_top(ps) is Ident || ps_top(ps) is Str),
    ensures
        p_primary(ps) == match ps_top(ps) {
            TokenV::Int(n) => Ok((SExprV { value: ExprV::Int(n), span: ps_span(ps_bump(ps), ps_start(ps)) }, ps_bump(ps))),
            TokenV::Float(f) => Ok(
                (SExprV { value: ExprV::Float(f), span: ps_span(ps_bump(ps), ps_start(ps)) }, ps_bump(ps)),
            ),
            _ => Err(p_found(ps, "an expression"@)),
        },
{
    reveal(p_primary);
}

/// One step of the argument list.
proof fn lemma_args_items(acc: Seq<SArgV>, seen_named: bool, ps: PState)
    ensures
        p_args_items(acc, seen_named, ps) == match p_arg(seen_named, ps) {
            Err(err) => Err(err),
            Ok((a, ps1)) => if !consumed(ps1, ps, true) {
                Err(stuck(ps))
            } else if ps_top(ps1) is RParen {
                Ok((acc.push(a), ps_bump(ps1)))
            } else if ps_top(ps1) is Comma {
                p_args_items(acc.push(a), seen_named || a.value is Named, ps_bump(ps1))
            } else {
                Err(p_unexpected(ps1, "`,` or `)`"@))
            },
        },
{
    reveal(p_args_items);
    reveal(p_arg);
}

/// Once a prefix of the segments fails to parse, the whole fails with the
/// same error.
proof fn lemma_parts_err(segs: Seq<(SegV, Span)>, i: int)
    requires
        0 <= i <= segs.len(),
        p_parts(segs.take(i)) is Err,
    ensures
        p_parts(segs) == p_parts(segs.take(i)),
    decreases segs.len(),
{
    reveal(p_parts);
    reveal(p_interp);
    if i == segs.len() {
        assert(segs.take(i) =~= segs);
    } else {
        assert(segs.drop_last().take(i) =~= segs.take(i));
        lemma_parts_err(segs.drop_last(), i);
    }
}

fn convert_str_segments(segs: Vec<Spanned<StringSegment>>) -> (r: Result<Vec<StringPart>, ParseError>)
    ensures
        r matches Ok(parts) ==> forall|k: int| 0 <= k < parts@.len() ==> part_wf(#[trigger] parts@[k]),
        match p_parts(crate::lexer::segs_view(segs@)) {
            Ok(ps) => r matches Ok(parts) && parts_v(parts@) == ps,
            Err(e) => r matches Err(x) && perr_view(x) == e,
        },
    decreases 1int, 0int, 1int,
{
    let ghost sv = crate::lexer::segs_view(segs@);
    let mut out: Vec<StringPart> = Vec::new();
    proof {
        reveal(p_parts);
        assert(sv.take(0) =~= Seq::<(SegV, Span)>::empty());
        assert(parts_v(out@) =~= Seq::<PartV>::empty());
    }
    let mut i: usize = 0;
    while i < segs.len()
        invariant
            i <= segs.len(),
            sv == crate::lexer::segs_view(segs@),
            forall|k: int| 0 <= k < out@.len() ==> part_wf(#[trigger] out@[k]),
            p_parts(sv.take(i as int)) == Ok::<Seq<PartV>, PErr>(parts_v(out@)),
        decreases segs.len() - i,
    {
        let ghost old_o = out@;
        proof {
            reveal(p_parts);
            reveal(p_interp);
            assert(sv.take(i + 1).drop_last() =~= sv.take(i as int));
            assert(sv.take(i + 1).last() == sv[i as int]);
        }
        match &segs[i].value {
            StringSegment::Literal(s) => {
                out.push(StringPart::Literal(s.clone()));
            },
            StringSegment::Interpolation(src) => {
                // The segment span covers `{...}`; the inner source range
                // starts one byte past the opening brace.
                let offset = segs[i].span.start.saturating_add(1);
                match parse_interp_expr(src.as_str(), offset) {
                    Ok(expr) => {
                        out.push(StringPart::Interpolation(Box::new(expr)));
                    },
                    Err(e) => {
                        proof {
                            lemma_parts_err(sv, i + 1);
                        }
                        return Err(e);
                    },
                }
            },
        }
        proof {
            assert(parts_v(out@) =~= parts_v(old_o).push(part_view(out@.last())));
            assert forall|k: int| 0 <= k < out@.len() implies part_wf(#[trigger] out@[k]) by {
                if k < old_o.len() {
                    assert(out@[k] == old_o[k]);
                }
            }
        }
        i = i + 1;
    }
    proof {
        assert(sv.take(i as int) =~= sv);
    }
    Ok(out)
}

/// `toks` with every span shifted by `offset`.
fn shift_tokens(toks: Vec<Spanned<Token>>, offset: usize) -> (shifted: Vec<Spanned<Token>>)
    ensures
        crate::lexer::toks_view(shifted@) == Seq::new(
            crate::lexer::toks_view(toks@).len(),
            |i: int| (crate::lexer::toks_view(toks@)[i].0, shift_span(crate::lexer::toks_view(toks@)[i].1, offset)),
        ),
{
    let ghost t0 = toks@;
    let n = toks.len();
    // Shift the tokens to global coordinates.
    let mut toks = toks;
    let mut rev: Vec<Spanned<Token>> = Vec::new();
    while toks.len() > 0
        invariant
            toks.len() + rev.len() == n,
            n == t0.len(),
            toks@ == t0.take(toks@.len() as int),
            forall|j: int|
                0 <= j < rev@.len() ==> (#[trigger] rev@[j]).value == t0[n - 1 - j].value
                    && rev@[j].span == shift_span(t0[n - 1 - j].span, offset),
        decreases toks.len(),
    {
        let t = toks.pop().unwrap();
        proof {
            assert(toks@ =~= t0.take(toks@.len() as int));
        }
        rev.push(Spanned { value: t.value, span: offset_span(t.span, offset) });
    }
    let mut shifted: Vec<Spanned<Token>> = Vec::new();
    while rev.len() > 0
        invariant
            shifted.len() + rev.len() == n,
            n == t0.len(),
            forall|j: int|
                0 <= j < rev@.len() ==> (#[trigger] rev@[j]).value == t0[n - 1 - j].value
                    && rev@[j].span == shift_span(t0[n - 1 - j].span, offset),
            forall|j: int|
                0 <= j < shifted@.len() ==> (#[trigger] shifted@[j]).value == t0[j].value
                    && shifted@[j].span == shift_span(t0[j].span, offset),
        decreases rev.len(),
    {
        shifted.push(rev.pop().unwrap());
    }
    proof {
        let ts = crate::lexer::toks_view(t0);
        assert(crate::lexer::toks_view(shifted@) =~= Seq::new(
            ts.len(),
            |i: int| (ts[i].0, shift_span(ts[i].1, offset)),
        ));
    }
    shifted
}

/// Parse the contents of a `{ ... }` interpolation as a single expression.
/// `offset` is the byte offset of the interpolation body in the source: the
/// body's tokens are shifted by it, so every span lands on global source
/// coordinates.
#[verifier::rlimit(100)]
fn parse_interp_expr(src: &str, offset: usize) -> (r: Result<Spanned<Expr>, ParseError>)
    ensures
        r matches Ok(e) ==> expr_wf(e),
        match p_interp(src@, offset) {
            Ok(e) => r matches Ok(x) && expr_view(x) == e,
            Err(e) => r matches Err(x) && perr_view(x) == e,
        },
    decreases 1int, 0int, 0int,
{
    proof {
        reveal(p_interp);
        reveal(p_expr);
    }
    let toks = match tokenize(src) {
        Ok(t) => t,
        Err(e) => {
            let span = offset_span(e.span, offset);
            return Err(ParseError { kind: ParseErrorKind::Lex(e), span });
        },
    };
    let shifted = shift_tokens(toks, offset);
    let mut p = Parser::new(shifted);
    p.allow_strings = false;

    let e = p.parse_expr()?;
    // The interpolation must contain exactly one expression.
    let k = p.peek_kind();
    if k == Kind::Eof || k == Kind::Newline {
        Ok(e)
    } else {
        Err(p.unexpected("end of interpolation"))
    }
}

/// Shift a span by `offset` (saturating at the top of the address space,
/// which no source text reaches).
pub fn offset_span(span: Span, offset: usize) -> (r: Span)
    ensures
        span_ok(span) ==> span_ok(r),
        r.start == if span.start + offset <= usize::MAX {
            (span.start + offset) as usize
        } else {
            usize::MAX
        },
        r.end == if span.end + offset <= usize::MAX {
            (span.end + offset) as usize
        } else {
            usize::MAX
        },
{
    mk_span(span.start.saturating_add(offset), span.end.saturating_add(offset))
}


// ---- the parser as a function of the tokens ----

/// The parser's state: the tokens not yet consumed (the next one last), where
/// the last consumed token ended, and whether string literals may occur.
pub struct PState {
    pub toks: Seq<(TokenV, Span)>,
    pub prev_end: usize,
    pub strings: bool,
}

/// The state after `b` consumed tokens from `a` (at least one, if `strict`).
pub open spec fn consumed(b: PState, a: PState, strict: bool) -> bool {
    &&& b.strings == a.strings
    &&& if strict {
        b.toks.len() < a.toks.len()
    } else {
        b.toks.len() <= a.toks.len()
    }
}

/// The first part of the grammar's termination measure: an interpolation
/// body (no strings) sits below the text around it.
pub open spec fn lvl(ps: PState) -> int {
    if ps.strings {
        2
    } else {
        0
    }
}

/// The next token, `Eof` once none is left.
pub open spec fn ps_top(ps: PState) -> TokenV {
    if ps.toks.len() > 0 {
        ps.toks.last().0
    } else {
        TokenV::Eof
    }
}

/// The token after the next one.
pub open spec fn ps_second(ps: PState) -> Option<TokenV> {
    if ps.toks.len() > 1 {
        Some(ps.toks[ps.toks.len() - 2].0)
    } else {
        None
    }
}

/// The state after consuming the next token.
pub open spec fn ps_bump(ps: PState) -> PState {
    if ps.toks.len() > 0 {
        PState { toks: ps.toks.drop_last(), prev_end: ps.toks.last().1.end, strings: ps.strings }
    } else {
        ps
    }
}

/// Where the next token starts (where the last one ended, at the end).
pub open spec fn ps_start(ps: PState) -> usize {
    if ps.toks.len() > 0 {
        ps.toks.last().1.start
    } else {
        ps.prev_end
    }
}

/// The span from `start` to the end of the last consumed token.
pub open spec fn ps_span(ps: PState, start: usize) -> Span {
    spec_span(
        start,
        if ps.prev_end > start {
            ps.prev_end
        } else {
            start
        },
    )
}

/// Whether `t` is the identifier `kw`.
pub open spec fn is_kw(t: TokenV, kw: Seq<char>) -> bool {
    t matches TokenV::Ident(s) && s == kw
}

/// Whether `t` ends a block.
pub open spec fn is_terminator_v(t: TokenV) -> bool {
    is_kw(t, "end"@) || is_kw(t, "else"@) || is_kw(t, "elseif"@) || is_kw(t, "until"@)
}

/// The model of a parse error's kind, with texts as character sequences.
pub enum PErrKindV {
    Unexpected { expected: Seq<char>, found: TokenV },
    UnexpectedEof { expected: Seq<char> },
    PositionalAfterNamed,
    Lex((crate::lexer::LexErrKindV, Span)),
}

/// The model of a parse error: its kind and its span.
pub struct PErr {
    pub kind: PErrKindV,
    pub span: Span,
}

/// The model of a parse error.
pub open spec fn perr_view(e: ParseError) -> PErr {
    PErr {
        kind: match e.kind {
            ParseErrorKind::Lex(le) => PErrKindV::Lex(crate::lexer::lex_err_view(le)),
            ParseErrorKind::UnexpectedToken { expected, found } => PErrKindV::Unexpected {
                expected: expected@,
                found: crate::lexer::token_view(found),
            },
            ParseErrorKind::UnexpectedEof { expected } => PErrKindV::UnexpectedEof { expected: expected@ },
            ParseErrorKind::PositionalAfterNamed => PErrKindV::PositionalAfterNamed,
        },
        span: e.span,
    }
}

/// Where the next token is: its span, or an empty span where the last
/// consumed token ended.
pub open spec fn ps_here(ps: PState) -> Span {
    if ps.toks.len() > 0 {
        ps.toks.last().1
    } else {
        spec_span(ps.prev_end, ps.prev_end)
    }
}

/// The error for an unexpected next token where `expected` was expected, or
/// for the end of input.
pub open spec fn p_unexpected(ps: PState, expected: Seq<char>) -> PErr {
    if ps.toks.len() > 0 {
        PErr { kind: PErrKindV::Unexpected { expected, found: ps_top(ps) }, span: ps_here(ps) }
    } else {
        PErr { kind: PErrKindV::UnexpectedEof { expected }, span: ps_here(ps) }
    }
}

/// The error that names the next token (`Eof` at the end of input) where
/// `expected` was expected.
pub open spec fn p_found(ps: PState, expected: Seq<char>) -> PErr {
    PErr { kind: PErrKindV::Unexpected { expected, found: ps_top(ps) }, span: ps_here(ps) }
}

/// A text between backticks.
pub open spec fn quoted(s: Seq<char>) -> Seq<char> {
    seq!['`'] + s + seq!['`']
}

/// How an expected punctuation token is named in errors.
pub open spec fn expect_name(t: TokenV) -> Seq<char> {
    match t {
        TokenV::At => "`@`"@,
        TokenV::Assign => "`=`"@,
        TokenV::LParen => "`(`"@,
        TokenV::RParen => "`)`"@,
        _ => "`]`"@,
    }
}

/// The error of a case that cannot occur: a construct that consumed no
/// token where its grammar makes it consume one.
pub open spec fn stuck(ps: PState) -> PErr {
    p_unexpected(ps, Seq::empty())
}

/// Consume a token equal to `k`.
pub open spec fn p_expect(ps: PState, k: TokenV) -> Result<PState, PErr> {
    if ps.toks.len() > 0 && ps_top(ps) == k {
        Ok(ps_bump(ps))
    } else {
        Err(p_unexpected(ps, quoted(expect_name(k))))
    }
}

/// Consume the keyword `kw`.
pub open spec fn p_keyword(ps: PState, kw: Seq<char>) -> Result<PState, PErr> {
    if is_kw(ps_top(ps), kw) {
        Ok(ps_bump(ps))
    } else {
        Err(p_unexpected(ps, quoted(kw)))
    }
}

/// Consume an identifier.
pub open spec fn p_ident(ps: PState) -> Result<(Seq<char>, PState), PErr> {
    match ps_top(ps) {
        TokenV::Ident(s) => Ok((s, ps_bump(ps))),
        _ => Err(p_found(ps, "identifier"@)),
    }
}

/// A statement separator: a newline (consumed), the end of input or a block
/// terminator (left for the enclosing construct).
pub open spec fn p_sep(ps: PState) -> Result<PState, PErr> {
    if ps_top(ps) is Newline {
        Ok(ps_bump(ps))
    } else if ps_top(ps) is Eof || is_terminator_v(ps_top(ps)) {
        Ok(ps)
    } else {
        Err(p_unexpected(ps, "end of statement (newline)"@))
    }
}

/// The state after any newlines.
pub open spec fn skip_newlines(ps: PState) -> PState
    decreases ps.toks.len(),
{
    if ps.toks.len() > 0 && ps_top(ps) is Newline {
        skip_newlines(ps_bump(ps))
    } else {
        ps
    }
}

/// A binary expression from `start` to the last consumed token.
pub open spec fn binary_v(ps: PState, start: usize, op: BinaryOp, l: SExprV, r: SExprV) -> SExprV {
    SExprV { value: ExprV::Binary { op, lhs: Box::new(l), rhs: Box::new(r) }, span: ps_span(ps, start) }
}

/// The operator a token stands for, at each precedence level.
pub open spec fn cmp_op_v(t: TokenV) -> Option<BinaryOp> {
    match t {
        TokenV::Equal => Some(BinaryOp::Eq),
        TokenV::NotEq => Some(BinaryOp::Ne),
        TokenV::Lt => Some(BinaryOp::Lt),
        TokenV::Gt => Some(BinaryOp::Gt),
        TokenV::LtEq => Some(BinaryOp::Le),
        TokenV::GtEq => Some(BinaryOp::Ge),
        _ => None,
    }
}

pub open spec fn add_op_v(t: TokenV) -> Option<BinaryOp> {
    match t {
        TokenV::Plus => Some(BinaryOp::Add),
        TokenV::Minus => Some(BinaryOp::Sub),
        _ => None,
    }
}

pub open spec fn mul_op_v(t: TokenV) -> Option<BinaryOp> {
    match t {
        TokenV::Star => Some(BinaryOp::Mul),
        TokenV::Slash => Some(BinaryOp::Div),
        _ => None,
    }
}

/// A span shifted by `offset`, saturating.
pub open spec fn shift_span(sp: Span, offset: usize) -> Span {
    spec_span(
        if sp.start + offset <= usize::MAX {
            (sp.start + offset) as usize
        } else {
            usize::MAX
        },
        if sp.end + offset <= usize::MAX {
            (sp.end + offset) as usize
        } else {
            usize::MAX
        },
    )
}

/// A parser over tokens in source order.
pub open spec fn ps_init(ts: Seq<(TokenV, Span)>, strings: bool) -> PState {
    PState {
        toks: ts.reverse(),
        prev_end: if ts.len() > 0 {
            ts.last().1.end
        } else {
            0
        },
        strings,
    }
}

/// An interpolation body, parsed as exactly one expression, its spans
/// shifted by `offset` into the enclosing source.
#[verifier::opaque]
pub open spec fn p_interp(src: Seq<char>, offset: usize) -> Result<SExprV, PErr>
    decreases 1int, 0int, 0int,
{
    match crate::lexer::spec_tokenize(src) {
        Err(le) => Err(PErr { kind: PErrKindV::Lex(le), span: shift_span(le.1, offset) }),
        Ok(ts) => {
            let shifted = Seq::new(ts.len(), |i: int| (ts[i].0, shift_span(ts[i].1, offset)));
            match p_expr(ps_init(shifted, false)) {
                Err(err) => Err(err),
                Ok((e, ps)) => if ps_top(ps) is Eof || ps_top(ps) is Newline {
                    Ok(e)
                } else {
                    Err(p_unexpected(ps, "end of interpolation"@))
                },
            }
        },
    }
}

/// The parts of a string literal: its literal runs, and its
/// interpolations parsed (the body starts one byte past the brace).
#[verifier::opaque]
pub open spec fn p_parts(segs: Seq<(SegV, Span)>) -> Result<Seq<PartV>, PErr>
    decreases 1int, segs.len(), 1int,
{
    if segs.len() == 0 {
        Ok(Seq::empty())
    } else {
        match p_parts(segs.drop_last()) {
            Err(err) => Err(err),
            Ok(ps) => match segs.last().0 {
                SegV::Literal(t) => Ok(ps.push(PartV::Literal(t))),
                SegV::Interpolation(src) => {
                    let offset = if segs.last().1.start + 1 <= usize::MAX {
                        (segs.last().1.start + 1) as usize
                    } else {
                        usize::MAX
                    };
                    match p_interp(src, offset) {
                        Err(err) => Err(err),
                        Ok(e) => Ok(ps.push(PartV::Interpolation(Box::new(e)))),
                    }
                },
            },
        }
    }
}

/// An expression.
#[verifier::opaque]
pub open spec fn p_expr(ps: PState) -> Result<(SExprV, PState), PErr>
    decreases lvl(ps), ps.toks.len(), 20int,
{
    p_or(ps)
}

/// `or` (lowest precedence): `and ("or" and)*`, left-associative.
#[verifier::opaque]
pub open spec fn p_or(ps: PState) -> Result<(SExprV, PState), PErr>
    decreases lvl(ps), ps.toks.len(), 19int,
{
    match p_and(ps) {
        Err(err) => Err(err),
        Ok((lhs, ps1)) => if consumed(ps1, ps, true) {
            p_or_rest(ps_start(ps), lhs, ps1)
        } else {
            Err(stuck(ps))
        },
    }
}

/// The `or` operands after the first, folded to the left onto `lhs`.
#[verifier::opaque]
pub open spec fn p_or_rest(start: usize, lhs: SExprV, ps: PState) -> Result<(SExprV, PState), PErr>
    decreases lvl(ps), ps.toks.len(), 19int,
{
    if is_kw(ps_top(ps), "or"@) {
        match p_and(ps_bump(ps)) {
            Err(err) => Err(err),
            Ok((rhs, ps2)) => if consumed(ps2, ps, true) {
                p_or_rest(start, binary_v(ps2, start, BinaryOp::Or, lhs, rhs), ps2)
            } else {
                Err(stuck(ps))
            },
        }
    } else {
        Ok((lhs, ps))
    }
}

/// `and`: `not ("and" not)*`, left-associative.
#[verifier::opaque]
pub open spec fn p_and(ps: PState) -> Result<(SExprV, PState), PErr>
    decreases lvl(ps), ps.toks.len(), 18int,
{
    match p_not(ps) {
        Err(err) => Err(err),
        Ok((lhs, ps1)) => if consumed(ps1, ps, true) {
            p_and_rest(ps_start(ps), lhs, ps1)
        } else {
            Err(stuck(ps))
        },
    }
}

/// The `and` operands after the first, folded to the left onto `lhs`.
#[verifier::opaque]
pub open spec fn p_and_rest(start: usize, lhs: SExprV, ps: PState) -> Result<(SExprV, PState), PErr>
    decreases lvl(ps), ps.toks.len(), 18int,
{
    if is_kw(ps_top(ps), "and"@) {
        match p_not(ps_bump(ps)) {
            Err(err) => Err(err),
            Ok((rhs, ps2)) => if consumed(ps2, ps, true) {
                p_and_rest(start, binary_v(ps2, start, BinaryOp::And, lhs, rhs), ps2)
            } else {
                Err(stuck(ps))
            },
        }
    } else {
        Ok((lhs, ps))
    }
}

/// `not`: `"not" not | comparison`.
#[verifier::opaque]
pub open spec fn p_not(ps: PState) -> Result<(SExprV, PState), PErr>
    decreases lvl(ps), ps.toks.len(), 17int,
{
    if is_kw(ps_top(ps), "not"@) {
        match p_not(ps_bump(ps)) {
            Err(err) => Err(err),
            Ok((e, ps2)) => Ok(
                (
                    SExprV { value: ExprV::Unary { op: UnaryOp::Not, expr: Box::new(e) }, span: ps_span(ps2, ps_start(ps)) },
                    ps2,
                ),
            ),
        }
    } else {
        p_comparison(ps)
    }
}

/// `comparison`: `additive (op additive)?` — comparisons do not chain.
#[verifier::opaque]
pub open spec fn p_comparison(ps: PState) -> Result<(SExprV, PState), PErr>
    decreases lvl(ps), ps.toks.len(), 16int,
{
    match p_additive(ps) {
        Err(err) => Err(err),
        Ok((lhs, ps1)) => match cmp_op_v(ps_top(ps1)) {
            None => Ok((lhs, ps1)),
            Some(op) => if consumed(ps1, ps, true) {
                match p_additive(ps_bump(ps1)) {
                    Err(err) => Err(err),
                    Ok((rhs, ps2)) => Ok((binary_v(ps2, ps_start(ps), op, lhs, rhs), ps2)),
                }
            } else {
                Err(stuck(ps))
            },
        },
    }
}

/// `additive`: `mul (("+" | "-") mul)*`, left-associative.
#[verifier::opaque]
pub open spec fn p_additive(ps: PState) -> Result<(SExprV, PState), PErr>
    decreases lvl(ps), ps.toks.len(), 15int,
{
    match p_mul(ps) {
        Err(err) => Err(err),
        Ok((lhs, ps1)) => if consumed(ps1, ps, true) {
            p_additive_rest(ps_start(ps), lhs, ps1)
        } else {
            Err(stuck(ps))
        },
    }
}

/// The `+`/`-` operands after the first, folded to the left onto `lhs`.
#[verifier::opaque]
pub open spec fn p_additive_rest(start: usize, lhs: SExprV, ps: PState) -> Result<(SExprV, PState), PErr>
    decreases lvl(ps), ps.toks.len(), 15int,
{
    match add_op_v(ps_top(ps)) {
        None => Ok((lhs, ps)),
        Some(op) => match p_mul(ps_bump(ps)) {
            Err(err) => Err(err),
            Ok((rhs, ps2)) => if consumed(ps2, ps, true) {
                p_additive_rest(start, binary_v(ps2, start, op, lhs, rhs), ps2)
            } else {
                Err(stuck(ps))
            },
        },
    }
}

/// `mul`: `unary (("*" | "/") unary)*`, left-associative.
#[verifier::opaque]
pub open spec fn p_mul(ps: PState) -> Result<(SExprV, PState), PErr>
    decreases lvl(ps), ps.toks.len(), 14int,
{
    match p_unary(ps) {
        Err(err) => Err(err),
        Ok((lhs, ps1)) => if consumed(ps1, ps, true) {
            p_mul_rest(ps_start(ps), lhs, ps1)
        } else {
            Err(stuck(ps))
        },
    }
}

/// The `*`/`/` operands after the first, folded to the left onto `lhs`.
#[verifier::opaque]
pub open spec fn p_mul_rest(start: usize, lhs: SExprV, ps: PState) -> Result<(SExprV, PState), PErr>
    decreases lvl(ps), ps.toks.len(), 14int,
{
    match mul_op_v(ps_top(ps)) {
        None => Ok((lhs, ps)),
        Some(op) => match p_unary(ps_bump(ps)) {
            Err(err) => Err(err),
            Ok((rhs, ps2)) => if consumed(ps2, ps, true) {
                p_mul_rest(start, binary_v(ps2, start, op, lhs, rhs), ps2)
            } else {
                Err(stuck(ps))
            },
        },
    }
}

/// `unary`: `"-" unary | primary`.
#[verifier::opaque]
pub open spec fn p_unary(ps: PState) -> Result<(SExprV, PState), PErr>
    decreases lvl(ps), ps.toks.len(), 13int,
{
    if ps_top(ps) is Minus {
        match p_unary(ps_bump(ps)) {
            Err(err) => Err(err),
            Ok((e, ps2)) => Ok(
                (
                    SExprV { value: ExprV::Unary { op: UnaryOp::Neg, expr: Box::new(e) }, span: ps_span(ps2, ps_start(ps)) },
                    ps2,
                ),
            ),
        }
    } else {
        p_primary(ps)
    }
}

/// `primary`: a number, a string, a list, a parenthesised expression, a
/// call or a variable; word operators are not variables, and an
/// interpolation body holds no string literal.
#[verifier::opaque]
pub open spec fn p_primary(ps: PState) -> Result<(SExprV, PState), PErr>
    decreases lvl(ps), ps.toks.len(), 12int,
{
    let start = ps_start(ps);
    let ps1 = ps_bump(ps);
    match ps_top(ps) {
        TokenV::Int(n) => Ok((SExprV { value: ExprV::Int(n), span: ps_span(ps1, start) }, ps1)),
        TokenV::Float(f) => Ok((SExprV { value: ExprV::Float(f), span: ps_span(ps1, start) }, ps1)),
        TokenV::Str(segs) => if !ps.strings {
            Err(p_unexpected(ps, "an expression"@))
        } else {
            match p_parts(segs) {
                Err(err) => Err(err),
                Ok(parts) => Ok((SExprV { value: ExprV::Str(parts), span: ps_span(ps1, start) }, ps1)),
            }
        },
        TokenV::LBracket => match p_list(ps1) {
            Err(err) => Err(err),
            Ok((elems, ps2)) => Ok((SExprV { value: ExprV::List(elems), span: ps_span(ps2, start) }, ps2)),
        },
        TokenV::LParen => match p_expr(ps1) {
            Err(err) => Err(err),
            Ok((e, ps2)) => match p_expect(ps2, TokenV::RParen) {
                Err(err) => Err(err),
                Ok(ps3) => Ok((e, ps3)),
            },
        },
        TokenV::Ident(name) => if is_operator_keyword(name) {
            Err(p_unexpected(ps, "an expression"@))
        } else if ps_top(ps1) is LParen {
            match p_args(ps_bump(ps1)) {
                Err(err) => Err(err),
                Ok((args, ps2)) => Ok(
                    (SExprV { value: ExprV::Call(CallV { callee: name, args }), span: ps_span(ps2, start) }, ps2),
                ),
            }
        } else {
            Ok((SExprV { value: ExprV::Var(name), span: ps_span(ps1, start) }, ps1))
        },
        _ => Err(p_found(ps, "an expression"@)),
    }
}

/// The elements of a list literal after its `[`, and the state after its `]`.
#[verifier::opaque]
pub open spec fn p_list(ps: PState) -> Result<(Seq<SExprV>, PState), PErr>
    decreases lvl(ps), ps.toks.len(), 22int,
{
    if ps_top(ps) is RBracket {
        match p_expect(ps, TokenV::RBracket) {
            Err(err) => Err(err),
            Ok(ps1) => Ok((Seq::empty(), ps1)),
        }
    } else {
        p_list_items(Seq::empty(), ps)
    }
}

/// The elements of a list after those in `acc`, through its `]`.
#[verifier::opaque]
pub open spec fn p_list_items(acc: Seq<SExprV>, ps: PState) -> Result<(Seq<SExprV>, PState), PErr>
    decreases lvl(ps), ps.toks.len(), 21int,
{
    match p_expr(ps) {
        Err(err) => Err(err),
        Ok((e, ps1)) => if !consumed(ps1, ps, true) {
            Err(stuck(ps))
        } else if ps_top(ps1) is Comma {
            p_list_items(acc.push(e), ps_bump(ps1))
        } else if ps_top(ps1) is RBracket {
            Ok((acc.push(e), ps_bump(ps1)))
        } else {
            Err(p_unexpected(ps1, "`,` or `]`"@))
        },
    }
}

/// The arguments of a call after its `(`, and the state after its `)`.
#[verifier::opaque]
pub open spec fn p_args(ps: PState) -> Result<(Seq<SArgV>, PState), PErr>
    decreases lvl(ps), ps.toks.len(), 23int,
{
    if ps_top(ps) is RParen {
        Ok((Seq::empty(), ps_bump(ps)))
    } else {
        p_args_items(Seq::empty(), false, ps)
    }
}

/// The arguments of a call after those in `acc`, through its `)`.
#[verifier::opaque]
pub open spec fn p_args_items(acc: Seq<SArgV>, seen_named: bool, ps: PState) -> Result<(Seq<SArgV>, PState), PErr>
    decreases lvl(ps), ps.toks.len(), 22int,
{
    match p_arg(seen_named, ps) {
        Err(err) => Err(err),
        Ok((a, ps1)) => if !consumed(ps1, ps, true) {
            Err(stuck(ps))
        } else if ps_top(ps1) is RParen {
            Ok((acc.push(a), ps_bump(ps1)))
        } else if ps_top(ps1) is Comma {
            p_args_items(acc.push(a), seen_named || a.value is Named, ps_bump(ps1))
        } else {
            Err(p_unexpected(ps1, "`,` or `)`"@))
        },
    }
}

/// One argument: `name = expr` (named) or `expr` (positional, only before
/// any named one).
#[verifier::opaque]
pub open spec fn p_arg(seen_named: bool, ps: PState) -> Result<(SArgV, PState), PErr>
    decreases lvl(ps), ps.toks.len(), 21int,
{
    let start = ps_start(ps);
    if ps_top(ps) is Ident && ps_second(ps) == Some(TokenV::Assign) {
        let name = ps_top(ps)->Ident_0;
        if is_operator_keyword(name) {
            Err(p_unexpected(ps_bump(ps), "a named-argument name"@))
        } else {
            match p_expr(ps_bump(ps_bump(ps))) {
                Err(err) => Err(err),
                Ok((v, ps2)) => Ok(
                    (SArgV { value: ArgV::Named { name, value: Box::new(v) }, span: ps_span(ps2, start) }, ps2),
                ),
            }
        }
    } else if seen_named {
        Err(
            PErr {
                kind: PErrKindV::PositionalAfterNamed,
                span: spec_span(
                    start,
                    if start < usize::MAX {
                        (start + 1) as usize
                    } else {
                        start
                    },
                ),
            },
        )
    } else {
        match p_expr(ps) {
            Err(err) => Err(err),
            Ok((e, ps2)) => Ok((SArgV { value: ArgV::Positional(Box::new(e)), span: ps_span(ps2, start) }, ps2)),
        }
    }
}

pub proof fn lemma_skip_newlines(ps: PState)
    ensures
        consumed(skip_newlines(ps), ps, false),
        !(ps_top(skip_newlines(ps)) is Newline),
    decreases ps.toks.len(),
{
    if ps.toks.len() > 0 && ps_top(ps) is Newline {
        lemma_skip_newlines(ps_bump(ps));
    }
}

/// A block: statements up to the end of input or a block terminator, blank
/// lines skipped; `acc` holds those already parsed.
#[verifier::opaque]
pub open spec fn p_block(acc: Seq<SStmtV>, ps: PState) -> Result<(Seq<SStmtV>, PState), PErr>
    decreases lvl(ps), ps.toks.len(), 30int,
{
    let ps1 = skip_newlines(ps);
    if ps_top(ps1) is Eof || is_terminator_v(ps_top(ps1)) {
        Ok((acc, ps1))
    } else {
        proof {
            lemma_skip_newlines(ps);
        }
        match p_stmt(ps1) {
            Err(err) => Err(err),
            Ok((st, ps2)) => if consumed(ps2, ps1, true) {
                p_block(acc.push(st), ps2)
            } else {
                Err(stuck(ps))
            },
        }
    }
}

/// One statement: a directive, a control structure, an assignment, or a
/// call (any other expression is rejected).
#[verifier::opaque]
pub open spec fn p_stmt(ps: PState) -> Result<(SStmtV, PState), PErr>
    decreases lvl(ps), ps.toks.len(), 29int,
{
    let start = ps_start(ps);
    let t = ps_top(ps);
    if t is At {
        p_meta(ps)
    } else if is_kw(t, "if"@) {
        p_if(ps)
    } else if is_kw(t, "loop"@) {
        p_loop(ps)
    } else if is_kw(t, "for"@) {
        p_for(ps)
    } else if is_kw(t, "func"@) {
        p_func(ps)
    } else if is_kw(t, "return"@) {
        p_return(ps)
    } else if t is Ident && !is_operator_keyword(t->Ident_0) && ps_second(ps) == Some(TokenV::Assign) {
        p_assign(ps)
    } else {
        match p_expr(ps) {
            Err(err) => Err(err),
            Ok((e, ps1)) => match e.value {
                ExprV::Call(c) => match p_sep(ps1) {
                    Err(err) => Err(err),
                    Ok(ps2) => Ok((SStmtV { value: StmtV::Call(c), span: ps_span(ps2, start) }, ps2)),
                },
                _ => Err(p_unexpected(ps1, "a call statement, e.g. `task(...)`"@)),
            },
        }
    }
}

/// The rest of a dotted directive key.
pub open spec fn p_meta_key(key: Seq<char>, ps: PState) -> Result<(Seq<char>, PState), PErr>
    decreases ps.toks.len(),
{
    if ps.toks.len() > 0 && ps_top(ps) is Dot {
        match p_ident(ps_bump(ps)) {
            Err(err) => Err(err),
            Ok((part, ps2)) => p_meta_key(key.push('.') + part, ps2),
        }
    } else {
        Ok((key, ps))
    }
}

/// `@key(.part)* = expr`.
#[verifier::opaque]
pub open spec fn p_meta(ps: PState) -> Result<(SStmtV, PState), PErr>
    decreases lvl(ps), ps.toks.len(), 28int,
{
    match p_expect(ps, TokenV::At) {
        Err(err) => Err(err),
        Ok(ps1) => match p_ident(ps1) {
            Err(err) => Err(err),
            Ok((k0, ps2)) => match p_meta_key(k0, ps2) {
                Err(err) => Err(err),
                Ok((key, ps3)) => match p_expect(ps3, TokenV::Assign) {
                    Err(err) => Err(err),
                    Ok(ps4) => if !consumed(ps4, ps, true) {
                        Err(stuck(ps))
                    } else {
                        match p_expr(ps4) {
                            Err(err) => Err(err),
                            Ok((v, ps5)) => match p_sep(ps5) {
                                Err(err) => Err(err),
                                Ok(ps6) => Ok(
                                    (
                                        SStmtV {
                                            value: StmtV::Meta { key, value: Box::new(v) },
                                            span: ps_span(ps6, ps_start(ps)),
                                        },
                                        ps6,
                                    ),
                                ),
                            },
                        }
                    },
                },
            },
        },
    }
}

/// `target = expr`.
#[verifier::opaque]
pub open spec fn p_assign(ps: PState) -> Result<(SStmtV, PState), PErr>
    decreases lvl(ps), ps.toks.len(), 28int,
{
    match p_ident(ps) {
        Err(err) => Err(err),
        Ok((target, ps1)) => match p_expect(ps1, TokenV::Assign) {
            Err(err) => Err(err),
            Ok(ps2) => match p_expr(ps2) {
                Err(err) => Err(err),
                Ok((v, ps3)) => match p_sep(ps3) {
                    Err(err) => Err(err),
                    Ok(ps4) => Ok(
                        (
                            SStmtV { value: StmtV::Assign { target, value: Box::new(v) }, span: ps_span(ps4, ps_start(ps)) },
                            ps4,
                        ),
                    ),
                },
            },
        },
    }
}

/// `cond <sep> <block>` of an `if` or `elseif` (the keyword consumed).
#[verifier::opaque]
pub open spec fn p_if_branch(ps: PState) -> Result<(BranchV, PState), PErr>
    decreases lvl(ps), ps.toks.len(), 27int,
{
    match p_expr(ps) {
        Err(err) => Err(err),
        Ok((cond, ps1)) => match p_sep(ps1) {
            Err(err) => Err(err),
            Ok(ps2) => if !consumed(ps2, ps, true) {
                Err(stuck(ps))
            } else {
                match p_block(Seq::empty(), ps2) {
                    Err(err) => Err(err),
                    Ok((body, ps3)) => Ok((BranchV { cond: Box::new(cond), body }, ps3)),
                }
            },
        },
    }
}

/// The `elseif` branches after those in `bs`.
#[verifier::opaque]
pub open spec fn p_elifs(bs: Seq<BranchV>, ps: PState) -> Result<(Seq<BranchV>, PState), PErr>
    decreases lvl(ps), ps.toks.len(), 28int,
{
    if is_kw(ps_top(ps), "elseif"@) {
        match p_if_branch(ps_bump(ps)) {
            Err(err) => Err(err),
            Ok((b, ps1)) => if consumed(ps1, ps, true) {
                p_elifs(bs.push(b), ps1)
            } else {
                Err(stuck(ps))
            },
        }
    } else {
        Ok((bs, ps))
    }
}

/// An optional `else <sep> <block>`.
#[verifier::opaque]
pub open spec fn p_else(ps: PState) -> Result<(Option<Seq<SStmtV>>, PState), PErr>
    decreases lvl(ps), ps.toks.len(), 28int,
{
    if is_kw(ps_top(ps), "else"@) {
        match p_sep(ps_bump(ps)) {
            Err(err) => Err(err),
            Ok(ps1) => match p_block(Seq::empty(), ps1) {
                Err(err) => Err(err),
                Ok((b, ps2)) => Ok((Some(b), ps2)),
            },
        }
    } else {
        Ok((None, ps))
    }
}

/// `if cond <block> (elseif cond <block>)* (else <block>)? end`.
#[verifier::opaque]
pub open spec fn p_if(ps: PState) -> Result<(SStmtV, PState), PErr>
    decreases lvl(ps), ps.toks.len(), 28int,
{
    match p_keyword(ps, "if"@) {
        Err(err) => Err(err),
        Ok(ps1) => match p_if_branch(ps1) {
            Err(err) => Err(err),
            Ok((first, ps2)) => if !consumed(ps2, ps1, false) {
                Err(stuck(ps))
            } else {
                match p_elifs(seq![first], ps2) {
                    Err(err) => Err(err),
                    Ok((branches, ps3)) => if !consumed(ps3, ps1, false) {
                        Err(stuck(ps))
                    } else {
                        match p_else(ps3) {
                            Err(err) => Err(err),
                            Ok((eb, ps4)) => match p_keyword(ps4, "end"@) {
                                Err(err) => Err(err),
                                Ok(ps5) => match p_sep(ps5) {
                                    Err(err) => Err(err),
                                    Ok(ps6) => Ok(
                                        (
                                            SStmtV {
                                                value: StmtV::If { branches, else_block: eb },
                                                span: ps_span(ps6, ps_start(ps)),
                                            },
                                            ps6,
                                        ),
                                    ),
                                },
                            },
                        }
                    },
                }
            },
        },
    }
}

/// `loop <block> until cond`.
#[verifier::opaque]
pub open spec fn p_loop(ps: PState) -> Result<(SStmtV, PState), PErr>
    decreases lvl(ps), ps.toks.len(), 28int,
{
    match p_keyword(ps, "loop"@) {
        Err(err) => Err(err),
        Ok(ps1) => match p_sep(ps1) {
            Err(err) => Err(err),
            Ok(ps2) => match p_block(Seq::empty(), ps2) {
                Err(err) => Err(err),
                Ok((body, ps3)) => if !consumed(ps3, ps1, false) {
                    Err(stuck(ps))
                } else {
                    match p_keyword(ps3, "until"@) {
                        Err(err) => Err(err),
                        Ok(ps4) => match p_expr(ps4) {
                            Err(err) => Err(err),
                            Ok((cond, ps5)) => match p_sep(ps5) {
                                Err(err) => Err(err),
                                Ok(ps6) => Ok(
                                    (
                                        SStmtV {
                                            value: StmtV::LoopUntil { body, cond: Box::new(cond) },
                                            span: ps_span(ps6, ps_start(ps)),
                                        },
                                        ps6,
                                    ),
                                ),
                            },
                        },
                    }
                },
            },
        },
    }
}

/// `for var in expr <block> end`.
#[verifier::opaque]
pub open spec fn p_for(ps: PState) -> Result<(SStmtV, PState), PErr>
    decreases lvl(ps), ps.toks.len(), 28int,
{
    match p_keyword(ps, "for"@) {
        Err(err) => Err(err),
        Ok(ps1) => match p_ident(ps1) {
            Err(err) => Err(err),
            Ok((var, ps2)) => match p_keyword(ps2, "in"@) {
                Err(err) => Err(err),
                Ok(ps3) => match p_expr(ps3) {
                    Err(err) => Err(err),
                    Ok((iterable, ps4)) => match p_sep(ps4) {
                        Err(err) => Err(err),
                        Ok(ps5) => if !consumed(ps5, ps, true) {
                            Err(stuck(ps))
                        } else {
                            match p_block(Seq::empty(), ps5) {
                                Err(err) => Err(err),
                                Ok((body, ps6)) => match p_keyword(ps6, "end"@) {
                                    Err(err) => Err(err),
                                    Ok(ps7) => match p_sep(ps7) {
                                        Err(err) => Err(err),
                                        Ok(ps8) => Ok(
                                            (
                                                SStmtV {
                                                    value: StmtV::For { var, iterable: Box::new(iterable), body },
                                                    span: ps_span(ps8, ps_start(ps)),
                                                },
                                                ps8,
                                            ),
                                        ),
                                    },
                                },
                            }
                        },
                    },
                },
            },
        },
    }
}

/// The parameter names of a function after its `(`, up to (not past) `)`.
pub open spec fn p_params(acc: Seq<Seq<char>>, ps: PState) -> Result<(Seq<Seq<char>>, PState), PErr>
    decreases ps.toks.len(),
{
    match p_ident(ps) {
        Err(err) => Err(err),
        Ok((p, ps1)) => if ps_top(ps1) is Comma {
            p_params(acc.push(p), ps_bump(ps1))
        } else if ps_top(ps1) is RParen {
            Ok((acc.push(p), ps1))
        } else {
            Err(p_unexpected(ps1, "`,` or `)`"@))
        },
    }
}

/// `func name(params) <block> end`.
#[verifier::opaque]
pub open spec fn p_func(ps: PState) -> Result<(SStmtV, PState), PErr>
    decreases lvl(ps), ps.toks.len(), 28int,
{
    match p_keyword(ps, "func"@) {
        Err(err) => Err(err),
        Ok(ps1) => match p_ident(ps1) {
            Err(err) => Err(err),
            Ok((name, ps2)) => match p_expect(ps2, TokenV::LParen) {
                Err(err) => Err(err),
                Ok(ps3) => match (if ps_top(ps3) is RParen {
                    Ok((Seq::<Seq<char>>::empty(), ps3))
                } else {
                    p_params(Seq::empty(), ps3)
                }) {
                    Err(err) => Err(err),
                    Ok((params, ps4)) => match p_expect(ps4, TokenV::RParen) {
                        Err(err) => Err(err),
                        Ok(ps5) => match p_sep(ps5) {
                            Err(err) => Err(err),
                            Ok(ps6) => if !consumed(ps6, ps, true) {
                                Err(stuck(ps))
                            } else {
                                match p_block(Seq::empty(), ps6) {
                                    Err(err) => Err(err),
                                    Ok((body, ps7)) => match p_keyword(ps7, "end"@) {
                                        Err(err) => Err(err),
                                        Ok(ps8) => match p_sep(ps8) {
                                            Err(err) => Err(err),
                                            Ok(ps9) => Ok(
                                                (
                                                    SStmtV {
                                                        value: StmtV::Function { name, params, body },
                                                        span: ps_span(ps9, ps_start(ps)),
                                                    },
                                                    ps9,
                                                ),
                                            ),
                                        },
                                    },
                                }
                            },
                        },
                    },
                },
            },
        },
    }
}

/// `return expr?`.
#[verifier::opaque]
pub open spec fn p_return(ps: PState) -> Result<(SStmtV, PState), PErr>
    decreases lvl(ps), ps.toks.len(), 28int,
{
    match p_keyword(ps, "return"@) {
        Err(err) => Err(err),
        Ok(ps1) => {
            let t = ps_top(ps1);
            match (if t is Newline || t is Eof || is_terminator_v(t) {
                Ok((None, ps1))
            } else {
                match p_expr(ps1) {
                    Err(err) => Err(err),
                    Ok((v, ps2)) => Ok((Some(Box::new(v)), ps2)),
                }
            }) {
                Err(err) => Err(err),
                Ok((value, ps2)) => match p_sep(ps2) {
                    Err(err) => Err(err),
                    Ok(ps3) => Ok(
                        (SStmtV { value: StmtV::Return { value }, span: ps_span(ps3, ps_start(ps)) }, ps3),
                    ),
                },
            }
        },
    }
}

// ---- one-step unfoldings of the statement grammar ----

proof fn lemma_p_block(acc: Seq<SStmtV>, ps: PState)
    ensures
        p_block(acc, ps) == {
            let ps1 = skip_newlines(ps);
            if ps_top(ps1) is Eof || is_terminator_v(ps_top(ps1)) {
                Ok((acc, ps1))
            } else {
                match p_stmt(ps1) {
                    Err(err) => Err(err),
                    Ok((st, ps2)) => if consumed(ps2, ps1, true) {
                        p_block(acc.push(st), ps2)
                    } else {
                        Err(stuck(ps))
                    },
                }
            }
        },
{
    reveal(p_block);
    reveal(p_stmt);
}

proof fn lemma_p_stmt(ps: PState)
    ensures
        p_stmt(ps) == {
            let start = ps_start(ps);
            let t = ps_top(ps);
            if t is At {
                p_meta(ps)
            } else if is_kw(t, "if"@) {
                p_if(ps)
            } else if is_kw(t, "loop"@) {
                p_loop(ps)
            } else if is_kw(t, "for"@) {
                p_for(ps)
            } else if is_kw(t, "func"@) {
                p_func(ps)
            } else if is_kw(t, "return"@) {
                p_return(ps)
            } else if t is Ident && !is_operator_keyword(t->Ident_0) && ps_second(ps) == Some(TokenV::Assign) {
                p_assign(ps)
            } else {
                match p_expr(ps) {
                    Err(err) => Err(err),
                    Ok((e, ps1)) => match e.value {
                        ExprV::Call(c) => match p_sep(ps1) {
                            Err(err) => Err(err),
                            Ok(ps2) => Ok((SStmtV { value: StmtV::Call(c), span: ps_span(ps2, start) }, ps2)),
                        },
                        _ => Err(p_unexpected(ps1, "a call statement, e.g. `task(...)`"@)),
                    },
                }
            }
        },
{
    reveal(p_stmt);
    reveal(p_assign);
    reveal(p_expr);
    reveal(p_for);
    reveal(p_func);
    reveal(p_if);
    reveal(p_loop);
    reveal(p_meta);
    reveal(p_return);
}

proof fn lemma_p_meta(ps: PState)
    ensures
        p_meta(ps) == {
            match p_expect(ps, TokenV::At) {
                Err(err) => Err(err),
                Ok(ps1) => match p_ident(ps1) {
                    Err(err) => Err(err),
                    Ok((k0, ps2)) => match p_meta_key(k0, ps2) {
                        Err(err) => Err(err),
                        Ok((key, ps3)) => match p_expect(ps3, TokenV::Assign) {
                            Err(err) => Err(err),
                            Ok(ps4) => if !consumed(ps4, ps, true) {
                                Err(stuck(ps))
                            } else {
                                match p_expr(ps4) {
                                    Err(err) => Err(err),
                                    Ok((v, ps5)) => match p_sep(ps5) {
                                        Err(err) => Err(err),
                                        Ok(ps6) => Ok(
                                            (
                                                SStmtV {
                                                    value: StmtV::Meta { key, value: Box::new(v) },
                                                    span: ps_span(ps6, ps_start(ps)),
                                                },
                                                ps6,
                                            ),
                                        ),
                                    },
                                }
                            },
                        },
                    },
                },
            }
        },
{
    reveal(p_meta);
    reveal(p_expr);
}

proof fn lemma_p_assign(ps: PState)
    ensures
        p_assign(ps) == {
            match p_ident(ps) {
                Err(err) => Err(err),
                Ok((target, ps1)) => match p_expect(ps1, TokenV::Assign) {
                    Err(err) => Err(err),
                    Ok(ps2) => match p_expr(ps2) {
                        Err(err) => Err(err),
                        Ok((v, ps3)) => match p_sep(ps3) {
                            Err(err) => Err(err),
                            Ok(ps4) => Ok(
                                (
                                    SStmtV { value: StmtV::Assign { target, value: Box::new(v) }, span: ps_span(ps4, ps_start(ps)) },
                                    ps4,
                                ),
                            ),
                        },
                    },
                },
            }
        },
{
    reveal(p_assign);
    reveal(p_expr);
}

proof fn lemma_p_if_branch(ps: PState)
    ensures
        p_if_branch(ps) == {
            match p_expr(ps) {
                Err(err) => Err(err),
                Ok((cond, ps1)) => match p_sep(ps1) {
                    Err(err) => Err(err),
                    Ok(ps2) => if !consumed(ps2, ps, true) {
                        Err(stuck(ps))
                    } else {
                        match p_block(Seq::empty(), ps2) {
                            Err(err) => Err(err),
                            Ok((body, ps3)) => Ok((BranchV { cond: Box::new(cond), body }, ps3)),
                        }
                    },
                },
            }
        },
{
    reveal(p_if_branch);
    reveal(p_block);
    reveal(p_expr);
}

proof fn lemma_p_elifs(bs: Seq<BranchV>, ps: PState)
    ensures
        p_elifs(bs, ps) == {
            if is_kw(ps_top(ps), "elseif"@) {
                match p_if_branch(ps_bump(ps)) {
                    Err(err) => Err(err),
                    Ok((b, ps1)) => if consumed(ps1, ps, true) {
                        p_elifs(bs.push(b), ps1)
                    } else {
                        Err(stuck(ps))
                    },
                }
            } else {
                Ok((bs, ps))
            }
        },
{
    reveal(p_elifs);
    reveal(p_if_branch);
}

proof fn lemma_p_else(ps: PState)
    ensures
        p_else(ps) == {
            if is_kw(ps_top(ps), "else"@) {
                match p_sep(ps_bump(ps)) {
                    Err(err) => Err(err),
                    Ok(ps1) => match p_block(Seq::empty(), ps1) {
                        Err(err) => Err(err),
                        Ok((b, ps2)) => Ok((Some(b), ps2)),
                    },
                }
            } else {
                Ok((None, ps))
            }
        },
{
    reveal(p_else);
    reveal(p_block);
}

proof fn lemma_p_if(ps: PState)
    ensures
        p_if(ps) == {
            match p_keyword(ps, "if"@) {
                Err(err) => Err(err),
                Ok(ps1) => match p_if_branch(ps1) {
                    Err(err) => Err(err),
                    Ok((first, ps2)) => if !consumed(ps2, ps1, false) {
                        Err(stuck(ps))
                    } else {
                        match p_elifs(seq![first], ps2) {
                            Err(err) => Err(err),
                            Ok((branches, ps3)) => if !consumed(ps3, ps1, false) {
                                Err(stuck(ps))
                            } else {
                                match p_else(ps3) {
                                    Err(err) => Err(err),
                                    Ok((eb, ps4)) => match p_keyword(ps4, "end"@) {
                                        Err(err) => Err(err),
                                        Ok(ps5) => match p_sep(ps5) {
                                            Err(err) => Err(err),
                                            Ok(ps6) => Ok(
                                                (
                                                    SStmtV {
                                                        value: StmtV::If { branches, else_block: eb },
                                                        span: ps_span(ps6, ps_start(ps)),
                                                    },
                                                    ps6,
                                                ),
                                            ),
                                        },
                                    },
                                }
                            },
                        }
                    },
                },
            }
        },
{
    reveal(p_if);
    reveal(p_elifs);
    reveal(p_else);
    reveal(p_if_branch);
}

proof fn lemma_p_loop(ps: PState)
    ensures
        p_loop(ps) == {
            match p_keyword(ps, "loop"@) {
                Err(err) => Err(err),
                Ok(ps1) => match p_sep(ps1) {
                    Err(err) => Err(err),
                    Ok(ps2) => match p_block(Seq::empty(), ps2) {
                        Err(err) => Err(err),
                        Ok((body, ps3)) => if !consumed(ps3, ps1, false) {
                            Err(stuck(ps))
                        } else {
                            match p_keyword(ps3, "until"@) {
                                Err(err) => Err(err),
                                Ok(ps4) => match p_expr(ps4) {
                                    Err(err) => Err(err),
                                    Ok((cond, ps5)) => match p_sep(ps5) {
                                        Err(err) => Err(err),
                                        Ok(ps6) => Ok(
                                            (
                                                SStmtV {
                                                    value: StmtV::LoopUntil { body, cond: Box::new(cond) },
                                                    span: ps_span(ps6, ps_start(ps)),
                                                },
                                                ps6,
                                            ),
                                        ),
                                    },
                                },
                            }
                        },
                    },
                },
            }
        },
{
    reveal(p_loop);
    reveal(p_block);
    reveal(p_expr);
}

proof fn lemma_p_for(ps: PState)
    ensures
        p_for(ps) == {
            match p_keyword(ps, "for"@) {
                Err(err) => Err(err),
                Ok(ps1) => match p_ident(ps1) {
                    Err(err) => Err(err),
                    Ok((var, ps2)) => match p_keyword(ps2, "in"@) {
                        Err(err) => Err(err),
                        Ok(ps3) => match p_expr(ps3) {
                            Err(err) => Err(err),
                            Ok((iterable, ps4)) => match p_sep(ps4) {
                                Err(err) => Err(err),
                                Ok(ps5) => if !consumed(ps5, ps, true) {
                                    Err(stuck(ps))
                                } else {
                                    match p_block(Seq::empty(), ps5) {
                                        Err(err) => Err(err),
                                        Ok((body, ps6)) => match p_keyword(ps6, "end"@) {
                                            Err(err) => Err(err),
                                            Ok(ps7) => match p_sep(ps7) {
                                                Err(err) => Err(err),
                                                Ok(ps8) => Ok(
                                                    (
                                                        SStmtV {
                                                            value: StmtV::For { var, iterable: Box::new(iterable), body },
                                                            span: ps_span(ps8, ps_start(ps)),
                                                        },
                                                        ps8,
                                                    ),
                                                ),
                                            },
                                        },
                                    }
                                },
                            },
                        },
                    },
                },
            }
        },
{
    reveal(p_for);
    reveal(p_block);
    reveal(p_expr);
}

proof fn lemma_p_func(ps: PState)
    ensures
        p_func(ps) == {
            match p_keyword(ps, "func"@) {
                Err(err) => Err(err),
                Ok(ps1) => match p_ident(ps1) {
                    Err(err) => Err(err),
                    Ok((name, ps2)) => match p_expect(ps2, TokenV::LParen) {
                        Err(err) => Err(err),
                        Ok(ps3) => match (if ps_top(ps3) is RParen {
                            Ok((Seq::<Seq<char>>::empty(), ps3))
                        } else {
                            p_params(Seq::empty(), ps3)
                        }) {
                            Err(err) => Err(err),
                            Ok((params, ps4)) => match p_expect(ps4, TokenV::RParen) {
                                Err(err) => Err(err),
                                Ok(ps5) => match p_sep(ps5) {
                                    Err(err) => Err(err),
                                    Ok(ps6) => if !consumed(ps6, ps, true) {
                                        Err(stuck(ps))
                                    } else {
                                        match p_block(Seq::empty(), ps6) {
                                            Err(err) => Err(err),
                                            Ok((body, ps7)) => match p_keyword(ps7, "end"@) {
                                                Err(err) => Err(err),
                                                Ok(ps8) => match p_sep(ps8) {
                                                    Err(err) => Err(err),
                                                    Ok(ps9) => Ok(
                                                        (
                                                            SStmtV {
                                                                value: StmtV::Function { name, params, body },
                                                                span: ps_span(ps9, ps_start(ps)),
                                                            },
                                                            ps9,
                                                        ),
                                                    ),
                                                },
                                            },
                                        }
                                    },
                                },
                            },
                        },
                    },
                },
            }
        },
{
    reveal(p_func);
    reveal(p_block);
}

proof fn lemma_p_return(ps: PState)
    ensures
        p_return(ps) == {
            match p_keyword(ps, "return"@) {
                Err(err) => Err(err),
                Ok(ps1) => {
                    let t = ps_top(ps1);
                    match (if t is Newline || t is Eof || is_terminator_v(t) {
                        Ok((None, ps1))
                    } else {
                        match p_expr(ps1) {
                            Err(err) => Err(err),
                            Ok((v, ps2)) => Ok((Some(Box::new(v)), ps2)),
                        }
                    }) {
                        Err(err) => Err(err),
                        Ok((value, ps2)) => match p_sep(ps2) {
                            Err(err) => Err(err),
                            Ok(ps3) => Ok(
                                (SStmtV { value: StmtV::Return { value }, span: ps_span(ps3, ps_start(ps)) }, ps3),
                            ),
                        },
                    }
                },
            }
        },
{
    reveal(p_return);
    reveal(p_expr);
}

/// The variable expression of an identifier token that is not called.
pub open spec fn var_at(ps: PState, name: Seq<char>) -> SExprV {
    SExprV { value: ExprV::Var(name), span: ps_span(ps_bump(ps), ps_start(ps)) }
}

/// Whether a token can follow an operand without extending it at the
/// multiplicative or additive level, or making it a call.
pub open spec fn closes_operand(t: TokenV) -> bool {
    !(t is LParen) && mul_op_v(t) is None && add_op_v(t) is None
}

proof fn lemma_primary_var(ps: PState, name: Seq<char>)
    requires
        ps.toks.len() > 0,
        ps_top(ps) == TokenV::Ident(name),
        !is_operator_keyword(name),
        !(ps_top(ps_bump(ps)) is LParen),
    ensures
        p_primary(ps) == Ok::<(SExprV, PState), PErr>((var_at(ps, name), ps_bump(ps))),
{
    reveal(p_primary);
    reveal(p_expr);
}

proof fn lemma_unary_var(ps: PState, name: Seq<char>)
    requires
        ps.toks.len() > 0,
        ps_top(ps) == TokenV::Ident(name),
        !is_operator_keyword(name),
        !(ps_top(ps_bump(ps)) is LParen),
    ensures
        p_unary(ps) == Ok::<(SExprV, PState), PErr>((var_at(ps, name), ps_bump(ps))),
{
    lemma_primary_var(ps, name);
    reveal(p_unary);
    reveal(p_primary);
}

proof fn lemma_mul_var(ps: PState, name: Seq<char>)
    requires
        ps.toks.len() > 0,
        ps_top(ps) == TokenV::Ident(name),
        !is_operator_keyword(name),
        !(ps_top(ps_bump(ps)) is LParen),
        mul_op_v(ps_top(ps_bump(ps))) is None,
    ensures
        p_mul(ps) == Ok::<(SExprV, PState), PErr>((var_at(ps, name), ps_bump(ps))),
{
    lemma_unary_var(ps, name);
    reveal(p_mul);
    reveal(p_mul_rest);
    reveal(p_unary);
}

/// A single identifier operand, followed by a token that closes it, is a
/// variable at the additive level.
proof fn lemma_additive_var(ps: PState, name: Seq<char>)
    requires
        ps.toks.len() > 0,
        ps_top(ps) == TokenV::Ident(name),
        !is_operator_keyword(name),
        closes_operand(ps_top(ps_bump(ps))),
    ensures
        p_additive(ps) == Ok::<(SExprV, PState), PErr>((var_at(ps, name), ps_bump(ps))),
{
    lemma_mul_var(ps, name);
    reveal(p_additive);
    reveal(p_additive_rest);
    reveal(p_mul);
}

/// Two identifiers around a comparison token, at the comparison level.
proof fn lemma_comparison_vars(ps: PState, a: Seq<char>, b: Seq<char>, op: BinaryOp)
    requires
        ps.toks.len() >= 3,
        ps_top(ps) == TokenV::Ident(a),
        ps_top(ps_bump(ps_bump(ps))) == TokenV::Ident(b),
        !is_operator_keyword(a),
        !is_operator_keyword(b),
        cmp_op_v(ps_top(ps_bump(ps))) == Some(op),
        closes_operand(ps_top(ps_bump(ps_bump(ps_bump(ps))))),
    ensures
        p_comparison(ps) == Ok::<(SExprV, PState), PErr>(
            (
                binary_v(
                    ps_bump(ps_bump(ps_bump(ps))),
                    ps_start(ps),
                    op,
                    var_at(ps, a),
                    var_at(ps_bump(ps_bump(ps)), b),
                ),
                ps_bump(ps_bump(ps_bump(ps))),
            ),
        ),
{
    let ps1 = ps_bump(ps);
    let ps2 = ps_bump(ps1);
    assert(ps2.toks.len() > 0);
    lemma_additive_var(ps, a);
    lemma_additive_var(ps2, b);
    reveal(p_comparison);
    reveal(p_additive);
}

/// The comparison level is the `not` level when no `not` comes first.
proof fn lemma_not_is_comparison(ps: PState, a: Seq<char>)
    requires
        ps_top(ps) == TokenV::Ident(a),
        !is_operator_keyword(a),
    ensures
        p_not(ps) == p_comparison(ps),
{
    reveal(p_not);
    reveal(p_comparison);
}

/// An operand at the `and` level that no `and` follows.
proof fn lemma_and_single(ps: PState, e: SExprV, rest: PState)
    requires
        p_not(ps) == Ok::<(SExprV, PState), PErr>((e, rest)),
        consumed(rest, ps, true),
        !is_kw(ps_top(rest), "and"@),
    ensures
        p_and(ps) == Ok::<(SExprV, PState), PErr>((e, rest)),
{
    reveal(p_and);
    reveal(p_and_rest);
    reveal(p_not);
}

/// An operand at the `or` level that no `or` follows.
proof fn lemma_or_single(ps: PState, e: SExprV, rest: PState)
    requires
        p_and(ps) == Ok::<(SExprV, PState), PErr>((e, rest)),
        consumed(rest, ps, true),
        !is_kw(ps_top(rest), "or"@),
    ensures
        p_expr(ps) == Ok::<(SExprV, PState), PErr>((e, rest)),
{
    reveal(p_expr);
    reveal(p_or);
    reveal(p_or_rest);
    reveal(p_and);
}

/// Each comparison token parses to its own operator: between two variables,
/// `==` gives `Eq`, `!=` gives `Ne`, `<` gives `Lt`, `<=` gives `Le`, `>`
/// gives `Gt` and `>=` gives `Ge`, with the left operand on the left and the
/// right one on the right; the expression ends after the right operand, at a
/// newline or at the end of input.
pub proof fn law_comparison_operators(ps: PState, a: Seq<char>, b: Seq<char>)
    requires
        ps.toks.len() >= 3,
        ps_top(ps) == TokenV::Ident(a),
        ps_top(ps_bump(ps_bump(ps))) == TokenV::Ident(b),
        !is_operator_keyword(a),
        !is_operator_keyword(b),
        ({
            let t = ps_top(ps_bump(ps));
            t is Equal || t is NotEq || t is Lt || t is LtEq || t is Gt || t is GtEq
        }),
        ({
            let t = ps_top(ps_bump(ps_bump(ps_bump(ps))));
            t is Newline || t is Eof
        }),
    ensures
        p_expr(ps) is Ok,
        ({
            let (e, rest) = p_expr(ps)->Ok_0;
            let t = ps_top(ps_bump(ps));
            &&& e.value is Binary
            &&& e.value->Binary_lhs.value == ExprV::Var(a)
            &&& e.value->Binary_rhs.value == ExprV::Var(b)
            &&& rest.toks.len() + 3 == ps.toks.len()
            &&& (t is Equal ==> e.value->Binary_op == BinaryOp::Eq)
            &&& (t is NotEq ==> e.value->Binary_op == BinaryOp::Ne)
            &&& (t is Lt ==> e.value->Binary_op == BinaryOp::Lt)
            &&& (t is LtEq ==> e.value->Binary_op == BinaryOp::Le)
            &&& (t is Gt ==> e.value->Binary_op == BinaryOp::Gt)
            &&& (t is GtEq ==> e.value->Binary_op == BinaryOp::Ge)
        }),
{
    let ps1 = ps_bump(ps);
    let ps2 = ps_bump(ps1);
    let ps3 = ps_bump(ps2);
    let op = cmp_op_v(ps_top(ps1))->Some_0;
    assert(cmp_op_v(ps_top(ps1)) is Some);
    lemma_comparison_vars(ps, a, b, op);
    lemma_not_is_comparison(ps, a);
    let e = binary_v(ps3, ps_start(ps), op, var_at(ps, a), var_at(ps2, b));
    assert(consumed(ps3, ps, true));
    lemma_and_single(ps, e, ps3);
    lemma_or_single(ps, e, ps3);
}

proof fn lemma_mul_rest_done(start: usize, lhs: SExprV, ps: PState)
    requires
        mul_op_v(ps_top(ps)) is None,
    ensures
        p_mul_rest(start, lhs, ps) == Ok::<(SExprV, PState), PErr>((lhs, ps)),
{
    reveal(p_mul_rest);
    reveal(p_unary);
}

proof fn lemma_additive_rest_done(start: usize, lhs: SExprV, ps: PState)
    requires
        add_op_v(ps_top(ps)) is None,
    ensures
        p_additive_rest(start, lhs, ps) == Ok::<(SExprV, PState), PErr>((lhs, ps)),
{
    reveal(p_additive_rest);
    reveal(p_mul);
}

proof fn lemma_comparison_single(ps: PState, e: SExprV, rest: PState)
    requires
        p_additive(ps) == Ok::<(SExprV, PState), PErr>((e, rest)),
        cmp_op_v(ps_top(rest)) is None,
    ensures
        p_comparison(ps) == Ok::<(SExprV, PState), PErr>((e, rest)),
{
    reveal(p_comparison);
    reveal(p_additive);
}

/// Two identifiers around `+` or `-`, at the additive level.
proof fn lemma_additive_pair(ps: PState, a: Seq<char>, b: Seq<char>, op: BinaryOp)
    requires
        ps.toks.len() >= 3,
        ps_top(ps) == TokenV::Ident(a),
        ps_top(ps_bump(ps_bump(ps))) == TokenV::Ident(b),
        !is_operator_keyword(a),
        !is_operator_keyword(b),
        add_op_v(ps_top(ps_bump(ps))) == Some(op),
        closes_operand(ps_top(ps_bump(ps_bump(ps_bump(ps))))),
    ensures
        p_additive(ps) == Ok::<(SExprV, PState), PErr>(
            (
                binary_v(
                    ps_bump(ps_bump(ps_bump(ps))),
                    ps_start(ps),
                    op,
                    var_at(ps, a),
                    var_at(ps_bump(ps_bump(ps)), b),
                ),
                ps_bump(ps_bump(ps_bump(ps))),
            ),
        ),
{
    let ps1 = ps_bump(ps);
    let ps2 = ps_bump(ps1);
    let ps3 = ps_bump(ps2);
    assert(ps2.toks.len() > 0);
    lemma_mul_var(ps, a);
    lemma_mul_var(ps2, b);
    let e = binary_v(ps3, ps_start(ps), op, var_at(ps, a), var_at(ps2, b));
    lemma_additive_rest_done(ps_start(ps), e, ps3);
    assert(p_additive_rest(ps_start(ps), var_at(ps, a), ps1) == Ok::<(SExprV, PState), PErr>((e, ps3))) by {
        reveal(p_additive_rest);
        reveal(p_mul);
    }
    reveal(p_additive);
    reveal(p_mul);
}

/// Two identifiers around `*` or `/`, at the additive level.
proof fn lemma_mul_pair(ps: PState, a: Seq<char>, b: Seq<char>, op: BinaryOp)
    requires
        ps.toks.len() >= 3,
        ps_top(ps) == TokenV::Ident(a),
        ps_top(ps_bump(ps_bump(ps))) == TokenV::Ident(b),
        !is_operator_keyword(a),
        !is_operator_keyword(b),
        mul_op_v(ps_top(ps_bump(ps))) == Some(op),
        closes_operand(ps_top(ps_bump(ps_bump(ps_bump(ps))))),
    ensures
        p_additive(ps) == Ok::<(SExprV, PState), PErr>(
            (
                binary_v(
                    ps_bump(ps_bump(ps_bump(ps))),
                    ps_start(ps),
                    op,
                    var_at(ps, a),
                    var_at(ps_bump(ps_bump(ps)), b),
                ),
                ps_bump(ps_bump(ps_bump(ps))),
            ),
        ),
{
    let ps1 = ps_bump(ps);
    let ps2 = ps_bump(ps1);
    let ps3 = ps_bump(ps2);
    assert(ps2.toks.len() > 0);
    lemma_unary_var(ps, a);
    lemma_unary_var(ps2, b);
    let e = binary_v(ps3, ps_start(ps), op, var_at(ps, a), var_at(ps2, b));
    lemma_mul_rest_done(ps_start(ps), e, ps3);
    assert(p_mul_rest(ps_start(ps), var_at(ps, a), ps1) == Ok::<(SExprV, PState), PErr>((e, ps3))) by {
        reveal(p_mul_rest);
        reveal(p_unary);
    }
    assert(p_mul(ps) == Ok::<(SExprV, PState), PErr>((e, ps3))) by {
        reveal(p_mul);
        reveal(p_unary);
    }
    lemma_additive_rest_done(ps_start(ps), e, ps3);
    reveal(p_additive);
    reveal(p_mul);
}

/// Each arithmetic token parses to its own operator: between two
/// variables, `+` gives `Add`, `-` gives `Sub`, `*` gives `Mul` and `/`
/// gives `Div`, with the left operand on the left and the right one on the
/// right; the expression ends after the right operand, at a newline or at
/// the end of input.
pub proof fn law_arithmetic_operators(ps: PState, a: Seq<char>, b: Seq<char>)
    requires
        ps.toks.len() >= 3,
        ps_top(ps) == TokenV::Ident(a),
        ps_top(ps_bump(ps_bump(ps))) == TokenV::Ident(b),
        !is_operator_keyword(a),
        !is_operator_keyword(b),
        ({
            let t = ps_top(ps_bump(ps));
            t is Plus || t is Minus || t is Star || t is Slash
        }),
        ({
            let t = ps_top(ps_bump(ps_bump(ps_bump(ps))));
            t is Newline || t is Eof
        }),
    ensures
        p_expr(ps) is Ok,
        ({
            let (e, rest) = p_expr(ps)->Ok_0;
            let t = ps_top(ps_bump(ps));
            &&& e.value is Binary
            &&& e.value->Binary_lhs.value == ExprV::Var(a)
            &&& e.value->Binary_rhs.value == ExprV::Var(b)
            &&& rest.toks.len() + 3 == ps.toks.len()
            &&& (t is Plus ==> e.value->Binary_op == BinaryOp::Add)
            &&& (t is Minus ==> e.value->Binary_op == BinaryOp::Sub)
            &&& (t is Star ==> e.value->Binary_op == BinaryOp::Mul)
            &&& (t is Slash ==> e.value->Binary_op == BinaryOp::Div)
        }),
{
    let ps1 = ps_bump(ps);
    let ps2 = ps_bump(ps1);
    let ps3 = ps_bump(ps2);
    let t = ps_top(ps1);
    let op = if t is Plus || t is Minus {
        add_op_v(t)->Some_0
    } else {
        mul_op_v(t)->Some_0
    };
    if t is Plus || t is Minus {
        lemma_additive_pair(ps, a, b, op);
    } else {
        lemma_mul_pair(ps, a, b, op);
    }
    let e = binary_v(ps3, ps_start(ps), op, var_at(ps, a), var_at(ps2, b));
    lemma_comparison_single(ps, e, ps3);
    lemma_not_is_comparison(ps, a);
    assert(consumed(ps3, ps, true));
    lemma_and_single(ps, e, ps3);
    lemma_or_single(ps, e, ps3);
}

/// The statements of a source text, or the error that stops it: a lexical
/// error, or a syntax error. The block must take all the tokens (a stray block
/// terminator at the top level is an error).
pub open spec fn spec_parse(src: Seq<char>) -> Result<Seq<SStmtV>, PErr> {
    match crate::lexer::spec_tokenize(src) {
        Err(le) => Err(PErr { kind: PErrKindV::Lex(le), span: le.1 }),
        Ok(ts) => match p_block(Seq::empty(), ps_init(ts, true)) {
            Err(err) => Err(err),
            Ok((body, ps)) => if ps_top(ps) is Eof {
                Ok(body)
            } else {
                Err(p_unexpected(ps, "end of workflow"@))
            },
        },
    }
}

} // verus!
