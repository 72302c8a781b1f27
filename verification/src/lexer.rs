//! Lexer for the steer workflow DSL.
//!
//! The lexer is line-oriented: each statement occupies one logical line, and a
//! newline at the top level terminates a statement. Newlines inside parentheses
//! or brackets are insignificant whitespace, which lets a long call such as
//! `task(...)` span multiple physical lines.
//!
//! Keywords (`if`, `end`, `loop`, ...) are not distinguished from identifiers
//! here; they are recognised by value in the parser. Spans are byte offsets
//! into the source.

use vstd::prelude::*;

use crate::source::{mk_span, span_ok, spec_span, Span, Spanned};
use crate::text::{
    byte_offset, char_len, char_width, is_alpha, is_digit, is_ident_char, lemma_len_le_utf8_len,
    lemma_utf8_len_take_mono, lemma_utf8_len_take_step, push_char, push_str, spec_is_digit, spec_is_ident_char, spec_is_ident_start,
    str_chars, utf8_len,
};

verus! {

/// A segment of a string literal: a literal run of text or an interpolation
/// `{ ... }` whose inner expression text is captured verbatim.
#[derive(Debug, Clone, PartialEq)]
pub enum StringSegment {
    Literal(String),
    Interpolation(String),
}

/// A lexical token.
#[derive(Debug, Clone, PartialEq)]
pub enum Token {
    /// An identifier or keyword; keywords are distinguished by the parser.
    Ident(String),
    /// An integer literal.
    Int(i64),
    /// A decimal literal with a fractional part, kept as its source text
    /// (`digits.digits`).
    Float(String),
    /// A string literal, possibly with `{var}` interpolations. Each segment
    /// carries its source span; an interpolation span covers the whole `{...}`.
    String(Vec<Spanned<StringSegment>>),
    LParen,
    RParen,
    LBracket,
    RBracket,
    Comma,
    Dot,
    /// `@` — starts a workflow-level directive (`@template=`).
    At,
    Assign,
    Equal,
    NotEq,
    Lt,
    Gt,
    LtEq,
    GtEq,
    Plus,
    Minus,
    Star,
    Slash,
    /// End of a logical statement line, emitted at the top level only.
    Newline,
    /// End of input.
    Eof,
}

/// Classification of a lexical error.
#[derive(Debug, PartialEq, Clone)]
pub enum LexErrorKind {
    UnterminatedString,
    NewlineInString,
    UnterminatedInterpolation,
    InvalidEscape(char),
    InvalidNumber(String),
    UnexpectedChar(char),
}

/// A lexical error together with its source span.
#[derive(Debug, PartialEq, Clone)]
pub struct LexError {
    pub kind: LexErrorKind,
    pub span: Span,
}

/// The text of a lexical error's kind.
pub open spec fn lex_kind_text(k: LexErrKindV) -> Seq<char> {
    match k {
        LexErrKindV::UnterminatedString => "unterminated string literal"@,
        LexErrKindV::NewlineInString => "unescaped newline in string literal"@,
        LexErrKindV::UnterminatedInterpolation => "unterminated interpolation `{...}` inside string"@,
        LexErrKindV::InvalidEscape(c) => "invalid escape sequence `\\"@ + seq![c] + seq!['`'],
        LexErrKindV::InvalidNumber(t) => "invalid number literal `"@ + t + seq!['`'],
        LexErrKindV::UnexpectedChar(c) => "unexpected character `"@ + seq![c] + seq!['`'],
    }
}

/// The message of a lexical error: its kind, then its byte position.
pub open spec fn lex_error_text(e: (LexErrKindV, Span)) -> Seq<char> {
    lex_kind_text(e.0) + " (at byte "@ + crate::text::decimal_digits(e.1.start as nat) + seq![')']
}

/// The message for a lexical error, with its byte position.
pub fn lex_error_message(e: &LexError) -> (r: String)
    ensures
        r@ == lex_error_text(lex_err_view(*e)),
{
    let mut s = String::new();
    match &e.kind {
        LexErrorKind::UnterminatedString => push_str(&mut s, "unterminated string literal"),
        LexErrorKind::NewlineInString => push_str(&mut s, "unescaped newline in string literal"),
        LexErrorKind::UnterminatedInterpolation => push_str(
            &mut s,
            "unterminated interpolation `{...}` inside string",
        ),
        LexErrorKind::InvalidEscape(c) => {
            push_str(&mut s, "invalid escape sequence `\\");
            push_char(&mut s, *c);
            push_char(&mut s, '`');
        },
        LexErrorKind::InvalidNumber(t) => {
            push_str(&mut s, "invalid number literal `");
            push_str(&mut s, t.as_str());
            push_char(&mut s, '`');
        },
        LexErrorKind::UnexpectedChar(c) => {
            push_str(&mut s, "unexpected character `");
            push_char(&mut s, *c);
            push_char(&mut s, '`');
        },
    }
    let ghost k = s@;
    push_str(&mut s, " (at byte ");
    crate::text::push_usize(&mut s, e.span.start);
    push_char(&mut s, ')');
    proof {
        assert(k =~= lex_kind_text(lex_err_view(*e).0));
        assert(s@ =~= lex_error_text(lex_err_view(*e)));
    }
    s
}

/// The characters that may follow a backslash in a string literal.
pub open spec fn spec_is_escape(c: char) -> bool {
    c == 'n' || c == 't' || c == '"' || c == '\\' || c == '{' || c == '}'
}

/// The character an escape sequence stands for.
pub open spec fn spec_escaped(c: char) -> char {
    if c == 'n' {
        '\n'
    } else if c == 't' {
        '\t'
    } else {
        c
    }
}

proof fn lemma_digits_value_nonneg(s: Seq<char>)
    requires
        forall|k: int| 0 <= k < s.len() ==> spec_is_digit(#[trigger] s[k]),
    ensures
        digits_value(s) >= 0,
    decreases s.len(),
{
    if s.len() > 0 {
        lemma_digits_value_nonneg(s.drop_last());
    }
}

/// The value of a run of decimal digits.
pub open spec fn digits_value(s: Seq<char>) -> int
    decreases s.len(),
{
    if s.len() == 0 {
        0
    } else {
        digits_value(s.drop_last()) * 10 + (s.last() as int - '0' as int)
    }
}

/// A character allowed inside an interpolation body.
pub open spec fn interp_char_ok(c: char) -> bool {
    c != '"' && c != '{' && c != '}'
}

/// A literal segment is non-empty; an interpolation body holds no quote and
/// no brace.
pub open spec fn segment_ok(s: StringSegment) -> bool {
    match s {
        StringSegment::Literal(t) => t@.len() > 0,
        StringSegment::Interpolation(t) => forall|k: int|
            0 <= k < t@.len() ==> interp_char_ok(#[trigger] t@[k]),
    }
}

/// `s` is a run of digits with one dot at `d` and digits on both sides of it.
pub open spec fn float_dot_at(s: Seq<char>, d: int) -> bool {
    &&& 0 < d < s.len() - 1
    &&& s[d] == '.'
    &&& forall|k: int| 0 <= k < s.len() && k != d ==> spec_is_digit(#[trigger] s[k])
}

/// What each token carries: identifiers are non-empty runs of identifier
/// characters that do not start with a digit; integers are non-negative;
/// decimal texts are digits around one dot; string segments are well formed
/// and their spans ordered inside the token's span.
pub open spec fn token_ok(t: Spanned<Token>) -> bool {
    &&& span_ok(t.span)
    &&& match t.value {
        Token::Ident(s) => s@.len() > 0 && spec_is_ident_start(s@[0]) && forall|k: int|
            0 <= k < s@.len() ==> spec_is_ident_char(#[trigger] s@[k]),
        Token::Int(n) => n >= 0,
        Token::Float(s) => exists|d: int| float_dot_at(s@, d),
        Token::String(segs) => segments_ok(segs@, t.span),
        _ => true,
    }
}

pub open spec fn segments_ok(segs: Seq<Spanned<StringSegment>>, span: Span) -> bool {
    &&& forall|k: int|
        0 <= k < segs.len() ==> span.start <= (#[trigger] segs[k]).span.start <= segs[k].span.end
            <= span.end && segment_ok(segs[k].value)
    &&& forall|k: int| 0 <= k < segs.len() - 1 ==> (#[trigger] segs[k]).span.end <= segs[k + 1].span.start
}

/// Tokens are in source order: each span is well formed and ends before the
/// next one starts.
pub open spec fn tokens_ordered(toks: Seq<Spanned<Token>>) -> bool {
    &&& forall|k: int| 0 <= k < toks.len() ==> token_ok(#[trigger] toks[k])
    &&& forall|k: int|
        0 <= k < toks.len() - 1 ==> (#[trigger] toks[k]).span.end <= toks[k + 1].span.start
}

/// A `Newline` token always ends a line that holds a token: it is never first
/// and never follows another `Newline`. Blank and comment-only lines leave no
/// trace.
pub open spec fn newlines_separate(toks: Seq<Spanned<Token>>) -> bool {
    forall|k: int|
        0 <= k < toks.len() && (#[trigger] toks[k]).value is Newline ==> k > 0 && !(toks[k
            - 1].value is Newline)
}

/// What an error carries: an unexpected character occurs in the source, an
/// invalid escape is none of the recognised ones, and an invalid number is a
/// run of digits too large for an `i64`.
pub open spec fn lex_error_ok(e: LexError, src: Seq<char>) -> bool {
    &&& span_ok(e.span)
    &&& e.span.end <= utf8_len(src)
    &&& match e.kind {
        LexErrorKind::UnexpectedChar(c) => src.contains(c),
        LexErrorKind::InvalidEscape(c) => !spec_is_escape(c) && src.contains(c),
        LexErrorKind::InvalidNumber(s) => s@.len() > 0 && (forall|k: int|
            0 <= k < s@.len() ==> spec_is_digit(#[trigger] s@[k])) && digits_value(s@)
            > i64::MAX,
        _ => true,
    }
}

/// The lexer state over the characters of a source string.
struct Lexer {
    /// Every character of the source.
    chars: Vec<char>,
    /// `offs[k]` is the byte offset of `chars[k]`; `offs[chars.len()]` is the
    /// source length.
    offs: Vec<usize>,
    /// Current index into `chars`.
    i: usize,
    source_len: usize,
    /// Delimiter nesting depth (`(` `[`); newlines are suppressed while > 0.
    delimiter_depth: usize,
    /// Whether any token has been emitted on the current logical line.
    has_token_on_line: bool,
}

impl Lexer {
    spec fn wf(&self) -> bool {
        &&& self.offs.len() == self.chars.len() + 1
        &&& forall|k: int|
            0 <= k <= self.chars.len() ==> #[trigger] self.offs@[k] == byte_offset(
                self.chars@,
                k,
            )
        &&& forall|a: int, b: int|
            0 <= a <= b <= self.chars.len() ==> #[trigger] self.offs@[a] <= #[trigger] self.offs@[b]
        &&& forall|k: int|
            0 <= k < self.chars.len() ==> #[trigger] self.offs@[k + 1] == self.offs@[k]
                + char_width(self.chars@[k])
        &&& self.i <= self.chars.len()
        &&& self.source_len == self.offs@[self.chars.len() as int]
        &&& self.source_len == utf8_len(self.chars@)
    }

    spec fn spec_pos(&self) -> usize {
        self.offs@[self.i as int]
    }

    spec fn same_source(&self, other: &Lexer) -> bool {
        &&& self.chars@ == other.chars@
        &&& self.offs@ == other.offs@
        &&& self.source_len == other.source_len
    }

    fn new(src: &str) -> (r: Lexer)
        ensures
            r.wf(),
            r.i == 0,
            r.chars@ == src@,
            r.delimiter_depth == 0,
            !r.has_token_on_line,
    {
        let chars = str_chars(src);
        let mut offs: Vec<usize> = Vec::new();
        offs.push(0);
        let mut k: usize = 0;
        let mut acc: usize = 0;
        proof {
            assert(chars@.take(0) =~= Seq::<char>::empty());
        }
        while k < chars.len()
            invariant
                k <= chars.len(),
                offs.len() == k + 1,
                acc == offs@[k as int],
                utf8_len(chars@) <= usize::MAX,
                forall|j: int| 0 <= j <= k ==> #[trigger] offs@[j] == byte_offset(chars@, j),
                forall|a: int, b: int|
                    0 <= a <= b <= k ==> #[trigger] offs@[a] <= #[trigger] offs@[b],
                forall|j: int|
                    0 <= j < k ==> #[trigger] offs@[j + 1] == offs@[j] + char_width(chars@[j]),
            decreases chars.len() - k,
        {
            proof {
                lemma_utf8_len_take_step(chars@, k as int);
                lemma_utf8_len_take_mono(chars@, k + 1, chars.len() as int);
                assert(chars@.take(chars.len() as int) =~= chars@);
            }
            let w = char_len(chars[k]);
            acc = acc + w;
            offs.push(acc);
            k = k + 1;
        }
        proof {
            assert(chars@.take(chars.len() as int) =~= chars@);
        }
        Lexer { chars, offs, i: 0, source_len: acc, delimiter_depth: 0, has_token_on_line: false }
    }

    /// Current byte offset: start of the next unconsumed char, or end of input.
    fn pos(&self) -> (r: usize)
        requires
            self.wf(),
        ensures
            r == self.spec_pos(),
            r <= self.source_len,
    {
        self.offs[self.i]
    }

    fn peek_ch(&self) -> (r: Option<char>)
        requires
            self.wf(),
        ensures
            self.i < self.chars.len() ==> r == Some(self.chars@[self.i as int]),
            self.i >= self.chars.len() ==> r is None,
    {
        if self.i < self.chars.len() {
            Some(self.chars[self.i])
        } else {
            None
        }
    }

    fn peek_second_ch(&self) -> (r: Option<char>)
        requires
            self.wf(),
        ensures
            self.i + 1 < self.chars.len() ==> r == Some(self.chars@[self.i + 1]),
            self.i + 1 >= self.chars.len() ==> r is None,
    {
        if self.i + 1 < self.chars.len() {
            Some(self.chars[self.i + 1])
        } else {
            None
        }
    }

    fn bump(&mut self)
        requires
            old(self).wf(),
            old(self).i < old(self).chars.len(),
        ensures
            final(self).wf(),
            final(self).same_source(old(self)),
            final(self).i == old(self).i + 1,
            final(self).delimiter_depth == old(self).delimiter_depth,
            final(self).has_token_on_line == old(self).has_token_on_line,
    {
        self.i = self.i + 1;
    }

    fn simple(&self, start: usize, value: Token) -> (r: Spanned<Token>)
        requires
            self.wf(),
            start <= self.spec_pos(),
        ensures
            r.value == value,
            r.span.start == start,
            r.span.end == self.spec_pos(),
    {
        Spanned { value, span: mk_span(start, self.pos()) }
    }

    /// An error spanning from `start` to the current position (at least one byte).
    fn err(&self, start: usize, kind: LexErrorKind) -> (r: LexError)
        requires
            self.wf(),
            start < self.source_len,
            start <= self.spec_pos(),
        ensures
            r.kind == kind,
            r.span.start == start,
            span_ok(r.span),
            r.span.end <= self.source_len,
            start < self.spec_pos() ==> r.span.end == self.spec_pos(),
    {
        let p = self.pos();
        let end = if p > start {
            p
        } else {
            start + 1
        };
        LexError { kind, span: mk_span(start, end) }
    }

    /// Produce the next token, or `None` at end of input.
    fn next_token(&mut self) -> (r: Result<Option<Spanned<Token>>, LexError>)
        requires
            old(self).wf(),
        ensures
            final(self).wf(),
            final(self).same_source(old(self)),
            old(self).i <= final(self).i,
            match r {
                Ok(Some(t)) => {
                    &&& old(self).i < final(self).i
                    &&& old(self).spec_pos() <= t.span.start
                    &&& t.span.end <= final(self).spec_pos()
                    &&& token_ok(t)
                    &&& !(t.value is Eof)
                    &&& (t.value is Newline ==> old(self).has_token_on_line
                        && !final(self).has_token_on_line)
                    &&& (!(t.value is Newline) ==> final(self).has_token_on_line)
                },
                Ok(None) => final(self).i == final(self).chars.len()
                    && final(self).has_token_on_line == old(self).has_token_on_line,
                Err(e) => lex_error_ok(e, final(self).chars@),
            },
            match lex_step(old(self).chars@, old(self).i as int, old(self).delimiter_depth, old(self).has_token_on_line) {
                LexStep::Done => r matches Ok(None) && final(self).delimiter_depth == old(self).delimiter_depth,
                LexStep::Tok(t, sp, j, d, h) => r matches Ok(Some(x)) && token_view(x.value) == t && x.span == sp
                    && final(self).i == j && final(self).delimiter_depth == d && final(self).has_token_on_line == h,
                LexStep::Fail(e) => r matches Err(x) && lex_err_view(x) == e,
            },
    {
        loop
            invariant
                self.wf(),
                self.same_source(old(self)),
                old(self).i <= self.i,
                self.has_token_on_line == old(self).has_token_on_line,
                self.delimiter_depth == old(self).delimiter_depth,
                lex_step(old(self).chars@, old(self).i as int, old(self).delimiter_depth, old(self).has_token_on_line)
                    == lex_step(self.chars@, self.i as int, self.delimiter_depth, self.has_token_on_line),
            decreases self.chars.len() - self.i,
        {
            if self.i >= self.chars.len() {
                return Ok(None);
            }
            let pos = self.pos();
            let ch = self.chars[self.i];
            if ch == ' ' || ch == '\t' || ch == '\r' {
                self.bump();
            } else if ch == '\n' {
                proof {
                    assert(self.offs@[self.i + 1] == self.offs@[self.i as int] + char_width(
                        self.chars@[self.i as int],
                    ));
                    assert(self.offs@[self.i + 1] <= self.offs@[self.chars.len() as int]);
                }
                self.bump();
                if self.delimiter_depth == 0 && self.has_token_on_line {
                    self.has_token_on_line = false;
                    return Ok(Some(Spanned { value: Token::Newline, span: mk_span(pos, pos + 1) }));
                }
            } else if ch == '/' && self.peek_second_ch() == Some('/') {
                // line comment: consume up to, but not including, end of line
                let ghost here = self.i;
                self.bump();
                proof {
                    lemma_comment_end(self.chars@, here + 1);
                }
                while self.i < self.chars.len() && self.chars[self.i] != '\n'
                    invariant
                        self.wf(),
                        self.same_source(old(self)),
                        old(self).i <= here < self.i,
                        self.has_token_on_line == old(self).has_token_on_line,
                        self.delimiter_depth == old(self).delimiter_depth,
                        comment_end(self.chars@, here + 1) == comment_end(self.chars@, self.i as int),
                        lex_step(old(self).chars@, old(self).i as int, old(self).delimiter_depth, old(self).has_token_on_line)
                            == lex_step(self.chars@, comment_end(self.chars@, here + 1), self.delimiter_depth, self.has_token_on_line),
                    decreases self.chars.len() - self.i,
                {
                    self.bump();
                }
            } else {
                self.has_token_on_line = true;
                return match self.lex_token(pos, ch) {
                    Ok(t) => Ok(Some(t)),
                    Err(e) => Err(e),
                };
            }
        }
    }

    fn lex_token(&mut self, start: usize, first: char) -> (r: Result<Spanned<Token>, LexError>)
        requires
            old(self).wf(),
            old(self).i < old(self).chars.len(),
            first == old(self).chars@[old(self).i as int],
            start == old(self).spec_pos(),
        ensures
            final(self).wf(),
            final(self).same_source(old(self)),
            old(self).i < final(self).i,
            final(self).has_token_on_line == old(self).has_token_on_line,
            match r {
                Ok(t) => {
                    &&& t.span.start == start
                    &&& t.span.end <= final(self).spec_pos()
                    &&& token_ok(t)
                    &&& !(t.value is Eof)
                    &&& !(t.value is Newline)
                },
                Err(e) => lex_error_ok(e, final(self).chars@),
            },
            match lex_token_at(old(self).chars@, old(self).i as int, old(self).delimiter_depth) {
                Ok((t, sp, j, d)) => r matches Ok(x) && token_view(x.value) == t && x.span == sp && final(self).i
                    == j && final(self).delimiter_depth == d,
                Err(e) => r matches Err(x) && lex_err_view(x) == e,
            },
    {
        proof {
            assert(self.offs@[self.i + 1] == self.offs@[self.i as int] + char_width(
                self.chars@[self.i as int],
            ));
        }
        if first == '(' || first == '[' {
            self.bump();
            if self.delimiter_depth < usize::MAX {
                self.delimiter_depth = self.delimiter_depth + 1;
            }
            let tok = if first == '(' {
                Token::LParen
            } else {
                Token::LBracket
            };
            Ok(self.simple(start, tok))
        } else if first == ')' || first == ']' {
            self.bump();
            if self.delimiter_depth > 0 {
                self.delimiter_depth = self.delimiter_depth - 1;
            }
            let tok = if first == ')' {
                Token::RParen
            } else {
                Token::RBracket
            };
            Ok(self.simple(start, tok))
        } else if first == ',' || first == '.' || first == '@' || first == '+' || first == '-'
            || first == '*' || first == '/' {
            self.bump();
            let tok = if first == ',' {
                Token::Comma
            } else if first == '.' {
                Token::Dot
            } else if first == '@' {
                Token::At
            } else if first == '+' {
                Token::Plus
            } else if first == '-' {
                Token::Minus
            } else if first == '*' {
                Token::Star
            } else {
                Token::Slash
            };
            Ok(self.simple(start, tok))
        } else if first == '=' || first == '<' || first == '>' {
            self.bump();
            let eq = self.peek_ch() == Some('=');
            if eq {
                self.bump();
            }
            let tok = if first == '=' {
                if eq {
                    Token::Equal
                } else {
                    Token::Assign
                }
            } else if first == '<' {
                if eq {
                    Token::LtEq
                } else {
                    Token::Lt
                }
            } else {
                if eq {
                    Token::GtEq
                } else {
                    Token::Gt
                }
            };
            Ok(self.simple(start, tok))
        } else if first == '!' {
            self.bump();
            if self.peek_ch() == Some('=') {
                self.bump();
                Ok(self.simple(start, Token::NotEq))
            } else {
                proof {
                    assert(self.chars@[old(self).i as int] == '!');
                }
                Err(self.err(start, LexErrorKind::UnexpectedChar('!')))
            }
        } else if first == '"' {
            self.lex_string(start)
        } else if is_digit(first) {
            self.lex_number(start)
        } else if is_alpha(first) || first == '_' {
            Ok(self.lex_ident(start))
        } else {
            self.bump();
            proof {
                assert(self.chars@[old(self).i as int] == first);
            }
            Err(self.err(start, LexErrorKind::UnexpectedChar(first)))
        }
    }

    fn lex_ident(&mut self, start: usize) -> (r: Spanned<Token>)
        requires
            old(self).wf(),
            old(self).i < old(self).chars.len(),
            spec_is_ident_start(old(self).chars@[old(self).i as int]),
            start == old(self).spec_pos(),
        ensures
            final(self).wf(),
            final(self).same_source(old(self)),
            old(self).i < final(self).i,
            final(self).has_token_on_line == old(self).has_token_on_line,
            r.span.start == start,
            r.span.end == final(self).spec_pos(),
            token_ok(r),
            r.value is Ident,
            final(self).delimiter_depth == old(self).delimiter_depth,
            lexed_as(Ok(r), final(self).i as int, ident_token(old(self).chars@, old(self).i as int)),
    {
        let mut s = String::new();
        let begin = self.i;
        while self.i < self.chars.len() && is_ident_char(self.chars[self.i])
            invariant
                self.wf(),
                self.same_source(old(self)),
                begin == old(self).i,
                begin <= self.i,
                self.has_token_on_line == old(self).has_token_on_line,
                self.delimiter_depth == old(self).delimiter_depth,
                ident_end(self.chars@, begin as int) == ident_end(self.chars@, self.i as int),
                s@ == self.chars@.subrange(begin as int, self.i as int),
                forall|k: int| begin <= k < self.i ==> spec_is_ident_char(#[trigger] self.chars@[k]),
            decreases self.chars.len() - self.i,
        {
            let c = self.chars[self.i];
            push_char(&mut s, c);
            self.bump();
            assert(s@ =~= self.chars@.subrange(begin as int, self.i as int));
        }
        proof {
            assert(self.offs@[begin as int] <= self.offs@[self.i as int]);
            assert forall|k: int| 0 <= k < s@.len() implies spec_is_ident_char(#[trigger] s@[k]) by {
                assert(s@[k] == self.chars@[begin + k]);
            }
        }
        Spanned { value: Token::Ident(s), span: mk_span(start, self.pos()) }
    }

    fn lex_number(&mut self, start: usize) -> (r: Result<Spanned<Token>, LexError>)
        requires
            old(self).wf(),
            old(self).i < old(self).chars.len(),
            spec_is_digit(old(self).chars@[old(self).i as int]),
            start == old(self).spec_pos(),
        ensures
            final(self).wf(),
            final(self).same_source(old(self)),
            old(self).i < final(self).i,
            final(self).has_token_on_line == old(self).has_token_on_line,
            match r {
                Ok(t) => {
                    &&& t.span.start == start
                    &&& t.span.end == final(self).spec_pos()
                    &&& token_ok(t)
                    &&& (t.value is Int || t.value is Float)
                },
                Err(e) => lex_error_ok(e, final(self).chars@),
            },
            final(self).delimiter_depth == old(self).delimiter_depth,
            lexed_as(r, final(self).i as int, number_token(old(self).chars@, old(self).i as int)),
    {
        let mut s = String::new();
        let mut is_float = false;
        let mut dot: usize = 0;
        let begin = self.i;
        // The integer value of the digits read so far, while it fits in an i64.
        let mut value: i64 = 0;
        let mut overflow = false;
        loop
            invariant
                self.wf(),
                self.same_source(old(self)),
                begin == old(self).i,
                begin < self.chars.len(),
                begin <= self.i,
                self.i > begin ==> s@.len() > 0,
                self.has_token_on_line == old(self).has_token_on_line,
                s@ == self.chars@.subrange(begin as int, self.i as int),
                spec_is_digit(self.chars@[begin as int]),
                is_float ==> 0 < dot < s@.len() && s@[dot as int] == '.',
                is_float && dot == s@.len() - 1 ==> self.i < self.chars.len() && spec_is_digit(
                    self.chars@[self.i as int],
                ),
                forall|k: int|
                    0 <= k < s@.len() && !(is_float && k == dot) ==> spec_is_digit(#[trigger] s@[k]),
                !is_float ==> (overflow <==> digits_value(s@) > i64::MAX),
                !is_float && !overflow ==> value == digits_value(s@),
                value >= 0,
                self.delimiter_depth == old(self).delimiter_depth,
                number_end(self.chars@, begin as int, false) == number_end(self.chars@, self.i as int, is_float),
            ensures
                is_float ==> 0 < dot < s@.len() - 1,
                begin < self.i,
                number_end(self.chars@, self.i as int, is_float) == (self.i as int, is_float),
            decreases self.chars.len() - self.i,
        {
            if self.i >= self.chars.len() {
                break ;
            }
            let c = self.chars[self.i];
            if is_digit(c) {
                if !is_float {
                    proof {
                        assert(s@.push(c).drop_last() =~= s@);
                        assert(digits_value(s@.push(c)) == digits_value(s@) * 10 + (c as int
                            - '0' as int));
                        lemma_digits_value_nonneg(s@);
                    }
                    if !overflow {
                        let d = (c as u32 - '0' as u32) as i64;
                        if value > (i64::MAX - d) / 10 {
                            overflow = true;
                            proof {
                                assert(value * 10 + d > i64::MAX) by (nonlinear_arith)
                                    requires
                                        value > (i64::MAX - d) / 10,
                                        0 <= d <= 9,
                                ;
                            }
                        } else {
                            proof {
                                assert(value * 10 + d <= i64::MAX) by (nonlinear_arith)
                                    requires
                                        value <= (i64::MAX - d) / 10,
                                        0 <= d <= 9,
                                        value >= 0,
                                ;
                            }
                            value = value * 10 + d;
                        }
                    } else {
                        proof {
                            assert(digits_value(s@) * 10 >= digits_value(s@)) by (nonlinear_arith)
                                requires
                                    digits_value(s@) >= 0,
                            ;
                        }
                    }
                }
                push_char(&mut s, c);
                self.bump();
                assert(s@ =~= self.chars@.subrange(begin as int, self.i as int));
            } else if c == '.' && !is_float && match self.peek_second_ch() {
                Some(d) => is_digit(d),
                None => false,
            } {
                is_float = true;
                dot = s.as_str().unicode_len();
                push_char(&mut s, '.');
                self.bump();
                assert(s@ =~= self.chars@.subrange(begin as int, self.i as int));
            } else {
                break ;
            }
        }
        proof {
            assert(self.offs@[begin as int] <= self.offs@[self.i as int]);
        }
        if is_float {
            proof {
                // the dot was followed by a digit, which was consumed
                assert(dot < s@.len() - 1);
                assert(s@[dot as int] == '.');
                assert(forall|k: int|
                    0 <= k < s@.len() && k != dot ==> spec_is_digit(#[trigger] s@[k]));
                assert(float_dot_at(s@, dot as int));
            }
            let ghost sv = s@;
            let t = Spanned { value: Token::Float(s), span: mk_span(start, self.pos()) };
            assert(span_ok(t.span));
            assert(t.value matches Token::Float(x) && x@ == sv);
            assert(exists|d: int| float_dot_at(sv, d));
            assert(token_ok(t));
            Ok(t)
        } else if overflow {
            proof {
                assert(self.offs@[begin + 1] == self.offs@[begin as int] + char_width(
                    self.chars@[begin as int],
                ));
                assert(self.offs@[begin + 1] <= self.offs@[self.chars.len() as int]);
            }
            let e = self.err(start, LexErrorKind::InvalidNumber(s));
            Err(e)
        } else {
            let t = Spanned { value: Token::Int(value), span: mk_span(start, self.pos()) };
            assert(token_ok(t));
            Ok(t)
        }
    }

    /// Push the pending literal run as a segment, if it is non-empty.
    fn flush_literal(
        segs: &mut Vec<Spanned<StringSegment>>,
        lit: &mut String,
        lit_start: &mut usize,
        end: usize,
    )
        requires
            *old(lit_start) <= end,
        ensures
            final(lit)@.len() == 0,
            *final(lit_start) == (if old(lit)@.len() > 0 {
                end
            } else {
                *old(lit_start)
            }),
            old(lit)@.len() > 0 ==> final(segs)@ == old(segs)@.push(
                Spanned {
                    value: StringSegment::Literal(*old(lit)),
                    span: spec_span(*old(lit_start), end),
                },
            ),
            old(lit)@.len() == 0 ==> final(segs)@ == old(segs)@,
    {
        if !lit.as_str().is_empty() {
            let v = lit.clone();
            segs.push(Spanned { value: StringSegment::Literal(v), span: mk_span(*lit_start, end) });
            *lit = String::new();
            *lit_start = end;
        } else {
            *lit = String::new();
        }
    }

    /// The body of an interpolation whose `{` (at byte `brace`) was just
    /// consumed, up to and including its `}`.
    fn lex_interp(&mut self, brace: usize) -> (r: Result<String, LexError>)
        requires
            old(self).wf(),
            brace < old(self).spec_pos(),
        ensures
            final(self).wf(),
            final(self).same_source(old(self)),
            old(self).i <= final(self).i,
            final(self).has_token_on_line == old(self).has_token_on_line,
            final(self).delimiter_depth == old(self).delimiter_depth,
            r matches Ok(x) ==> brace < final(self).spec_pos() && forall|k: int|
                0 <= k < x@.len() ==> interp_char_ok(#[trigger] x@[k]),
            r matches Err(e) ==> lex_error_ok(e, final(self).chars@),
            match interp_scan(old(self).chars@, old(self).i as int, brace, Seq::empty()) {
                Ok((body, j)) => r matches Ok(x) && x@ == body && final(self).i == j,
                Err(e) => r matches Err(x) && lex_err_view(x) == e,
            },
    {
        let ghost c = self.chars@;
        let mut interp = String::new();
        loop
            invariant
                self.wf(),
                self.same_source(old(self)),
                c == self.chars@,
                old(self).i <= self.i,
                self.has_token_on_line == old(self).has_token_on_line,
                self.delimiter_depth == old(self).delimiter_depth,
                brace < self.spec_pos(),
                forall|k: int| 0 <= k < interp@.len() ==> interp_char_ok(#[trigger] interp@[k]),
                interp_scan(c, old(self).i as int, brace, Seq::empty()) == interp_scan(
                    c,
                    self.i as int,
                    brace,
                    interp@,
                ),
            decreases self.chars.len() - self.i,
        {
            if self.i >= self.chars.len() {
                return Err(
                    LexError { kind: LexErrorKind::UnterminatedInterpolation, span: mk_span(brace, self.source_len) },
                );
            }
            let ch = self.chars[self.i];
            proof {
                assert(self.offs@[self.i + 1] == self.offs@[self.i as int] + char_width(self.chars@[self.i as int]));
                assert(self.offs@[self.i + 1] <= self.offs@[self.chars.len() as int]);
            }
            if ch == '}' {
                self.bump();
                return Ok(interp);
            } else if ch == '"' || ch == '{' {
                // Interpolation bodies are restricted to simple expressions: a
                // string literal or nested `{}` would need a delimiter-aware
                // scanner, so reject them.
                let q = self.pos();
                proof {
                    assert(self.chars@[self.i as int] == ch);
                }
                return Err(LexError { kind: LexErrorKind::UnexpectedChar(ch), span: mk_span(q, q + 1) });
            } else {
                let ghost old_interp = interp@;
                push_char(&mut interp, ch);
                self.bump();
                proof {
                    assert forall|k: int| 0 <= k < interp@.len() implies interp_char_ok(#[trigger] interp@[k]) by {
                        if k < old_interp.len() {
                            assert(interp@[k] == old_interp[k]);
                        }
                    }
                }
            }
        }
    }

    #[verifier::rlimit(40)]
    fn lex_string(&mut self, start: usize) -> (r: Result<Spanned<Token>, LexError>)
        requires
            old(self).wf(),
            old(self).i < old(self).chars.len(),
            old(self).chars@[old(self).i as int] == '"',
            start == old(self).spec_pos(),
        ensures
            final(self).wf(),
            final(self).same_source(old(self)),
            old(self).i < final(self).i,
            final(self).has_token_on_line == old(self).has_token_on_line,
            final(self).delimiter_depth == old(self).delimiter_depth,
            match r {
                Ok(t) => {
                    &&& t.span.start == start
                    &&& t.span.end == final(self).spec_pos()
                    &&& token_ok(t)
                    &&& t.value is String
                },
                Err(e) => lex_error_ok(e, final(self).chars@),
            },
            lexed_as(r, final(self).i as int, string_token(old(self).chars@, old(self).i as int)),
    {
        let ghost c = self.chars@;
        let ghost i0 = self.i as int;
        self.bump();  // consume opening quote
        let mut segs: Vec<Spanned<StringSegment>> = Vec::new();
        let mut lit = String::new();
        let mut lit_start = self.pos();
        proof {
            assert(self.offs@[old(self).i as int] <= self.offs@[self.i as int]);
            assert(segs_view(segs@) =~= Seq::<(SegV, Span)>::empty());
        }
        loop
            invariant
                self.wf(),
                self.same_source(old(self)),
                c == self.chars@,
                i0 == old(self).i,
                start == bpos(c, i0),
                old(self).i < self.i,
                self.has_token_on_line == old(self).has_token_on_line,
                self.delimiter_depth == old(self).delimiter_depth,
                start <= lit_start <= self.spec_pos(),
                lit@.len() > 0 ==> lit_start < self.spec_pos(),
                segments_ok(segs@, spec_span(start, lit_start)),
                string_scan(c, i0 + 1, start, Seq::empty(), Seq::empty(), bpos(c, i0 + 1)) == string_scan(
                    c,
                    self.i as int,
                    start,
                    segs_view(segs@),
                    lit@,
                    lit_start,
                ),
            decreases self.chars.len() - self.i,
        {
            if self.i >= self.chars.len() {
                return Err(LexError { kind: LexErrorKind::UnterminatedString, span: mk_span(start, self.source_len) });
            }
            let c0 = self.chars[self.i];
            let p = self.pos();
            proof {
                assert(self.offs@[self.i + 1] == self.offs@[self.i as int] + char_width(self.chars@[self.i as int]));
                assert(self.offs@[self.i + 1] <= self.offs@[self.chars.len() as int]);
            }
            if c0 == '"' {
                // A literal piece ends before the closing quote.
                let ghost before = segs@;
                Self::flush_literal(&mut segs, &mut lit, &mut lit_start, p);
                proof {
                    if segs@.len() > before.len() {
                        assert(segs_view(segs@) =~= segs_view(before).push(seg_view(segs@.last())));
                    }
                }
                self.bump();
                let endp = self.pos();
                return Ok(Spanned { value: Token::String(segs), span: mk_span(start, endp) });
            } else if c0 == '\n' {
                // Strings occupy one physical line; use the `\n` escape.
                return Err(LexError { kind: LexErrorKind::NewlineInString, span: mk_span(p, p + 1) });
            } else if c0 == '\\' {
                self.bump();  // consume backslash
                if self.i >= self.chars.len() {
                    return Err(LexError { kind: LexErrorKind::UnterminatedString, span: mk_span(start, self.source_len) });
                }
                let ep = self.pos();
                let esc = self.chars[self.i];
                proof {
                    assert(self.offs@[self.i + 1] == self.offs@[self.i as int] + char_width(self.chars@[self.i as int]));
                    assert(self.offs@[self.i + 1] <= self.offs@[self.chars.len() as int]);
                }
                let mapped = if esc == 'n' {
                    '\n'
                } else if esc == 't' {
                    '\t'
                } else if esc == '"' || esc == '\\' || esc == '{' || esc == '}' {
                    esc
                } else {
                    let w = char_len(esc);
                    self.bump();
                    proof {
                        assert(self.chars@[self.i - 1] == esc);
                    }
                    return Err(LexError { kind: LexErrorKind::InvalidEscape(esc), span: mk_span(ep, ep + w) });
                };
                push_char(&mut lit, mapped);
                self.bump();  // consume the escaped char
            } else if c0 == '{' {
                let ghost before = segs@;
                Self::flush_literal(&mut segs, &mut lit, &mut lit_start, p);
                proof {
                    if segs@.len() > before.len() {
                        assert(segs_view(segs@) =~= segs_view(before).push(seg_view(segs@.last())));
                    } else {
                        assert(segs_view(segs@) =~= segs_view(before));
                    }
                }
                let brace_start = p;
                self.bump();  // consume '{'
                let interp = match self.lex_interp(brace_start) {
                    Ok(x) => x,
                    Err(e) => {
                        return Err(e);
                    },
                };
                // The segment span covers the whole `{...}`.
                let brace_end = self.pos();
                let ghost old_segs = segs@;
                proof {
                    assert(segment_ok(StringSegment::Interpolation(interp)));
                }
                segs.push(Spanned { value: StringSegment::Interpolation(interp), span: mk_span(brace_start, brace_end) });
                lit_start = brace_end;
                proof {
                    assert(segs_view(segs@) =~= segs_view(old_segs).push(seg_view(segs@.last())));
                    assert(lit@ =~= Seq::<char>::empty());
                    assert(segments_ok(segs@, spec_span(start, lit_start))) by {
                        assert forall|k: int| 0 <= k < segs@.len() - 1 implies (#[trigger] segs@[k]).span.end <= segs@[k + 1].span.start by {
                            if k < old_segs.len() - 1 {
                                assert(segs@[k] == old_segs[k]);
                            }
                        }
                    }
                }
            } else {
                push_char(&mut lit, c0);
                self.bump();
            }
        }
    }
}

/// A token stream under construction: ordered, free of `Eof`, ending at or
/// before byte `pos`, with `Newline` tokens separating non-empty lines.
pub open spec fn stream_ok(out: Seq<Spanned<Token>>, pos: int) -> bool {
    &&& tokens_ordered(out)
    &&& forall|k: int| 0 <= k < out.len() ==> !((#[trigger] out[k]).value is Eof)
    &&& forall|k: int| 0 <= k < out.len() ==> (#[trigger] out[k]).span.end <= pos
    &&& newlines_separate(out)
}

proof fn lemma_push_token(out: Seq<Spanned<Token>>, t: Spanned<Token>, p0: int, p1: int)
    requires
        stream_ok(out, p0),
        token_ok(t),
        !(t.value is Eof),
        p0 <= t.span.start,
        t.span.end <= p1,
        t.value is Newline ==> out.len() > 0 && !(out.last().value is Newline),
    ensures
        stream_ok(out.push(t), p1),
{
    let o = out.push(t);
    assert forall|k: int| 0 <= k < o.len() implies token_ok(#[trigger] o[k]) by {
        if k < out.len() {
            assert(o[k] == out[k]);
        }
    }
    assert forall|k: int| 0 <= k < o.len() - 1 implies (#[trigger] o[k]).span.end <= o[k + 1].span.start by {
        assert(o[k] == out[k]);
        if k < out.len() - 1 {
            assert(o[k + 1] == out[k + 1]);
        }
    }
    assert forall|k: int| 0 <= k < o.len() implies !((#[trigger] o[k]).value is Eof) by {
        if k < out.len() {
            assert(o[k] == out[k]);
        }
    }
    assert forall|k: int| 0 <= k < o.len() implies (#[trigger] o[k]).span.end <= p1 by {
        if k < out.len() {
            assert(o[k] == out[k]);
            assert(out[k].span.end <= p0);
        }
    }
    assert forall|k: int| 0 <= k < o.len() && (#[trigger] o[k]).value is Newline implies k > 0
        && !(o[k - 1].value is Newline) by {
        if k < out.len() {
            assert(o[k] == out[k]);
            assert(o[k - 1] == out[k - 1]);
        } else {
            assert(o[k - 1] == out.last());
        }
    }
}

/// Tokenise `src` into a token stream ending in [`Token::Eof`].
///
/// On success the tokens are in source order, every span lies inside the
/// source, the last token is `Eof` spanning the end of input, and `Newline`
/// tokens only ever end a non-empty logical line.
#[verifier::rlimit(100)]
pub fn tokenize(src: &str) -> (r: Result<Vec<Spanned<Token>>, LexError>)
    ensures
        match r {
            Ok(toks) => {
                &&& toks@.len() >= 1
                &&& toks@.last().value is Eof
                &&& toks@.last().span == spec_span(utf8_len(src@) as usize, utf8_len(src@) as usize)
                &&& stream_ok(toks@.drop_last(), utf8_len(src@) as int)
                &&& newlines_separate(toks@)
            },
            Err(e) => lex_error_ok(e, src@),
        },
        match spec_tokenize(src@) {
            Ok(ts) => r matches Ok(toks) && toks_view(toks@) == ts,
            Err(e) => r matches Err(x) && lex_err_view(x) == e,
        },
{
    let mut lx = Lexer::new(src);
    let mut out: Vec<Spanned<Token>> = Vec::new();
    proof {
        assert(toks_view(out@) =~= Seq::<(TokenV, Span)>::empty());
    }
    loop
        invariant
            lx.wf(),
            lx.chars@ == src@,
            stream_ok(out@, lx.spec_pos() as int),
            out@.len() == 0 ==> !lx.has_token_on_line,
            out@.len() > 0 ==> (out@.last().value is Newline <==> !lx.has_token_on_line),
            spec_tokenize(src@) == lex_all(src@, lx.i as int, lx.delimiter_depth, lx.has_token_on_line, toks_view(out@)),
        ensures
            lex_step(src@, lx.i as int, lx.delimiter_depth, lx.has_token_on_line) is Done,
        decreases lx.chars.len() - lx.i,
    {
        let ghost p0 = lx.spec_pos();
        let ghost i0 = lx.i;
        let ghost v0 = toks_view(out@);
        match lx.next_token() {
            Err(e) => {
                return Err(e);
            },
            Ok(None) => {
                break ;
            },
            Ok(Some(t)) => {
                proof {
                    assert(lx.offs@[i0 as int] <= lx.offs@[lx.i as int]);
                    lemma_push_token(out@, t, p0 as int, lx.spec_pos() as int);
                }
                out.push(t);
                proof {
                    assert(toks_view(out@) =~= v0.push((token_view(t.value), t.span)));
                }
            },
        }
    }
    let end = lx.source_len;
    // Flush a trailing newline if the final line had tokens but no newline. Do
    // not fabricate one while still inside an unclosed `(`/`[` group.
    if lx.delimiter_depth == 0 && lx.has_token_on_line {
        let t = Spanned { value: Token::Newline, span: mk_span(end, end) };
        proof {
            lemma_push_token(out@, t, end as int, end as int);
        }
        let ghost v0 = toks_view(out@);
        out.push(t);
        proof {
            assert(toks_view(out@) =~= v0.push((token_view(t.value), t.span)));
        }
    }
    let ghost body = out@;
    out.push(Spanned { value: Token::Eof, span: mk_span(end, end) });
    proof {
        assert(toks_view(out@) =~= toks_view(body).push((TokenV::Eof, spec_span(end, end))));
        assert(out@.drop_last() =~= body);
        assert forall|k: int| 0 <= k < out@.len() && (#[trigger] out@[k]).value is Newline implies k > 0
            && !(out@[k - 1].value is Newline) by {
            assert(out@[k] == body[k]);
            assert(out@[k - 1] == body[k - 1]);
        }
    }
    Ok(out)
}

/// The 1-based line and column of byte offset `byte`: one line per newline
/// before it, columns counted in characters.
pub open spec fn spec_line_col(src: Seq<char>, byte: int) -> (int, int)
    decreases src.len(),
{
    if src.len() == 0 {
        (1, 1)
    } else {
        let prev = spec_line_col(src.drop_last(), byte);
        if byte_offset(src, src.len() - 1) >= byte {
            prev
        } else if src.last() == '\n' {
            (prev.0 + 1, 1)
        } else {
            (prev.0, prev.1 + 1)
        }
    }
}

/// Convert a byte offset into a 1-based `(line, column)` pair within `src`.
///
/// The column counts Unicode scalar values, not bytes and not terminal
/// display width.
pub fn line_col(src: &str, byte: usize) -> (r: (usize, usize))
    ensures
        r.0 == spec_line_col(src@, byte as int).0,
        r.1 == spec_line_col(src@, byte as int).1,
{
    let chars = str_chars(src);
    proof {
        lemma_len_le_utf8_len(chars@);
    }
    let mut line: usize = 1;
    let mut col: usize = 1;
    let mut off: usize = 0;
    let mut k: usize = 0;
    while k < chars.len()
        invariant
            chars@ == src@,
            k <= chars.len(),
            utf8_len(chars@) <= usize::MAX,
            off == byte_offset(chars@, k as int),
            line as int == spec_line_col(chars@.take(k as int), byte as int).0,
            col as int == spec_line_col(chars@.take(k as int), byte as int).1,
            1 <= line,
            1 <= col,
            line + col <= k + 2,
            chars.len() <= isize::MAX,
        decreases chars.len() - k,
    {
        proof {
            lemma_utf8_len_take_step(chars@, k as int);
            lemma_utf8_len_take_mono(chars@, k + 1, chars.len() as int);
            assert(chars@.take(chars.len() as int) =~= chars@);
            let t = chars@.take(k + 1);
            assert(t.drop_last() =~= chars@.take(k as int));
            assert(t.take(k as int) =~= chars@.take(k as int));
            assert(t.last() == chars@[k as int]);
        }
        if off >= byte {
            // Characters at or after `byte` do not move the position.
            proof {
                lemma_line_col_stays(chars@, k as int, byte as int);
            }
            assert(chars@.take(chars.len() as int) =~= chars@);
            return (line, col);
        }
        let c = chars[k];
        if c == '\n' {
            line = line + 1;
            col = 1;
        } else {
            col = col + 1;
        }
        off = off + char_len(c);
        k = k + 1;
    }
    assert(chars@.take(chars.len() as int) =~= chars@);
    (line, col)
}

/// Once the offset of the `k`-th character reaches `byte`, later characters
/// do not change the line or column.
proof fn lemma_line_col_stays(s: Seq<char>, k: int, byte: int)
    requires
        0 <= k <= s.len(),
        byte_offset(s, k) >= byte,
    ensures
        spec_line_col(s, byte) == spec_line_col(s.take(k), byte),
    decreases s.len() - k,
{
    if k < s.len() {
        assert(s.drop_last().take(k) =~= s.take(k));
        assert(s.drop_last().take(s.len() - 1) =~= s.drop_last());
        assert(s.take(s.len() - 1) =~= s.drop_last());
        lemma_utf8_len_take_mono(s, k, s.len() - 1);
        assert(byte_offset(s.drop_last(), k) == byte_offset(s, k));
        lemma_line_col_stays(s.drop_last(), k, byte);
    } else {
        assert(s.take(k) =~= s);
    }
}


// ---- the lexer as a function of the source ----

/// The model of a string segment.
pub enum SegV {
    Literal(Seq<char>),
    Interpolation(Seq<char>),
}

/// The model of a token, with texts as character sequences.
pub enum TokenV {
    Ident(Seq<char>),
    Int(i64),
    Float(Seq<char>),
    Str(Seq<(SegV, Span)>),
    LParen,
    RParen,
    LBracket,
    RBracket,
    Comma,
    Dot,
    At,
    Assign,
    Equal,
    NotEq,
    Lt,
    Gt,
    LtEq,
    GtEq,
    Plus,
    Minus,
    Star,
    Slash,
    Newline,
    Eof,
}

/// The model of an error kind.
pub enum LexErrKindV {
    UnterminatedString,
    NewlineInString,
    UnterminatedInterpolation,
    InvalidEscape(char),
    InvalidNumber(Seq<char>),
    UnexpectedChar(char),
}

pub open spec fn seg_view(s: Spanned<StringSegment>) -> (SegV, Span) {
    (
        match s.value {
            StringSegment::Literal(t) => SegV::Literal(t@),
            StringSegment::Interpolation(t) => SegV::Interpolation(t@),
        },
        s.span,
    )
}

pub open spec fn segs_view(s: Seq<Spanned<StringSegment>>) -> Seq<(SegV, Span)> {
    Seq::new(s.len(), |k: int| seg_view(s[k]))
}

pub open spec fn token_view(t: Token) -> TokenV {
    match t {
        Token::Ident(s) => TokenV::Ident(s@),
        Token::Int(n) => TokenV::Int(n),
        Token::Float(s) => TokenV::Float(s@),
        Token::String(segs) => TokenV::Str(segs_view(segs@)),
        Token::LParen => TokenV::LParen,
        Token::RParen => TokenV::RParen,
        Token::LBracket => TokenV::LBracket,
        Token::RBracket => TokenV::RBracket,
        Token::Comma => TokenV::Comma,
        Token::Dot => TokenV::Dot,
        Token::At => TokenV::At,
        Token::Assign => TokenV::Assign,
        Token::Equal => TokenV::Equal,
        Token::NotEq => TokenV::NotEq,
        Token::Lt => TokenV::Lt,
        Token::Gt => TokenV::Gt,
        Token::LtEq => TokenV::LtEq,
        Token::GtEq => TokenV::GtEq,
        Token::Plus => TokenV::Plus,
        Token::Minus => TokenV::Minus,
        Token::Star => TokenV::Star,
        Token::Slash => TokenV::Slash,
        Token::Newline => TokenV::Newline,
        Token::Eof => TokenV::Eof,
    }
}

pub open spec fn toks_view(s: Seq<Spanned<Token>>) -> Seq<(TokenV, Span)> {
    Seq::new(s.len(), |k: int| (token_view(s[k].value), s[k].span))
}

pub open spec fn lex_err_view(e: LexError) -> (LexErrKindV, Span) {
    (
        match e.kind {
            LexErrorKind::UnterminatedString => LexErrKindV::UnterminatedString,
            LexErrorKind::NewlineInString => LexErrKindV::NewlineInString,
            LexErrorKind::UnterminatedInterpolation => LexErrKindV::UnterminatedInterpolation,
            LexErrorKind::InvalidEscape(c) => LexErrKindV::InvalidEscape(c),
            LexErrorKind::InvalidNumber(t) => LexErrKindV::InvalidNumber(t@),
            LexErrorKind::UnexpectedChar(c) => LexErrKindV::UnexpectedChar(c),
        },
        e.span,
    )
}

/// The byte offset of character `k`.
pub open spec fn bpos(c: Seq<char>, k: int) -> usize {
    byte_offset(c, k) as usize
}

/// The span of the characters `i..j`.
pub open spec fn char_span(c: Seq<char>, i: int, j: int) -> Span {
    spec_span(bpos(c, i), bpos(c, j))
}

/// The end of the identifier starting at `i`.
pub open spec fn ident_end(c: Seq<char>, i: int) -> int
    decreases c.len() - i,
{
    if 0 <= i < c.len() && spec_is_ident_char(c[i]) {
        ident_end(c, i + 1)
    } else {
        i
    }
}

/// The end of the number at `i`, and whether it has a fractional part:
/// digits, then at most one dot that a digit follows, then digits.
pub open spec fn number_end(c: Seq<char>, i: int, frac: bool) -> (int, bool)
    decreases c.len() - i,
{
    if 0 <= i < c.len() && spec_is_digit(c[i]) {
        number_end(c, i + 1, frac)
    } else if 0 <= i && i + 1 < c.len() && c[i] == '.' && !frac && spec_is_digit(c[i + 1]) {
        number_end(c, i + 1, true)
    } else {
        (i, frac)
    }
}

/// The end of a line comment whose text starts at `i`: the next newline,
/// which the comment does not take, or the end of input.
pub open spec fn comment_end(c: Seq<char>, i: int) -> int
    decreases c.len() - i,
{
    if 0 <= i < c.len() && c[i] != '\n' {
        comment_end(c, i + 1)
    } else {
        i
    }
}

/// The segments with the pending literal run `lit` (started at byte
/// `lit_start`) closed at byte `end`, if it is non-empty.
pub open spec fn flush_lit(segs: Seq<(SegV, Span)>, lit: Seq<char>, lit_start: usize, end: usize) -> Seq<(SegV, Span)> {
    if lit.len() > 0 {
        segs.push((SegV::Literal(lit), spec_span(lit_start, end)))
    } else {
        segs
    }
}

/// The body of an interpolation scanned from `i` (after its `{`, at byte
/// `brace`), and the index after its `}`.
pub open spec fn interp_scan(c: Seq<char>, i: int, brace: usize, acc: Seq<char>) -> Result<
    (Seq<char>, int),
    (LexErrKindV, Span),
>
    decreases c.len() - i,
{
    if i < 0 || i >= c.len() {
        Err((LexErrKindV::UnterminatedInterpolation, spec_span(brace, utf8_len(c) as usize)))
    } else if c[i] == '}' {
        Ok((acc, i + 1))
    } else if c[i] == '"' || c[i] == '{' {
        Err((LexErrKindV::UnexpectedChar(c[i]), spec_span(bpos(c, i), (bpos(c, i) + 1) as usize)))
    } else {
        interp_scan(c, i + 1, brace, acc.push(c[i]))
    }
}

pub proof fn lemma_interp_scan(c: Seq<char>, i: int, brace: usize, acc: Seq<char>)
    ensures
        interp_scan(c, i, brace, acc) matches Ok((_, j)) ==> i < j <= c.len(),
    decreases c.len() - i,
{
    if 0 <= i < c.len() && c[i] != '}' && c[i] != '"' && c[i] != '{' {
        lemma_interp_scan(c, i + 1, brace, acc.push(c[i]));
    }
}

/// The rest of a string literal scanned from `i`, given the segments so far,
/// the pending literal run and where it started; `start` is the byte of the
/// opening quote. The result is the segments and the index after the
/// closing quote.
pub open spec fn string_scan(
    c: Seq<char>,
    i: int,
    start: usize,
    segs: Seq<(SegV, Span)>,
    lit: Seq<char>,
    lit_start: usize,
) -> Result<(Seq<(SegV, Span)>, int), (LexErrKindV, Span)>
    decreases c.len() - i,
{
    if i < 0 || i >= c.len() {
        Err((LexErrKindV::UnterminatedString, spec_span(start, utf8_len(c) as usize)))
    } else if c[i] == '"' {
        Ok((flush_lit(segs, lit, lit_start, bpos(c, i)), i + 1))
    } else if c[i] == '\n' {
        Err((LexErrKindV::NewlineInString, spec_span(bpos(c, i), (bpos(c, i) + 1) as usize)))
    } else if c[i] == '\\' {
        if i + 1 >= c.len() {
            Err((LexErrKindV::UnterminatedString, spec_span(start, utf8_len(c) as usize)))
        } else if spec_is_escape(c[i + 1]) {
            string_scan(c, i + 2, start, segs, lit.push(spec_escaped(c[i + 1])), lit_start)
        } else {
            Err((LexErrKindV::InvalidEscape(c[i + 1]), char_span(c, i + 1, i + 2)))
        }
    } else if c[i] == '{' {
        match interp_scan(c, i + 1, bpos(c, i), Seq::empty()) {
            Err(e) => Err(e),
            Ok((body, j)) => {
                proof {
                    lemma_interp_scan(c, i + 1, bpos(c, i), Seq::empty());
                }
                string_scan(
                    c,
                    j,
                    start,
                    flush_lit(segs, lit, lit_start, bpos(c, i)).push(
                        (SegV::Interpolation(body), char_span(c, i, j)),
                    ),
                    Seq::empty(),
                    bpos(c, j),
                )
            },
        }
    } else {
        string_scan(c, i + 1, start, segs, lit.push(c[i]), lit_start)
    }
}

/// A token with its span and the index after it, or an error.
pub type Lexed = Result<(TokenV, Span, int), (LexErrKindV, Span)>;

pub open spec fn with_depth(r: Lexed, depth: usize) -> Result<(TokenV, Span, int, usize), (LexErrKindV, Span)> {
    match r {
        Ok((t, sp, j)) => Ok((t, sp, j, depth)),
        Err(e) => Err(e),
    }
}

/// The string literal whose opening quote is at `i`.
pub open spec fn string_token(c: Seq<char>, i: int) -> Lexed {
    match string_scan(c, i + 1, bpos(c, i), Seq::empty(), Seq::empty(), bpos(c, i + 1)) {
        Ok((segs, j)) => Ok((TokenV::Str(segs), char_span(c, i, j), j)),
        Err(e) => Err(e),
    }
}

/// The number starting at `i`: a decimal text when it has a fractional
/// part, else an integer, which must fit in an `i64`.
pub open spec fn number_token(c: Seq<char>, i: int) -> Lexed {
    let (j, frac) = number_end(c, i, false);
    let text = c.subrange(i, j);
    if frac {
        Ok((TokenV::Float(text), char_span(c, i, j), j))
    } else if digits_value(text) > i64::MAX {
        Err((LexErrKindV::InvalidNumber(text), char_span(c, i, j)))
    } else {
        Ok((TokenV::Int(digits_value(text) as i64), char_span(c, i, j), j))
    }
}

/// The identifier starting at `i`.
pub open spec fn ident_token(c: Seq<char>, i: int) -> Lexed {
    let j = ident_end(c, i);
    Ok((TokenV::Ident(c.subrange(i, j)), char_span(c, i, j), j))
}

/// The executable result `r`, with the lexer left at `i`, is `m`.
pub open spec fn lexed_as(r: Result<Spanned<Token>, LexError>, i: int, m: Lexed) -> bool {
    match m {
        Ok((t, sp, j)) => r matches Ok(x) && token_view(x.value) == t && x.span == sp && i == j,
        Err(e) => r matches Err(x) && lex_err_view(x) == e,
    }
}

/// One token lexed at index `i` (not whitespace, a newline or a comment),
/// with delimiter depth `depth`: the token, its span, the index after it
/// and the new depth.
pub open spec fn lex_token_at(c: Seq<char>, i: int, depth: usize) -> Result<
    (TokenV, Span, int, usize),
    (LexErrKindV, Span),
> {
    let ch = c[i];
    let one = |t: TokenV| Ok((t, char_span(c, i, i + 1), i + 1, depth));
    let eq = i + 1 < c.len() && c[i + 1] == '=';
    if ch == '(' || ch == '[' {
        Ok((
            if ch == '(' {
                TokenV::LParen
            } else {
                TokenV::LBracket
            },
            char_span(c, i, i + 1),
            i + 1,
            if depth < usize::MAX {
                (depth + 1) as usize
            } else {
                depth
            },
        ))
    } else if ch == ')' || ch == ']' {
        Ok((
            if ch == ')' {
                TokenV::RParen
            } else {
                TokenV::RBracket
            },
            char_span(c, i, i + 1),
            i + 1,
            if depth > 0 {
                (depth - 1) as usize
            } else {
                depth
            },
        ))
    } else if ch == ',' {
        one(TokenV::Comma)
    } else if ch == '.' {
        one(TokenV::Dot)
    } else if ch == '@' {
        one(TokenV::At)
    } else if ch == '+' {
        one(TokenV::Plus)
    } else if ch == '-' {
        one(TokenV::Minus)
    } else if ch == '*' {
        one(TokenV::Star)
    } else if ch == '/' {
        one(TokenV::Slash)
    } else if ch == '=' || ch == '<' || ch == '>' {
        let t = if ch == '=' {
            if eq {
                TokenV::Equal
            } else {
                TokenV::Assign
            }
        } else if ch == '<' {
            if eq {
                TokenV::LtEq
            } else {
                TokenV::Lt
            }
        } else if eq {
            TokenV::GtEq
        } else {
            TokenV::Gt
        };
        let j = if eq {
            i + 2
        } else {
            i + 1
        };
        Ok((t, char_span(c, i, j), j, depth))
    } else if ch == '!' {
        if eq {
            Ok((TokenV::NotEq, char_span(c, i, i + 2), i + 2, depth))
        } else {
            Err((LexErrKindV::UnexpectedChar('!'), char_span(c, i, i + 1)))
        }
    } else if ch == '"' {
        with_depth(string_token(c, i), depth)
    } else if spec_is_digit(ch) {
        with_depth(number_token(c, i), depth)
    } else if spec_is_ident_start(ch) {
        with_depth(ident_token(c, i), depth)
    } else {
        Err((LexErrKindV::UnexpectedChar(ch), char_span(c, i, i + 1)))
    }
}

/// What lexing from index `i` finds next.
pub enum LexStep {
    /// The end of input.
    Done,
    /// A token with its span, the index after it, the new delimiter depth
    /// and whether the logical line now holds a token.
    Tok(TokenV, Span, int, usize, bool),
    /// An error.
    Fail((LexErrKindV, Span)),
}

/// The next token from index `i`: blanks and comments are skipped; a newline
/// is a token only outside delimiters and after a token on its line.
pub open spec fn lex_step(c: Seq<char>, i: int, depth: usize, has: bool) -> LexStep
    decreases c.len() - i,
{
    if i < 0 || i >= c.len() {
        LexStep::Done
    } else if c[i] == ' ' || c[i] == '\t' || c[i] == '\r' {
        lex_step(c, i + 1, depth, has)
    } else if c[i] == '\n' {
        if depth == 0 && has {
            LexStep::Tok(TokenV::Newline, spec_span(bpos(c, i), (bpos(c, i) + 1) as usize), i + 1, depth, false)
        } else {
            lex_step(c, i + 1, depth, has)
        }
    } else if c[i] == '/' && i + 1 < c.len() && c[i + 1] == '/' {
        proof {
            lemma_comment_end(c, i + 1);
        }
        lex_step(c, comment_end(c, i + 1), depth, has)
    } else {
        match lex_token_at(c, i, depth) {
            Ok((t, sp, j, d)) => LexStep::Tok(t, sp, j, d, true),
            Err(e) => LexStep::Fail(e),
        }
    }
}

pub proof fn lemma_comment_end(c: Seq<char>, i: int)
    requires
        0 <= i <= c.len(),
    ensures
        i <= comment_end(c, i) <= c.len(),
    decreases c.len() - i,
{
    if 0 <= i < c.len() && c[i] != '\n' {
        lemma_comment_end(c, i + 1);
    }
}

proof fn lemma_ident_end(c: Seq<char>, i: int)
    requires
        0 <= i <= c.len(),
    ensures
        i <= ident_end(c, i) <= c.len(),
    decreases c.len() - i,
{
    if 0 <= i < c.len() && spec_is_ident_char(c[i]) {
        lemma_ident_end(c, i + 1);
    }
}

proof fn lemma_number_end(c: Seq<char>, i: int, frac: bool)
    requires
        0 <= i <= c.len(),
    ensures
        i <= number_end(c, i, frac).0 <= c.len(),
    decreases c.len() - i,
{
    if 0 <= i < c.len() && spec_is_digit(c[i]) {
        lemma_number_end(c, i + 1, frac);
    } else if 0 <= i && i + 1 < c.len() && c[i] == '.' && !frac && spec_is_digit(c[i + 1]) {
        lemma_number_end(c, i + 1, true);
    }
}

proof fn lemma_string_scan(c: Seq<char>, i: int, start: usize, segs: Seq<(SegV, Span)>, lit: Seq<char>, lit_start: usize)
    ensures
        string_scan(c, i, start, segs, lit, lit_start) matches Ok((_, j)) ==> i < j <= c.len(),
    decreases c.len() - i,
{
    if 0 <= i < c.len() && c[i] != '"' && c[i] != '\n' {
        if c[i] == '\\' {
            if i + 1 < c.len() && spec_is_escape(c[i + 1]) {
                lemma_string_scan(c, i + 2, start, segs, lit.push(spec_escaped(c[i + 1])), lit_start);
            }
        } else if c[i] == '{' {
            match interp_scan(c, i + 1, bpos(c, i), Seq::empty()) {
                Ok((body, j)) => {
                    lemma_interp_scan(c, i + 1, bpos(c, i), Seq::empty());
                    lemma_string_scan(
                        c,
                        j,
                        start,
                        flush_lit(segs, lit, lit_start, bpos(c, i)).push(
                            (SegV::Interpolation(body), char_span(c, i, j)),
                        ),
                        Seq::empty(),
                        bpos(c, j),
                    );
                },
                Err(_) => {},
            }
        } else {
            lemma_string_scan(c, i + 1, start, segs, lit.push(c[i]), lit_start);
        }
    }
}

pub proof fn lemma_lex_step_advances(c: Seq<char>, i: int, depth: usize, has: bool)
    ensures
        lex_step(c, i, depth, has) matches LexStep::Tok(_, _, j, _, _) ==> i < j <= c.len(),
    decreases c.len() - i,
{
    if 0 <= i < c.len() {
        if c[i] == ' ' || c[i] == '\t' || c[i] == '\r' {
            lemma_lex_step_advances(c, i + 1, depth, has);
        } else if c[i] == '\n' {
            if !(depth == 0 && has) {
                lemma_lex_step_advances(c, i + 1, depth, has);
            }
        } else if c[i] == '/' && i + 1 < c.len() && c[i + 1] == '/' {
            lemma_comment_end(c, i + 1);
            lemma_lex_step_advances(c, comment_end(c, i + 1), depth, has);
        } else {
            lemma_ident_end(c, i);
            lemma_number_end(c, i, false);
            lemma_string_scan(c, i + 1, bpos(c, i), Seq::empty(), Seq::empty(), bpos(c, i + 1));
            if spec_is_digit(c[i]) {
                lemma_number_end(c, i + 1, false);
            }
            if spec_is_ident_start(c[i]) {
                lemma_ident_end(c, i + 1);
            }
        }
    }
}

/// The tokens lexed from index `i` on, after `acc`: at the end of input a
/// `Newline` closes a pending line (outside delimiters), then `Eof`.
pub open spec fn lex_all(c: Seq<char>, i: int, depth: usize, has: bool, acc: Seq<(TokenV, Span)>) -> Result<
    Seq<(TokenV, Span)>,
    (LexErrKindV, Span),
>
    decreases c.len() - i,
{
    match lex_step(c, i, depth, has) {
        LexStep::Fail(e) => Err(e),
        LexStep::Done => {
            let end = spec_span(utf8_len(c) as usize, utf8_len(c) as usize);
            let body = if depth == 0 && has {
                acc.push((TokenV::Newline, end))
            } else {
                acc
            };
            Ok(body.push((TokenV::Eof, end)))
        },
        LexStep::Tok(t, sp, j, d, h) => {
            proof {
                lemma_lex_step_advances(c, i, depth, has);
            }
            lex_all(c, j, d, h, acc.push((t, sp)))
        },
    }
}

/// The tokens of a source text, or its first lexical error.
pub closed spec fn spec_tokenize(src: Seq<char>) -> Result<Seq<(TokenV, Span)>, (LexErrKindV, Span)> {
    lex_all(src, 0, 0, false, Seq::empty())
}

} // verus!
