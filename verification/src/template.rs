//! Minimal Jinja2-subset template engine.
//!
//! Supported syntax: `{{ name }}` interpolation, `{% if name %}...{% else
//! %}...{% endif %}`, and `{% for x in list %}...{% endfor %}`. Whitespace
//! control (`{%-`) and expressions richer than a bare name are out of scope.

use vstd::prelude::*;

use crate::text::{spec_trim, str_chars, string_from_range, str_eq, trimmed};
use crate::value::{dup_value, push_render, spec_render, spec_truthy, Value, ValueV, Vars};

verus! {

/// A parsed template, ready to render against a context.
#[derive(Debug, PartialEq)]
pub struct Template {
    nodes: Vec<Node>,
    /// The text the template was parsed from.
    source: String,
}

#[derive(Debug, PartialEq)]
enum Node {
    Text(String),
    /// `{{ name }}`.
    Var(String),
    /// `{% if name %} then {% else %} else {% endif %}`.
    If(String, Vec<Node>, Vec<Node>),
    /// `{% for item in list %} body {% endfor %}`.
    For(String, String, Vec<Node>),
}

/// A template parsing error.
#[derive(Debug, Clone, PartialEq)]
pub enum TemplateError {
    /// An expression `{{ ... }}` was not closed.
    UnterminatedExpr,
    /// A statement tag `{% ... %}` was not closed.
    UnterminatedTag,
    /// A control block was closed by the wrong tag, e.g. `endif` for a `for`.
    WrongClose { expected: &'static str, found: String },
    /// A closing tag appeared with no matching opener.
    UnmatchedClose(String),
    /// A `for` statement is malformed.
    MalformedFor(String),
}

/// The message of a template error.
pub open spec fn template_error_text(e: TemplateErrV) -> Seq<char> {
    match e {
        TemplateErrV::UnterminatedExpr => "unterminated `{{ }}`"@,
        TemplateErrV::UnterminatedTag => "unterminated `{% %}`"@,
        TemplateErrV::WrongClose { expected, found } => "expected `"@ + expected + "`, found `"@ + found + "`"@,
        TemplateErrV::UnmatchedClose(t) => "unmatched `"@ + t + "`"@,
        TemplateErrV::MalformedFor(t) => "malformed for statement `"@ + t + "`"@,
    }
}

impl TemplateError {
    /// The error message.
    pub fn message(&self) -> (r: String)
        ensures
            r@ == template_error_text(terr_view(*self)),
    {
        let mut s = String::new();
        match self {
            TemplateError::UnterminatedExpr => crate::text::push_str(&mut s, "unterminated `{{ }}`"),
            TemplateError::UnterminatedTag => crate::text::push_str(&mut s, "unterminated `{% %}`"),
            TemplateError::WrongClose { expected, found } => {
                crate::text::push_str(&mut s, "expected `");
                crate::text::push_str(&mut s, expected);
                crate::text::push_str(&mut s, "`, found `");
                crate::text::append_string(&mut s, found);
                crate::text::push_str(&mut s, "`");
            },
            TemplateError::UnmatchedClose(t) => {
                crate::text::push_str(&mut s, "unmatched `");
                crate::text::append_string(&mut s, t);
                crate::text::push_str(&mut s, "`");
            },
            TemplateError::MalformedFor(t) => {
                crate::text::push_str(&mut s, "malformed for statement `");
                crate::text::append_string(&mut s, t);
                crate::text::push_str(&mut s, "`");
            },
        }
        proof {
            assert(s@ =~= template_error_text(terr_view(*self)));
        }
        s
    }
}

// ---- lexing into flat pieces ----

#[derive(Debug, PartialEq)]
enum Piece {
    Text(String),
    Expr(String),
    Tag(String),
}

/// Whether a `{{` or `{%` opens at index `i`.
pub open spec fn opens_at(c: Seq<char>, i: int) -> bool {
    0 <= i && i + 1 < c.len() && c[i] == '{' && (c[i + 1] == '{' || c[i + 1] == '%')
}

/// Text holding no `{{` and no `{%`.
pub open spec fn plain_text(c: Seq<char>) -> bool {
    forall|i: int| 0 <= i < c.len() ==> !opens_at(c, i)
}

/// The first index `j >= from` where `x` is followed by `y`.
fn find_pair(c: &Vec<char>, from: usize, x: char, y: char) -> (r: Option<usize>)
    ensures
        match r {
            Some(j) => from <= j && j + 1 < c.len() && c@[j as int] == x && c@[j + 1] == y && j as int
                == find_pair_from(c@, from as int, x, y),
            None => find_pair_from(c@, from as int, x, y) == -1,
        },
{
    let mut j = from;
    while j < c.len() && j + 1 < c.len()
        invariant
            from <= j,
            find_pair_from(c@, from as int, x, y) == find_pair_from(c@, j as int, x, y),
        decreases c.len() - j,
    {
        if c[j] == x && c[j + 1] == y {
            return Some(j);
        }
        j = j + 1;
    }
    None
}

/// The pieces of plain text `s`: none for empty text, else one text piece.
spec fn pieces_are_text(p: Seq<Piece>, s: Seq<char>) -> bool {
    if s.len() == 0 {
        p.len() == 0
    } else {
        p.len() == 1 && (p[0] matches Piece::Text(t) && t@ == s)
    }
}

/// Split a template into text runs, `{{ ... }}` expressions and `{% ... %}`
/// tags (the inner text trimmed). Text holding no `{{` or `{%` is one text
/// piece.
fn lex_pieces(src: &str) -> (r: Result<Vec<Piece>, TemplateError>)
    ensures
        plain_text(src@) ==> (r matches Ok(p) && pieces_are_text(p@, src@)),
        r matches Err(e) ==> e is UnterminatedExpr || e is UnterminatedTag,
        match pieces_from(src@, 0, 0, Seq::empty()) {
            Ok(p) => r matches Ok(x) && pieces_view(x@) == p,
            Err(e) => r matches Err(x) && terr_view(x) == e,
        },
{
    let c = str_chars(src);
    let mut pieces: Vec<Piece> = Vec::new();
    let mut i: usize = 0;
    let mut text_start: usize = 0;
    proof {
        assert(pieces_view(pieces@) =~= Seq::<PieceV>::empty());
    }
    while i < c.len()
        invariant
            c@ == src@,
            text_start <= i,
            i <= c.len(),
            plain_text(src@) ==> pieces@.len() == 0 && text_start == 0,
            pieces_from(src@, 0, 0, Seq::empty()) == pieces_from(src@, i as int, text_start as int, pieces_view(pieces@)),
        decreases c.len() - i,
    {
        let ghost pv0 = pieces_view(pieces@);
        let expr_open = i + 1 < c.len() && c[i] == '{' && c[i + 1] == '{';
        let tag_open = i + 1 < c.len() && c[i] == '{' && c[i + 1] == '%';
        if expr_open || tag_open {
            proof {
                assert(opens_at(src@, i as int));
            }
            if i > text_start {
                pieces.push(Piece::Text(string_from_range(&c, text_start, i)));
                proof {
                    assert(pieces_view(pieces@) =~= pv0.push(PieceV::Text(src@.subrange(text_start as int, i as int))));
                }
            }
            let ghost pv1 = pieces_view(pieces@);
            let close_first = if expr_open {
                '}'
            } else {
                '%'
            };
            let end = match find_pair(&c, i + 2, close_first, '}') {
                Some(j) => j,
                None => {
                    return Err(
                        if expr_open {
                            TemplateError::UnterminatedExpr
                        } else {
                            TemplateError::UnterminatedTag
                        },
                    );
                },
            };
            let inner = trimmed(&c, i + 2, end);
            if expr_open {
                pieces.push(Piece::Expr(inner));
            } else {
                pieces.push(Piece::Tag(inner));
            }
            proof {
                assert(pieces_view(pieces@) =~= pv1.push(piece_view(pieces@.last())));
            }
            // advance past `{{ inner }}` / `{% inner %}`
            i = end + 2;
            text_start = i;
        } else {
            i = i + 1;
        }
    }
    let ghost pv2 = pieces_view(pieces@);
    if text_start < c.len() {
        let t = string_from_range(&c, text_start, c.len());
        pieces.push(Piece::Text(t));
        proof {
            assert(pieces_view(pieces@) =~= pv2.push(PieceV::Text(src@.subrange(text_start as int, src@.len() as int))));
            if plain_text(src@) {
                assert(c@.subrange(0, c@.len() as int) =~= src@);
            }
        }
    }
    Ok(pieces)
}

// ---- building the node tree ----

spec fn all_text(p: Seq<Piece>, start: int) -> bool {
    forall|k: int| start <= k < p.len() ==> (#[trigger] p[k]) is Text
}

/// The nodes are the text pieces from `start` on, one for one.
spec fn nodes_are_text(nodes: Seq<Node>, p: Seq<Piece>, start: int) -> bool {
    &&& nodes.len() == p.len() - start
    &&& forall|k: int|
        0 <= k < nodes.len() ==> (#[trigger] nodes[k] matches Node::Text(t) && p[start + k] matches Piece::Text(u)
            && t@ == u@)
}

fn tag_is(t: &String, name: &str) -> (r: bool)
    ensures
        r == (t@ == name@),
{
    str_eq(t.as_str(), name)
}

/// The text after `prefix`, if `s` starts with it.
fn strip_prefix(s: &String, prefix: &str) -> (r: Option<String>)
    ensures
        match r {
            Some(t) => crate::text::spec_starts_with(s@, prefix@) && t@ == s@.skip(prefix@.len() as int),
            None => !crate::text::spec_starts_with(s@, prefix@),
        },
{
    let c = str_chars(s.as_str());
    let p = str_chars(prefix);
    if crate::text::chars_match_at(&c, 0, &p) {
        assert(c@.skip(0) =~= c@);
        Some(string_from_range(&c, p.len(), c.len()))
    } else {
        assert(c@.skip(0) =~= c@);
        None
    }
}

/// Split `s` at the first ` in `, trimming both halves.
fn parse_for(s: &String) -> (r: Result<(String, String), TemplateError>)
    ensures
        match for_split(s@) {
            Some((v, l)) => r matches Ok((a, b)) && a@ == v && b@ == l,
            None => r matches Err(e) && terr_view(e) == TemplateErrV::MalformedFor(s@),
        },
{
    let c = str_chars(s.as_str());
    let pat = str_chars(" in ");
    proof {
        reveal_strlit(" in ");
    }
    let mut k: usize = 0;
    while k < c.len()
        invariant
            c@ == s@,
            pat@ == " in "@,
            pat@.len() == 4,
            find_in(s@, 0) == find_in(s@, k as int),
        decreases c.len() - k,
    {
        if crate::text::chars_match_at(&c, k, &pat) {
            let var = trimmed(&c, 0, k);
            proof {
                assert(k + pat@.len() <= c@.len());
            }
            let list = trimmed(&c, k + pat.len(), c.len());
            return Ok((var, list));
        }
        k = k + 1;
    }
    Err(TemplateError::MalformedFor(s.clone()))
}

fn piece_text(s: &String) -> (r: String)
    ensures
        r@ == s@,
{
    s.clone()
}

pub open spec fn prepend_all(
    ns: Seq<NodeV>,
    r: Result<(Seq<NodeV>, int, Option<Seq<char>>), TemplateErrV>,
) -> Result<(Seq<NodeV>, int, Option<Seq<char>>), TemplateErrV> {
    match r {
        Ok((xs, j, c)) => Ok((ns + xs, j, c)),
        Err(e) => Err(e),
    }
}

proof fn lemma_prepend_all_push(ns: Seq<NodeV>, n: NodeV, r: Result<(Seq<NodeV>, int, Option<Seq<char>>), TemplateErrV>)
    ensures
        prepend_all(ns, prepend(n, r)) == prepend_all(ns.push(n), r),
{
    match r {
        Ok((xs, j, c)) => {
            assert(ns + (seq![n] + xs) =~= ns.push(n) + xs);
        },
        Err(_) => {},
    }
}

spec fn build_view(r: Result<(Vec<Node>, usize, Option<String>), TemplateError>) -> Result<
    (Seq<NodeV>, int, Option<Seq<char>>),
    TemplateErrV,
> {
    match r {
        Ok((ns, j, c)) => Ok((nodes_view(ns@), j as int, crate::context::opt_text(c))),
        Err(e) => Err(terr_view(e)),
    }
}

proof fn lemma_push_view(ns: Seq<Node>, n: Node)
    ensures
        nodes_view(ns.push(n)) == nodes_view(ns).push(node_view(n)),
{
    assert(nodes_view(ns.push(n)) =~= nodes_view(ns).push(node_view(n)));
}

/// Build a sequence of nodes from `pieces[start..]`, stopping at a closer tag
/// (`else`, `endif` or `endfor`). Returns the nodes, the index of the closer
/// piece (or the number of pieces), and the closer's name.
#[verifier::rlimit(60)]
fn build(pieces: &Vec<Piece>, start: usize) -> (r: Result<(Vec<Node>, usize, Option<String>), TemplateError>)
    requires
        start <= pieces.len(),
    ensures
        r matches Ok((_, j, closer)) ==> start <= j <= pieces.len() && (closer is None ==> j
            == pieces.len()) && (closer is Some ==> j < pieces.len()),
        all_text(pieces@, start as int) ==> (r matches Ok((nodes, j, closer)) && j == pieces.len()
            && closer is None && nodes_are_text(nodes@, pieces@, start as int)),
        build_view(r) == build_from(pieces_view(pieces@), start as int),
        r matches Ok((_, j, Some(c))) ==> is_closer(c@) && (pieces@[j as int] matches Piece::Tag(t) && t@ == c@),
    decreases pieces.len() - start,
{
    proof {
        lemma_closer(pieces_view(pieces@), start as int);
    }
    let ghost pv = pieces_view(pieces@);
    let mut nodes: Vec<Node> = Vec::new();
    let mut i = start;
    proof {
        reveal_strlit("else");
        reveal_strlit("endif");
        assert("else"@.len() == 4);
        assert("endif"@.len() == 5);
        assert("else"@ != "endif"@);
        reveal_strlit("if ");
        reveal_strlit("for ");
        assert("if "@.len() == 3);
        assert("for "@.len() == 4);
        assert(nodes_view(nodes@) =~= Seq::<NodeV>::empty());
        match build_from(pv, start as int) {
            Ok((xs, j, c)) => {
                assert(Seq::<NodeV>::empty() + xs =~= xs);
            },
            Err(_) => {},
        }
    }
    while i < pieces.len()
        invariant
            start <= i <= pieces.len(),
            pv == pieces_view(pieces@),
            all_text(pieces@, start as int) ==> nodes_are_text(nodes@, pieces@.take(i as int), start as int),
            build_from(pv, start as int) == prepend_all(nodes_view(nodes@), build_from(pv, i as int)),
            "else"@ != "endif"@,
            "if "@.len() == 3,
            "for "@.len() == 4,
        decreases pieces.len() - i,
    {
        let ghost before = nodes@;
        proof {
            assert(pv[i as int] == piece_view(pieces@[i as int]));
        }
        match &pieces[i] {
            Piece::Text(s) => {
                nodes.push(Node::Text(piece_text(s)));
                proof {
                    lemma_push_view(before, nodes@.last());
                    lemma_prepend_all_push(nodes_view(before), NodeV::Text(s@), build_from(pv, i + 1));
                }
                i = i + 1;
            },
            Piece::Expr(s) => {
                nodes.push(Node::Var(piece_text(s)));
                proof {
                    lemma_push_view(before, nodes@.last());
                    lemma_prepend_all_push(nodes_view(before), NodeV::Var(s@), build_from(pv, i + 1));
                }
                i = i + 1;
            },
            Piece::Tag(t) => {
                if tag_is(t, "else") || tag_is(t, "endif") || tag_is(t, "endfor") {
                    proof {
                        assert(nodes_view(nodes@) + Seq::<NodeV>::empty() =~= nodes_view(nodes@));
                    }
                    return Ok((nodes, i, Some(t.clone())));
                }
                match strip_prefix(t, "if ") {
                    Some(cond) => {
                        let (then_nodes, j, closer) = match build(pieces, i + 1) {
                            Ok(x) => x,
                            Err(e) => {
                                return Err(e);
                            },
                        };
                        let closer = match closer {
                            Some(c) => c,
                            None => {
                                return Err(
                                    TemplateError::WrongClose {
                                        expected: "endif",
                                        found: crate::text::owned("end of template"),
                                    },
                                );
                            },
                        };
                        let mut j = j;
                        let else_nodes = if tag_is(&closer, "else") {
                            let (en, k, c) = match build(pieces, j + 1) {
                                Ok(x) => x,
                                Err(e) => {
                                    return Err(e);
                                },
                            };
                            match c {
                                Some(name) => {
                                    if !tag_is(&name, "endif") {
                                        return Err(TemplateError::WrongClose { expected: "endif", found: name });
                                    }
                                },
                                None => {
                                    return Err(
                                        TemplateError::WrongClose {
                                            expected: "endif",
                                            found: crate::text::owned("end of template"),
                                        },
                                    );
                                },
                            }
                            j = k;
                            en
                        } else if tag_is(&closer, "endif") {
                            Vec::new()
                        } else {
                            return Err(TemplateError::WrongClose { expected: "endif", found: closer });
                        };
                        let c = str_chars(cond.as_str());
                        let cond_t = trimmed(&c, 0, c.len());
                        proof {
                            assert(c@.subrange(0, c@.len() as int) =~= c@);
                        }
                        proof {
                            if else_nodes@.len() == 0 {
                                assert(nodes_view(else_nodes@) =~= Seq::<NodeV>::empty());
                            }
                        }
                        let n = Node::If(cond_t, then_nodes, else_nodes);
                        proof {
                            assert(node_view(n)->If_1 =~= nodes_view(then_nodes@));
                            assert(node_view(n)->If_2 =~= nodes_view(else_nodes@));
                            assert(build_from(pv, i as int) == prepend(node_view(n), build_from(pv, j + 1)));
                        }
                        nodes.push(n);
                        proof {
                            lemma_push_view(before, n);
                            lemma_prepend_all_push(nodes_view(before), node_view(n), build_from(pv, j + 1));
                        }
                        i = j + 1;
                    },
                    None => match strip_prefix(t, "for ") {
                        Some(rest) => {
                            let (var, list) = match parse_for(&rest) {
                                Ok(x) => x,
                                Err(e) => {
                                    return Err(e);
                                },
                            };
                            let (body, j, closer) = match build(pieces, i + 1) {
                                Ok(x) => x,
                                Err(e) => {
                                    return Err(e);
                                },
                            };
                            match closer {
                                Some(name) => {
                                    if !tag_is(&name, "endfor") {
                                        return Err(TemplateError::WrongClose { expected: "endfor", found: name });
                                    }
                                },
                                None => {
                                    return Err(
                                        TemplateError::WrongClose {
                                            expected: "endfor",
                                            found: crate::text::owned("end of template"),
                                        },
                                    );
                                },
                            }
                            let n = Node::For(var, list, body);
                            proof {
                                assert(node_view(n)->For_2 =~= nodes_view(body@));
                                assert(build_from(pv, i as int) == prepend(node_view(n), build_from(pv, j + 1)));
                            }
                            nodes.push(n);
                            proof {
                                lemma_push_view(before, n);
                                lemma_prepend_all_push(nodes_view(before), node_view(n), build_from(pv, j + 1));
                            }
                            i = j + 1;
                        },
                        None => {
                            return Err(TemplateError::UnmatchedClose(t.clone()));
                        },
                    },
                }
            },
        }
        proof {
            if all_text(pieces@, start as int) {
                assert(pieces@[i - 1] is Text);
                assert forall|k: int| 0 <= k < nodes@.len() implies (#[trigger] nodes@[k] matches Node::Text(t)
                    && pieces@.take(i as int)[start + k] matches Piece::Text(u) && t@ == u@) by {
                    if k < before.len() {
                        assert(nodes@[k] == before[k]);
                        assert(pieces@.take(i as int)[start + k] == pieces@.take(i - 1)[start + k]);
                    }
                }
            }
        }
    }
    proof {
        assert(pieces@.take(pieces@.len() as int) =~= pieces@);
        assert(nodes_view(nodes@) + Seq::<NodeV>::empty() =~= nodes_view(nodes@));
    }
    Ok((nodes, i, None))
}

impl Template {
    /// Parse a template string. Text holding no `{{` or `{%` always parses,
    /// and renders to itself.
    pub fn parse(src: &str) -> (r: Result<Template, TemplateError>)
        ensures
            match spec_template(src@) {
                Ok(m) => r matches Ok(t) && t.model() == m && t.source() == src@,
                Err(e) => r matches Err(x) && terr_view(x) == e,
            },
            plain_text(src@) ==> (r matches Ok(t) && forall|ctx: Map<Seq<char>, ValueV>|
                #[trigger] t.spec_render(ctx) == src@),
    {
        let pieces = match lex_pieces(src) {
            Ok(p) => p,
            Err(e) => {
                return Err(e);
            },
        };
        let (nodes, _next, closer) = match build(&pieces, 0) {
            Ok(x) => x,
            Err(e) => {
                return Err(e);
            },
        };
        if let Some(c) = closer {
            return Err(TemplateError::UnmatchedClose(c));
        }
        let t = Template { nodes, source: crate::text::owned(src) };
        proof {
            if plain_text(src@) {
                assert forall|ctx: Map<Seq<char>, ValueV>| #[trigger] t.spec_render(ctx) == src@ by {
                    let m = t.model();
                    if src@.len() > 0 {
                        assert(t.nodes@.len() == 1);
                        assert(t.nodes@[0] matches Node::Text(x) && x@ == src@);
                        assert(m[0] == node_view(t.nodes@[0]));
                        assert(m.last() == NodeV::Text(src@));
                        assert(render_node_model(m.last(), ctx) == src@);
                        assert(m.drop_last() =~= Seq::<NodeV>::empty());
                        assert(render_model(m.drop_last(), ctx) =~= Seq::<char>::empty());
                        assert(render_model(m, ctx) =~= src@);
                    } else {
                        assert(m.len() == 0);
                        assert(src@ =~= Seq::<char>::empty());
                    }
                }
            }
        }
        Ok(t)
    }

    /// The text this template was parsed from.
    pub closed spec fn source(&self) -> Seq<char> {
        self.source@
    }

    /// The template's nodes.
    pub closed spec fn model(&self) -> Seq<NodeV> {
        nodes_view(self.nodes@)
    }

    /// The text this template renders to in a context.
    pub open spec fn spec_render(&self, ctx: Map<Seq<char>, ValueV>) -> Seq<char> {
        render_model(self.model(), ctx)
    }

    /// Render the template against `ctx`.
    pub fn render(&self, ctx: &Vars) -> (r: String)
        ensures
            r@ == self.spec_render(ctx@),
    {
        let mut out = String::new();
        render_nodes(&self.nodes, ctx, &mut out);
        out
    }
}

/// Append the rendering of `nodes` to `out`.
fn render_nodes(nodes: &Vec<Node>, ctx: &Vars, out: &mut String)
    ensures
        final(out)@ == old(out)@ + render_model(nodes_view(nodes@), ctx@),
    decreases nodes@,
{
    let ghost nv = nodes_view(nodes@);
    let mut i: usize = 0;
    while i < nodes.len()
        invariant
            i <= nodes.len(),
            nv == nodes_view(nodes@),
            out@ == old(out)@ + render_model(nv.take(i as int), ctx@),
        decreases nodes.len() - i,
    {
        let ghost before = out@;
        let n = &nodes[i];
        proof {
            assert(nv[i as int] == node_view(nodes@[i as int]));
        }
        match n {
            Node::Text(s) => {
                crate::text::append_string(out, s);
            },
            Node::Var(name) => {
                match ctx.get(name.as_str()) {
                    Some(v) => push_render(out, v),
                    None => {
                        assert(spec_render(ValueV::Null) =~= Seq::<char>::empty());
                    },
                }
            },
            Node::If(cond, then, els) => {
                let t = match ctx.get(cond.as_str()) {
                    Some(v) => v.truthy(),
                    None => false,
                };
                proof {
                    assert(nodes_view(then@) =~= nv[i as int]->If_1);
                    assert(nodes_view(els@) =~= nv[i as int]->If_2);
                }
                if t {
                    assert(decreases_to!(nodes@ => then@)) by {
                        assert(decreases_to!(nodes@ => nodes@[i as int]));
                    }
                    render_nodes(then, ctx, out);
                } else {
                    assert(decreases_to!(nodes@ => els@)) by {
                        assert(decreases_to!(nodes@ => nodes@[i as int]));
                    }
                    render_nodes(els, ctx, out);
                }
            },
            Node::For(var, list, body) => {
                proof {
                    assert(nodes_view(body@) =~= nv[i as int]->For_2);
                }
                match ctx.get(list.as_str()) {
                    Some(Value::List(items)) => {
                        let ghost iv = ctx@[list@]->List_0;
                        let ghost bv = nodes_view(body@);
                        assert(decreases_to!(nodes@ => body@)) by {
                            assert(decreases_to!(nodes@ => nodes@[i as int]));
                        }
                        let mut k: usize = 0;
                        while k < items.len()
                            invariant
                                0 <= i < nodes.len(),
                                decreases_to!(nodes@ => body@),
                                bv == nodes_view(body@),
                                k <= items.len(),
                                iv.len() == items.len(),
                                forall|j: int| 0 <= j < items.len() ==> (#[trigger] items@[j]).view() == iv[j],
                                out@ == before + render_items_model(iv.take(k as int), var@, bv, ctx@),
                            decreases items.len() - k,
                        {
                            let mut sub = ctx.dup();
                            sub.insert(var.clone(), dup_value(&items[k]));
                            render_nodes(body, &sub, out);
                            assert(iv.take(k + 1).drop_last() =~= iv.take(k as int));
                            k = k + 1;
                        }
                        assert(iv.take(k as int) =~= iv);
                    },
                    _ => {},
                }
            },
        }
        assert(out@ == before + render_node_model(nv[i as int], ctx@));
        assert(nv.take(i + 1).drop_last() =~= nv.take(i as int));
        i = i + 1;
    }
    assert(nv.take(i as int) =~= nv);
}


// ---- rendering ----

/// The value of a name in the context (null when unbound).
pub open spec fn lookup(ctx: Map<Seq<char>, ValueV>, name: Seq<char>) -> ValueV {
    if ctx.contains_key(name) {
        ctx[name]
    } else {
        ValueV::Null
    }
}

/// The model of a template node.
pub enum NodeV {
    Text(Seq<char>),
    /// `{{ name }}`.
    Var(Seq<char>),
    /// `{% if name %} then {% else %} else {% endif %}`.
    If(Seq<char>, Seq<NodeV>, Seq<NodeV>),
    /// `{% for item in list %} body {% endfor %}`.
    For(Seq<char>, Seq<char>, Seq<NodeV>),
}

spec fn node_view(n: Node) -> NodeV
    decreases n,
{
    match n {
        Node::Text(s) => NodeV::Text(s@),
        Node::Var(s) => NodeV::Var(s@),
        Node::If(c, t, e) => NodeV::If(
            c@,
            Seq::new(
                t@.len(),
                |i: int|
                    if 0 <= i < t@.len() {
                        node_view(t@[i])
                    } else {
                        NodeV::Text(Seq::empty())
                    },
            ),
            Seq::new(
                e@.len(),
                |i: int|
                    if 0 <= i < e@.len() {
                        node_view(e@[i])
                    } else {
                        NodeV::Text(Seq::empty())
                    },
            ),
        ),
        Node::For(v, l, b) => NodeV::For(
            v@,
            l@,
            Seq::new(
                b@.len(),
                |i: int|
                    if 0 <= i < b@.len() {
                        node_view(b@[i])
                    } else {
                        NodeV::Text(Seq::empty())
                    },
            ),
        ),
    }
}

spec fn nodes_view(ns: Seq<Node>) -> Seq<NodeV> {
    Seq::new(ns.len(), |i: int| node_view(ns[i]))
}

/// What nodes render to in a context: text as it is, a variable as its
/// value's rendering (nothing when unbound), an `if` as the branch its
/// condition's truthiness picks, a `for` as its body once per item of the
/// list, with the loop variable bound to the item (nothing when the name is
/// not a list).
pub open spec fn render_model(nodes: Seq<NodeV>, ctx: Map<Seq<char>, ValueV>) -> Seq<char>
    decreases nodes, 0int,
{
    if nodes.len() == 0 {
        Seq::empty()
    } else {
        render_model(nodes.drop_last(), ctx) + render_node_model(nodes.last(), ctx)
    }
}

pub open spec fn render_node_model(n: NodeV, ctx: Map<Seq<char>, ValueV>) -> Seq<char>
    decreases n, 0int,
{
    match n {
        NodeV::Text(s) => s,
        NodeV::Var(name) => spec_render(lookup(ctx, name)),
        NodeV::If(cond, then, els) => if spec_truthy(lookup(ctx, cond)) {
            render_model(then, ctx)
        } else {
            render_model(els, ctx)
        },
        NodeV::For(var, list, body) => match lookup(ctx, list) {
            ValueV::List(items) => render_items_model(items, var, body, ctx),
            _ => Seq::empty(),
        },
    }
}

/// The body rendered once per item, with the loop variable bound to it.
pub open spec fn render_items_model(
    items: Seq<ValueV>,
    var: Seq<char>,
    body: Seq<NodeV>,
    ctx: Map<Seq<char>, ValueV>,
) -> Seq<char>
    decreases body, items.len(),
{
    if items.len() == 0 {
        Seq::empty()
    } else {
        render_items_model(items.drop_last(), var, body, ctx) + render_model(
            body,
            ctx.insert(var, items.last()),
        )
    }
}

// ---- the template language as a function of the text ----

/// The model of a lexed piece.
pub enum PieceV {
    Text(Seq<char>),
    Expr(Seq<char>),
    Tag(Seq<char>),
}

spec fn piece_view(p: Piece) -> PieceV {
    match p {
        Piece::Text(s) => PieceV::Text(s@),
        Piece::Expr(s) => PieceV::Expr(s@),
        Piece::Tag(s) => PieceV::Tag(s@),
    }
}

spec fn pieces_view(p: Seq<Piece>) -> Seq<PieceV> {
    Seq::new(p.len(), |i: int| piece_view(p[i]))
}

/// The model of a template error.
pub enum TemplateErrV {
    UnterminatedExpr,
    UnterminatedTag,
    WrongClose { expected: Seq<char>, found: Seq<char> },
    UnmatchedClose(Seq<char>),
    MalformedFor(Seq<char>),
}

pub open spec fn terr_view(e: TemplateError) -> TemplateErrV {
    match e {
        TemplateError::UnterminatedExpr => TemplateErrV::UnterminatedExpr,
        TemplateError::UnterminatedTag => TemplateErrV::UnterminatedTag,
        TemplateError::WrongClose { expected, found } => TemplateErrV::WrongClose { expected: expected@, found: found@ },
        TemplateError::UnmatchedClose(t) => TemplateErrV::UnmatchedClose(t@),
        TemplateError::MalformedFor(t) => TemplateErrV::MalformedFor(t@),
    }
}

/// The first index `j >= from` where `x` is followed by `y`, or -1.
pub open spec fn find_pair_from(c: Seq<char>, from: int, x: char, y: char) -> int
    decreases c.len() - from,
{
    if from < 0 || from + 1 >= c.len() {
        -1
    } else if c[from] == x && c[from + 1] == y {
        from
    } else {
        find_pair_from(c, from + 1, x, y)
    }
}

pub proof fn lemma_find_pair_from(c: Seq<char>, from: int, x: char, y: char)
    ensures
        find_pair_from(c, from, x, y) == -1 || from <= find_pair_from(c, from, x, y) < c.len() - 1,
    decreases c.len() - from,
{
    if !(from < 0 || from + 1 >= c.len()) && !(c[from] == x && c[from + 1] == y) {
        lemma_find_pair_from(c, from + 1, x, y);
    }
}

/// The pieces of `c` from index `i`, after `acc`, the current text run
/// having started at `ts`: text runs, `{{ ... }}` expressions and
/// `{% ... %}` tags, the inner text of the last two trimmed.
pub open spec fn pieces_from(c: Seq<char>, i: int, ts: int, acc: Seq<PieceV>) -> Result<Seq<PieceV>, TemplateErrV>
    decreases c.len() - i,
{
    if i < 0 || i >= c.len() {
        Ok(
            if 0 <= ts < c.len() {
                acc.push(PieceV::Text(c.subrange(ts, c.len() as int)))
            } else {
                acc
            },
        )
    } else if opens_at(c, i) {
        let acc1 = if ts < i {
            acc.push(PieceV::Text(c.subrange(ts, i)))
        } else {
            acc
        };
        let expr = c[i + 1] == '{';
        let j = find_pair_from(
            c,
            i + 2,
            if expr {
                '}'
            } else {
                '%'
            },
            '}',
        );
        if j < 0 {
            Err(
                if expr {
                    TemplateErrV::UnterminatedExpr
                } else {
                    TemplateErrV::UnterminatedTag
                },
            )
        } else {
            proof {
                lemma_find_pair_from(c, i + 2, if expr { '}' } else { '%' }, '}');
            }
            let inner = crate::text::spec_trim(c.subrange(i + 2, j));
            pieces_from(
                c,
                j + 2,
                j + 2,
                acc1.push(
                    if expr {
                        PieceV::Expr(inner)
                    } else {
                        PieceV::Tag(inner)
                    },
                ),
            )
        }
    } else {
        pieces_from(c, i + 1, ts, acc)
    }
}

/// Whether a tag closes a block.
pub open spec fn is_closer(t: Seq<char>) -> bool {
    t == "else"@ || t == "endif"@ || t == "endfor"@
}

/// The first index at which ` in ` occurs in `s`, or -1.
pub open spec fn find_in(s: Seq<char>, k: int) -> int
    decreases s.len() - k,
{
    if k < 0 || k >= s.len() {
        -1
    } else if crate::text::spec_starts_with(s.skip(k), " in "@) {
        k
    } else {
        find_in(s, k + 1)
    }
}

/// The loop variable and the list of a `for` tag's text after `for `.
pub open spec fn for_split(s: Seq<char>) -> Option<(Seq<char>, Seq<char>)> {
    let k = find_in(s, 0);
    if k < 0 {
        None
    } else {
        Some((crate::text::spec_trim(s.subrange(0, k)), crate::text::spec_trim(s.subrange(k + 4, s.len() as int))))
    }
}

pub open spec fn prepend(
    n: NodeV,
    r: Result<(Seq<NodeV>, int, Option<Seq<char>>), TemplateErrV>,
) -> Result<(Seq<NodeV>, int, Option<Seq<char>>), TemplateErrV> {
    match r {
        Ok((ns, j, c)) => Ok((seq![n] + ns, j, c)),
        Err(e) => Err(e),
    }
}

pub open spec fn wrong_close(expected: Seq<char>, found: Option<Seq<char>>) -> TemplateErrV {
    TemplateErrV::WrongClose {
        expected,
        found: match found {
            Some(f) => f,
            None => "end of template"@,
        },
    }
}

/// The nodes of the pieces from index `i`, up to a closer tag (`else`,
/// `endif`, `endfor`): the nodes, the index of the closer (or the number of
/// pieces), and the closer.
pub open spec fn build_from(p: Seq<PieceV>, i: int) -> Result<(Seq<NodeV>, int, Option<Seq<char>>), TemplateErrV>
    decreases p.len() - i,
{
    if i < 0 || i >= p.len() {
        Ok((Seq::empty(), p.len() as int, None))
    } else {
        match p[i] {
            PieceV::Text(s) => prepend(NodeV::Text(s), build_from(p, i + 1)),
            PieceV::Expr(s) => prepend(NodeV::Var(s), build_from(p, i + 1)),
            PieceV::Tag(t) => if is_closer(t) {
                Ok((Seq::empty(), i, Some(t)))
            } else if crate::text::spec_starts_with(t, "if "@) {
                let cond = crate::text::spec_trim(t.skip(3));
                match build_from(p, i + 1) {
                    Err(e) => Err(e),
                    // A nested block always ends at a closer after its opener.
                    Ok((then, j, closer)) => if !(i < j < p.len()) || closer is None {
                        Err(wrong_close("endif"@, None))
                    } else if closer->0 == "endif"@ {
                        prepend(NodeV::If(cond, then, Seq::empty()), build_from(p, j + 1))
                    } else if closer->0 != "else"@ {
                        Err(wrong_close("endif"@, closer))
                    } else {
                        match build_from(p, j + 1) {
                            Err(e) => Err(e),
                            Ok((els, k, closer2)) => if !(j < k < p.len()) || closer2 is None {
                                Err(wrong_close("endif"@, None))
                            } else if closer2->0 != "endif"@ {
                                Err(wrong_close("endif"@, closer2))
                            } else {
                                prepend(NodeV::If(cond, then, els), build_from(p, k + 1))
                            },
                        }
                    },
                }
            } else if crate::text::spec_starts_with(t, "for "@) {
                match for_split(t.skip(4)) {
                    None => Err(TemplateErrV::MalformedFor(t.skip(4))),
                    Some((var, list)) => match build_from(p, i + 1) {
                        Err(e) => Err(e),
                        Ok((body, j, closer)) => if !(i < j < p.len()) || closer is None {
                            Err(wrong_close("endfor"@, None))
                        } else if closer->0 != "endfor"@ {
                            Err(wrong_close("endfor"@, closer))
                        } else {
                            prepend(NodeV::For(var, list, body), build_from(p, j + 1))
                        },
                    },
                }
            } else {
                Err(TemplateErrV::UnmatchedClose(t))
            },
        }
    }
}

/// Where building stops at a closer, the closer is `else`, `endif` or
/// `endfor`, and it is the tag at the index building stopped at.
proof fn lemma_closer(p: Seq<PieceV>, i: int)
    ensures
        build_from(p, i) matches Ok((_, j, Some(c))) ==> 0 <= j < p.len() && p[j] == PieceV::Tag(c) && is_closer(c),
    decreases p.len() - i,
{
    if 0 <= i < p.len() {
        match p[i] {
            PieceV::Text(_) => lemma_closer(p, i + 1),
            PieceV::Expr(_) => lemma_closer(p, i + 1),
            PieceV::Tag(t) => if is_closer(t) {
            } else if crate::text::spec_starts_with(t, "if "@) {
                match build_from(p, i + 1) {
                    Ok((_, j, closer)) => if i < j < p.len() && closer is Some {
                        lemma_closer(p, j + 1);
                        match build_from(p, j + 1) {
                            Ok((_, k, _)) => if j < k < p.len() {
                                lemma_closer(p, k + 1);
                            },
                            Err(_) => {},
                        }
                    },
                    Err(_) => {},
                }
            } else if crate::text::spec_starts_with(t, "for "@) {
                match build_from(p, i + 1) {
                    Ok((_, j, closer)) => if i < j < p.len() {
                        lemma_closer(p, j + 1);
                    },
                    Err(_) => {},
                }
            },
        }
    }
}

/// The nodes of a template text, or the error that stops it.
pub open spec fn spec_template(src: Seq<char>) -> Result<Seq<NodeV>, TemplateErrV> {
    match pieces_from(src, 0, 0, Seq::empty()) {
        Err(e) => Err(e),
        Ok(p) => match build_from(p, 0) {
            Err(e) => Err(e),
            Ok((nodes, _, closer)) => match closer {
                Some(c) => Err(TemplateErrV::UnmatchedClose(c)),
                None => Ok(nodes),
            },
        },
    }
}

} // verus!
