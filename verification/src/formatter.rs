//! Node templates: a template body plus its parameter schema (the
//! "formatter"), as written in a `.j2.md` file's front matter.
//!
//! A file that starts with a `---` line carries a front-matter block up to the
//! next `\n---`; each of its lines declares a parameter as
//! `name: type[, required][, default=value]`, and an `on_check:` key holds an
//! optional check-instruction template, inline or as a `|` literal block.

use vstd::prelude::*;

use crate::text::{
    chars_match_at, find_char, line_ranges, owned, push_char, ranges_are, spec_lines,
    spec_split, spec_starts_with, spec_trim, split_ranges, str_chars, str_eq, string_from_range,
    trim_end, trimmed,
};
use crate::value::{Value, ValueV};

verus! {

/// The type of a template parameter, declared in the formatter.
#[derive(Debug, Clone, Copy, PartialEq, Eq, Structural)]
pub enum ParamKind {
    /// A string value (string literal in the DSL).
    String,
    /// A boolean: `true` or `false`.
    Bool,
    /// A list literal `[a, b, c]`.
    List,
    /// On `return`: the node produces no value, so a call to it cannot be
    /// assigned or returned.
    NoValue,
    /// On `return`: the node returns a boolean without a `return=` argument.
    IntrinsicBool,
}

/// One parameter definition from a template's formatter.
#[derive(Debug, PartialEq)]
pub struct ParamSpec {
    /// The parameter name, e.g. `instruction`, `return`, `check`.
    pub name: String,
    /// The declared type.
    pub kind: ParamKind,
    /// Whether the parameter must always be present.
    pub required: bool,
    /// A declarative default value, if any.
    pub default: Option<Value>,
}

/// The mathematical model of a [`ParamSpec`].
pub struct ParamSpecV {
    pub name: Seq<char>,
    pub kind: ParamKind,
    pub required: bool,
    pub default: Option<ValueV>,
}

pub open spec fn opt_value_view(v: Option<Value>) -> Option<ValueV> {
    match v {
        Some(x) => Some(x.view()),
        None => None,
    }
}

pub open spec fn opt_string_view(s: Option<String>) -> Option<Seq<char>> {
    match s {
        Some(x) => Some(x@),
        None => None,
    }
}

impl ParamSpec {
    pub open spec fn view(&self) -> ParamSpecV {
        ParamSpecV {
            name: self.name@,
            kind: self.kind,
            required: self.required,
            default: opt_value_view(self.default),
        }
    }
}

/// A parsed template definition: the formatter's parameters and the body.
#[derive(Debug)]
pub struct NodeTemplate {
    /// Parameter specs from the formatter.
    pub params: Vec<ParamSpec>,
    /// The template body: the instruction text, in the template language.
    pub body: String,
    /// An optional template for the check instruction, rendered with
    /// `{{ check }}` in its context in place of the plain check value.
    pub on_check: Option<String>,
}

/// The mathematical model of a [`NodeTemplate`].
pub struct NodeTemplateV {
    pub params: Seq<ParamSpecV>,
    pub body: Seq<char>,
    pub on_check: Option<Seq<char>>,
}

pub open spec fn params_view(p: Seq<ParamSpec>) -> Seq<ParamSpecV> {
    Seq::new(p.len(), |i: int| p[i].view())
}

impl NodeTemplate {
    pub open spec fn view(&self) -> NodeTemplateV {
        NodeTemplateV {
            params: params_view(self.params@),
            body: self.body@,
            on_check: opt_string_view(self.on_check),
        }
    }

    /// The `return` parameter spec, if any (the first one).
    pub fn return_spec(&self) -> (r: Option<&ParamSpec>)
        ensures
            index_named(self@.params, "return"@, 0) < 0 ==> r is None,
            index_named(self@.params, "return"@, 0) >= 0 ==> index_named(self@.params, "return"@, 0)
                < self.params@.len() && r == Some(&self.params@[index_named(self@.params, "return"@, 0)]),
    {
        let mut k: usize = 0;
        proof {
            lemma_index_named_bounds(self@.params, "return"@, 0);
        }
        while k < self.params.len()
            invariant
                k <= self.params@.len(),
                index_named(self@.params, "return"@, 0) == index_named(self@.params, "return"@, k as int),
            decreases self.params.len() - k,
        {
            assert(self@.params[k as int] == self.params@[k as int]@);
            if str_eq(self.params[k].name.as_str(), "return") {
                return Some(&self.params[k]);
            }
            k = k + 1;
        }
        None
    }
}

pub proof fn lemma_index_named_bounds(params: Seq<ParamSpecV>, name: Seq<char>, i: int)
    ensures
        index_named(params, name, i) == -1 || (i <= index_named(params, name, i) < params.len()),
    decreases params.len() - i,
{
    if 0 <= i < params.len() && params[i].name != name {
        lemma_index_named_bounds(params, name, i + 1);
    }
}

/// The first index `k >= i` of a parameter named `name`, or -1.
pub open spec fn index_named(params: Seq<ParamSpecV>, name: Seq<char>, i: int) -> int
    decreases params.len() - i,
{
    if i < 0 || i >= params.len() {
        -1
    } else if params[i].name == name {
        i
    } else {
        index_named(params, name, i + 1)
    }
}

/// A copy of a parameter spec.
pub fn dup_param(p: &ParamSpec) -> (r: ParamSpec)
    ensures
        r@ == p@,
{
    ParamSpec {
        name: p.name.clone(),
        kind: p.kind,
        required: p.required,
        default: match &p.default {
            Some(v) => Some(crate::value::dup_value(v)),
            None => None,
        },
    }
}

/// A copy of a node template.
pub fn dup_node_template(t: &NodeTemplate) -> (r: NodeTemplate)
    ensures
        r@ == t@,
{
    let mut params: Vec<ParamSpec> = Vec::new();
    let mut k: usize = 0;
    while k < t.params.len()
        invariant
            k <= t.params@.len(),
            params@.len() == k,
            forall|j: int| 0 <= j < k ==> (#[trigger] params@[j])@ == t.params@[j]@,
        decreases t.params.len() - k,
    {
        params.push(dup_param(&t.params[k]));
        k = k + 1;
    }
    let r = NodeTemplate {
        params,
        body: t.body.clone(),
        on_check: match &t.on_check {
            Some(s) => Some(s.clone()),
            None => None,
        },
    };
    assert(r@.params =~= t@.params);
    r
}

// ---- the front matter ----

/// The default value written after `default=`: `true`, `false`, or a
/// double-quoted string.
pub open spec fn spec_parse_default(s: Seq<char>) -> Option<ValueV> {
    if s == "true"@ {
        Some(ValueV::Bool(true))
    } else if s == "false"@ {
        Some(ValueV::Bool(false))
    } else if s.len() >= 2 && s[0] == '"' && s.last() == '"' {
        Some(ValueV::Str(s.subrange(1, s.len() - 1)))
    } else {
        None
    }
}

fn parse_default(s: &Vec<char>, a: usize, b: usize) -> (r: Option<Value>)
    requires
        a <= b <= s.len(),
    ensures
        opt_value_view(r) == spec_parse_default(s@.subrange(a as int, b as int)),
{
    let t = string_from_range(s, a, b);
    if str_eq(t.as_str(), "true") {
        Some(Value::Bool(true))
    } else if str_eq(t.as_str(), "false") {
        Some(Value::Bool(false))
    } else if b - a >= 2 && s[a] == '"' && s[b - 1] == '"' {
        let inner = string_from_range(s, a + 1, b - 1);
        assert(inner@ =~= s@.subrange(a as int, b as int).subrange(1, (b - a) - 1));
        Some(Value::Str(inner))
    } else {
        None
    }
}

/// The parameter type named by a formatter type word, for the parameter
/// `name`: `bool` on `return` marks the node's result as an intrinsic
/// boolean.
pub open spec fn kind_of(name: Seq<char>, s: Seq<char>) -> Option<ParamKind> {
    if s == "string"@ {
        Some(ParamKind::String)
    } else if s == "bool"@ {
        if name == "return"@ {
            Some(ParamKind::IntrinsicBool)
        } else {
            Some(ParamKind::Bool)
        }
    } else if s == "list"@ {
        Some(ParamKind::List)
    } else if s == "none"@ {
        Some(ParamKind::NoValue)
    } else {
        None
    }
}

/// Whether a modifier list marks the parameter `required`.
pub open spec fn mods_required(ms: Seq<Seq<char>>) -> bool {
    exists|i: int| 0 <= i < ms.len() && spec_trim(#[trigger] ms[i]) == "required"@
}

/// The default declared by the last `default=` modifier, if any.
pub open spec fn mods_default(ms: Seq<Seq<char>>) -> Option<ValueV>
    decreases ms.len(),
{
    if ms.len() == 0 {
        None
    } else {
        let m = spec_trim(ms.last());
        if spec_starts_with(m, "default="@) {
            spec_parse_default(spec_trim(m.skip(8)))
        } else {
            mods_default(ms.drop_last())
        }
    }
}

/// The state of the front-matter reader between lines.
pub struct FmV {
    pub params: Seq<ParamSpecV>,
    pub on_check: Option<Seq<char>>,
    /// Inside an `on_check: |` literal block.
    pub in_block: bool,
    /// The block's lines so far.
    pub block: Seq<Seq<char>>,
}

/// Lines joined with `\n`.
pub open spec fn join_lines(b: Seq<Seq<char>>) -> Seq<char>
    decreases b.len(),
{
    if b.len() == 0 {
        Seq::empty()
    } else if b.len() == 1 {
        b[0]
    } else {
        join_lines(b.drop_last()) + seq!['\n'] + b.last()
    }
}

/// A literal block's text: its lines joined, trailing whitespace removed.
pub open spec fn close_block(b: Seq<Seq<char>>) -> Seq<char> {
    join_lines(b).take(trim_end(join_lines(b)))
}

/// A front-matter line outside a literal block.
pub open spec fn fm_plain_line(st: FmV, line: Seq<char>) -> FmV {
    let t = spec_trim(line);
    if t.len() == 0 || t == "parameter:"@ {
        st
    } else if spec_starts_with(t, "on_check:"@) {
        let rest = spec_trim(t.skip(9));
        if rest == "|"@ {
            FmV { in_block: true, block: Seq::empty(), ..st }
        } else if rest.len() > 0 {
            FmV { on_check: Some(rest), ..st }
        } else {
            st
        }
    } else {
        match spec_param_line(t) {
            Some(p) => FmV { params: st.params.push(p), ..st },
            None => st,
        }
    }
}

/// The parameter a trimmed line `name: type[, modifier...]` declares, if its
/// type word is known.
pub open spec fn spec_param_line(t: Seq<char>) -> Option<ParamSpecV> {
    let k = find_char(t, ':', 0);
    if k < 0 {
        None
    } else {
        let parts = spec_split(t.skip(k + 1), ',');
        match kind_of(spec_trim(t.take(k)), spec_trim(parts[0])) {
            Some(kind) => Some(
                ParamSpecV {
                    name: spec_trim(t.take(k)),
                    kind,
                    required: mods_required(parts.skip(1)),
                    default: mods_default(parts.skip(1)),
                },
            ),
            None => None,
        }
    }
}

/// One front-matter line: inside a literal block an indented or empty line
/// joins the block (one two-space indent removed); any other line closes it
/// and is read as a plain line.
pub open spec fn fm_line(st: FmV, line: Seq<char>) -> FmV {
    if st.in_block {
        if line.len() > 0 && (line[0] == ' ' || line[0] == '\t') {
            let l = if spec_starts_with(line, "  "@) {
                line.skip(2)
            } else {
                line
            };
            FmV { block: st.block.push(l), ..st }
        } else if line.len() == 0 {
            FmV { block: st.block.push(Seq::empty()), ..st }
        } else {
            fm_plain_line(
                FmV { in_block: false, on_check: Some(close_block(st.block)), block: Seq::empty(), ..st },
                line,
            )
        }
    } else {
        fm_plain_line(st, line)
    }
}

/// The reader's state after `lines`.
pub open spec fn fm_fold(lines: Seq<Seq<char>>) -> FmV
    decreases lines.len(),
{
    if lines.len() == 0 {
        FmV { params: Seq::empty(), on_check: None, in_block: false, block: Seq::empty() }
    } else {
        fm_line(fm_fold(lines.drop_last()), lines.last())
    }
}

/// The parameters and `on_check` template a front matter declares.
pub open spec fn spec_front_matter(src: Seq<char>) -> (Seq<ParamSpecV>, Option<Seq<char>>) {
    let st = fm_fold(spec_lines(src));
    if st.in_block && st.block.len() > 0 {
        (st.params, Some(close_block(st.block)))
    } else {
        (st.params, st.on_check)
    }
}

struct FrontMatter {
    params: Vec<ParamSpec>,
    on_check: Option<String>,
    in_block: bool,
    block: Vec<String>,
}

impl FrontMatter {
    spec fn view(&self) -> FmV {
        FmV {
            params: params_view(self.params@),
            on_check: opt_string_view(self.on_check),
            in_block: self.in_block,
            block: Seq::new(self.block@.len(), |i: int| self.block@[i]@),
        }
    }
}

/// The characters `v[a..b]`.
fn sub_chars(v: &Vec<char>, a: usize, b: usize) -> (r: Vec<char>)
    requires
        a <= b <= v.len(),
    ensures
        r@ == v@.subrange(a as int, b as int),
{
    let mut out: Vec<char> = Vec::new();
    let mut k = a;
    while k < b
        invariant
            a <= k <= b <= v.len(),
            out@ == v@.subrange(a as int, k as int),
        decreases b - k,
    {
        out.push(v[k]);
        assert(out@ =~= v@.subrange(a as int, k + 1));
        k = k + 1;
    }
    out
}

/// The first index `k >= from` with `v[k] == c`.
fn find_char_from(v: &Vec<char>, c: char, from: usize) -> (r: Option<usize>)
    ensures
        match r {
            Some(k) => k as int == find_char(v@, c, from as int) && k < v@.len(),
            None => find_char(v@, c, from as int) == -1,
        },
{
    let mut k = from;
    while k < v.len()
        invariant
            from <= k,
            find_char(v@, c, from as int) == find_char(v@, c, k as int),
        decreases v.len() - k,
    {
        if v[k] == c {
            return Some(k);
        }
        k = k + 1;
    }
    None
}

/// Lines joined with `\n`, trailing whitespace removed.
fn close_block_exec(b: &Vec<String>) -> (r: String)
    ensures
        r@ == close_block(Seq::new(b@.len(), |i: int| b@[i]@)),
{
    let ghost bv = Seq::new(b@.len(), |i: int| b@[i]@);
    let mut j = String::new();
    let mut k: usize = 0;
    while k < b.len()
        invariant
            k <= b@.len(),
            bv == Seq::new(b@.len(), |i: int| b@[i]@),
            j@ == join_lines(bv.take(k as int)),
        decreases b.len() - k,
    {
        if k > 0 {
            push_char(&mut j, '\n');
        }
        crate::text::append_string(&mut j, &b[k]);
        proof {
            let t = bv.take(k + 1);
            assert(t.drop_last() =~= bv.take(k as int));
            if k == 0 {
                assert(j@ =~= join_lines(t));
            } else {
                assert(j@ =~= join_lines(t));
            }
        }
        k = k + 1;
    }
    assert(bv.take(b@.len() as int) =~= bv);
    let c = str_chars(j.as_str());
    let mut e = c.len();
    assert(c@.take(e as int) =~= c@);
    while e > 0 && crate::text::is_whitespace(c[e - 1])
        invariant
            e <= c@.len(),
            c@ == join_lines(bv),
            trim_end(c@) == trim_end(c@.take(e as int)),
        decreases e,
    {
        assert(c@.take(e as int).drop_last() =~= c@.take(e - 1));
        e = e - 1;
    }
    proof {
        assert(c@.take(c@.len() as int) =~= c@);
        lemma_trim_end_take(c@, e as int);
    }
    string_from_range(&c, 0, e)
}

/// `trim_end` of a prefix that ends in a non-whitespace character (or is
/// empty) is its length.
proof fn lemma_trim_end_take(s: Seq<char>, e: int)
    requires
        0 <= e <= s.len(),
        e == 0 || !crate::text::spec_is_whitespace(s[e - 1]),
        trim_end(s) == trim_end(s.take(e)),
    ensures
        trim_end(s) == e,
{
    if e > 0 {
        assert(s.take(e).last() == s[e - 1]);
    }
}

/// The `required` flag and the default that modifiers `parts[1..]` declare.
fn read_modifiers(rv: &Vec<char>, parts: &Vec<(usize, usize)>) -> (r: (bool, Option<Value>))
    requires
        parts@.len() >= 1,
        ranges_are(rv@, parts@, spec_split(rv@, ',')),
    ensures
        r.0 == mods_required(spec_split(rv@, ',').skip(1)),
        opt_value_view(r.1) == mods_default(spec_split(rv@, ',').skip(1)),
{
    let ghost ps = spec_split(rv@, ',');
    let mut required = false;
    let mut default: Option<Value> = None;
    let mut m: usize = 1;
    proof {
        reveal_strlit("required");
        reveal_strlit("default=");
        assert(ps.skip(1).take(0) =~= Seq::<Seq<char>>::empty());
    }
    while m < parts.len()
        invariant
            1 <= m <= parts@.len(),
            ps == spec_split(rv@, ','),
            ranges_are(rv@, parts@, ps),
            required == mods_required(ps.skip(1).take(m - 1)),
            opt_value_view(default) == mods_default(ps.skip(1).take(m - 1)),
        decreases parts.len() - m,
    {
        let ghost before = ps.skip(1).take(m - 1);
        let ghost now = ps.skip(1).take(m as int);
        proof {
            assert(now.drop_last() =~= before);
            assert(now.last() == ps[m as int]);
            assert forall|i: int| 0 <= i < before.len() implies now[i] == before[i] by {}
        }
        let piece = trimmed(&rv, parts[m].0, parts[m].1);
        let pc = str_chars(piece.as_str());
        proof {
            assert(pc@.skip(0) =~= pc@);
        }
        if str_eq(piece.as_str(), "required") {
            required = true;
            proof {
                reveal_strlit("required");
                reveal_strlit("default=");
                assert(spec_trim(now[m - 1]) == "required"@);
                assert(!spec_starts_with("required"@, "default="@));
            }
        } else {
            proof {
                if mods_required(now) {
                    let i = choose|i: int| 0 <= i < now.len() && spec_trim(#[trigger] now[i]) == "required"@;
                    assert(i < m - 1);
                    assert(spec_trim(before[i]) == "required"@);
                }
                if mods_required(before) {
                    let i = choose|i: int| 0 <= i < before.len() && spec_trim(#[trigger] before[i]) == "required"@;
                    assert(spec_trim(now[i]) == "required"@);
                }
            }
            let prefix = str_chars("default=");
            if chars_match_at(&pc, 0, &prefix) {
                proof {
                    reveal_strlit("default=");
                }
                let vt = trimmed(&pc, 8, pc.len());
                let vc = str_chars(vt.as_str());
                proof {
                    assert(pc@.subrange(8, pc@.len() as int) =~= pc@.skip(8));
                    assert(vc@.subrange(0, vc@.len() as int) =~= vc@);
                }
                default = parse_default(&vc, 0, vc.len());
            }
        }
        m = m + 1;
    }
    proof {
        assert(ps.skip(1).take(parts@.len() - 1) =~= ps.skip(1));
    }
    (required, default)
}

/// The parameter a trimmed line declares (see [`spec_param_line`]).
fn param_line(tc: &Vec<char>) -> (r: Option<ParamSpec>)
    ensures
        match r {
            Some(p) => spec_param_line(tc@) == Some(p@),
            None => spec_param_line(tc@) is None,
        },
{
    let k = match find_char_from(tc, ':', 0) {
        Some(k) => k,
        None => {
            return None;
        },
    };
    let n = tc.len();
    assert(k < n);
    let name = trimmed(tc, 0, k);
    proof {
        assert(tc@.subrange(0, k as int) =~= tc@.take(k as int));
    }
    let rv = sub_chars(tc, k + 1, n);
    proof {
        assert(rv@ =~= tc@.skip(k + 1));
    }
    let parts = split_ranges(&rv, ',');
    let ghost ps = spec_split(rv@, ',');
    assert(ps.len() >= 1);
    let first = trimmed(&rv, parts[0].0, parts[0].1);
    let kind = if str_eq(first.as_str(), "string") {
        ParamKind::String
    } else if str_eq(first.as_str(), "bool") {
        if str_eq(name.as_str(), "return") {
            ParamKind::IntrinsicBool
        } else {
            ParamKind::Bool
        }
    } else if str_eq(first.as_str(), "list") {
        ParamKind::List
    } else if str_eq(first.as_str(), "none") {
        ParamKind::NoValue
    } else {
        return None;
    };
    let (required, default) = read_modifiers(&rv, &parts);
    Some(ParamSpec { name, kind, required, default })
}

/// Apply one plain (non-block) front-matter line `v[a..b]`.
fn fm_plain_exec(st: &mut FrontMatter, v: &Vec<char>, a: usize, b: usize)
    requires
        a <= b <= v.len(),
    ensures
        final(st)@ == fm_plain_line(old(st)@, v@.subrange(a as int, b as int)),
{
    let t = trimmed(v, a, b);
    let tc = str_chars(t.as_str());
    if tc.len() == 0 || str_eq(t.as_str(), "parameter:") {
        return;
    }
    let on_check_key = str_chars("on_check:");
    proof {
        assert(tc@.skip(0) =~= tc@);
    }
    if chars_match_at(&tc, 0, &on_check_key) {
        proof {
            reveal_strlit("on_check:");
            assert(tc@.subrange(9, tc@.len() as int) =~= tc@.skip(9));
        }
        let rest = trimmed(&tc, 9, tc.len());
        if str_eq(rest.as_str(), "|") {
            st.in_block = true;
            st.block = Vec::new();
            proof {
                assert(st@.block =~= Seq::<Seq<char>>::empty());
            }
        } else if rest.as_str().unicode_len() > 0 {
            st.on_check = Some(rest);
        }
        return;
    }
    match param_line(&tc) {
        Some(p) => {
            st.params.push(p);
            proof {
                assert(st@.params =~= old(st)@.params.push(p@));
            }
        },
        None => {},
    }
}

/// Apply one front-matter line `v[a..b]` (see [`fm_line`]).
fn fm_line_exec(st: &mut FrontMatter, v: &Vec<char>, a: usize, b: usize)
    requires
        a <= b <= v.len(),
    ensures
        final(st)@ == fm_line(old(st)@, v@.subrange(a as int, b as int)),
{
    let ghost line = v@.subrange(a as int, b as int);
    if st.in_block {
        if b > a && (v[a] == ' ' || v[a] == '\t') {
            let two = b - a >= 2 && v[a] == ' ' && v[a + 1] == ' ';
            assert(two == spec_starts_with(line, "  "@)) by {
                reveal_strlit("  ");
                assert("  "@ =~= seq![' ', ' ']);
                if line.len() >= 2 {
                    assert(line.take(2) =~= seq![line[0], line[1]]);
                }
            }
            let l = if two {
                let l = string_from_range(v, a + 2, b);
                assert(l@ =~= line.skip(2));
                l
            } else {
                string_from_range(v, a, b)
            };
            let ghost old_block = st@.block;
            let ghost expect_l = if spec_starts_with(line, "  "@) {
                line.skip(2)
            } else {
                line
            };
            assert(l@ == expect_l);
            st.block.push(l);
            proof {
                assert(st@.block =~= old_block.push(expect_l));
                assert(line.len() > 0 && (line[0] == ' ' || line[0] == '\t'));
            }
            return;
        } else if b == a {
            let ghost old_block = st@.block;
            st.block.push(String::new());
            proof {
                assert(st@.block =~= old_block.push(Seq::empty()));
            }
            return;
        } else {
            let oc = close_block_exec(&st.block);
            st.in_block = false;
            st.on_check = Some(oc);
            st.block = Vec::new();
            proof {
                assert(st@.block =~= Seq::<Seq<char>>::empty());
            }
        }
    }
    fm_plain_exec(st, v, a, b);
}

/// Parse a front-matter section into its parameter specs and optional
/// `on_check` template (see [`spec_front_matter`]).
pub fn parse_front_matter(src: &str) -> (r: (Vec<ParamSpec>, Option<String>))
    ensures
        params_view(r.0@) == spec_front_matter(src@).0,
        opt_string_view(r.1) == spec_front_matter(src@).1,
{
    let c = str_chars(src);
    let lines = line_ranges(&c);
    let ghost ls = spec_lines(c@);
    let mut st = FrontMatter { params: Vec::new(), on_check: None, in_block: false, block: Vec::new() };
    proof {
        assert(st@.params =~= Seq::<ParamSpecV>::empty());
        assert(st@.block =~= Seq::<Seq<char>>::empty());
        assert(ls.take(0) =~= Seq::<Seq<char>>::empty());
    }
    let mut k: usize = 0;
    while k < lines.len()
        invariant
            k <= lines@.len(),
            ls == spec_lines(c@),
            ranges_are(c@, lines@, ls),
            st@ == fm_fold(ls.take(k as int)),
        decreases lines.len() - k,
    {
        fm_line_exec(&mut st, &c, lines[k].0, lines[k].1);
        proof {
            let t = ls.take(k + 1);
            assert(t.drop_last() =~= ls.take(k as int));
            assert(t.last() == ls[k as int]);
        }
        k = k + 1;
    }
    proof {
        assert(ls.take(ls.len() as int) =~= ls);
    }
    if st.in_block && st.block.len() > 0 {
        let oc = close_block_exec(&st.block);
        (st.params, Some(oc))
    } else {
        (st.params, st.on_check)
    }
}

/// The formatter and body of a file that opens with a `---` line: the text up
/// to the next `\n---`, and what follows that line (its `\n` removed).
pub open spec fn spec_split_front_matter(s: Seq<char>) -> Option<(Seq<char>, Seq<char>)> {
    if !spec_starts_with(s, "---\n"@) {
        None
    } else {
        let after = s.skip(4);
        let end = crate::text::find_sub(after, "\n---"@, 0);
        if end < 0 {
            None
        } else {
            let rest = after.skip(end + 4);
            Some(
                (
                    after.take(end),
                    if rest.len() > 0 && rest[0] == '\n' {
                        rest.skip(1)
                    } else {
                        rest
                    },
                ),
            )
        }
    }
}

/// Split `---\n...\n---\n...` into `(formatter, body)`; `None` when the text
/// does not open with `---` or the formatter is not closed.
#[verifier::rlimit(40)]
fn split_front_matter(src: &str) -> (r: Option<(String, String)>)
    ensures
        match r {
            Some((f, b)) => spec_split_front_matter(src@) == Some((f@, b@)),
            None => spec_split_front_matter(src@) is None,
        },
{
    let c = str_chars(src);
    let open = str_chars("---\n");
    proof {
        assert(c@.skip(0) =~= c@);
    }
    if !chars_match_at(&c, 0, &open) {
        return None;
    }
    proof {
        reveal_strlit("---\n");
        reveal_strlit("\n---");
    }
    let after = sub_chars(&c, 4, c.len());
    assert(after@ =~= c@.skip(4));
    let close = str_chars("\n---");
    let end = match crate::text::find_sub_from(&after, &close, 0) {
        Some(e) => e,
        None => {
            return None;
        },
    };
    let formatter = string_from_range(&after, 0, end);
    assert(formatter@ =~= after@.take(end as int));
    let body_start = end + 4;
    let body = if body_start < after.len() && after[body_start] == '\n' {
        let b = string_from_range(&after, body_start + 1, after.len());
        assert(b@ =~= after@.skip(body_start as int).skip(1));
        b
    } else {
        let b = string_from_range(&after, body_start, after.len());
        assert(b@ =~= after@.skip(body_start as int));
        b
    };
    Some((formatter, body))
}

/// The minimal formatter of a body without front matter: one required
/// string `instruction`.
pub open spec fn instruction_param() -> ParamSpecV {
    ParamSpecV { name: "instruction"@, kind: ParamKind::String, required: true, default: None }
}

/// The node template a `.j2.md` file defines.
pub open spec fn spec_parse_template(s: Seq<char>) -> NodeTemplateV {
    match spec_split_front_matter(s) {
        Some((f, b)) => NodeTemplateV {
            params: spec_front_matter(f).0,
            body: b,
            on_check: spec_front_matter(f).1,
        },
        None => NodeTemplateV { params: seq![instruction_param()], body: s, on_check: None },
    }
}

/// The required string `instruction` parameter.
pub fn instruction_spec() -> (r: ParamSpec)
    ensures
        r@ == instruction_param(),
{
    ParamSpec { name: owned("instruction"), kind: ParamKind::String, required: true, default: None }
}

/// Parse a `.j2.md` file into a [`NodeTemplate`]. A file that starts with a
/// `---` front-matter block has its formatter there and its body after it;
/// any other file is all body, with a required `instruction` parameter.
pub fn parse_template(src: &str) -> (r: NodeTemplate)
    ensures
        r@ == spec_parse_template(src@),
{
    match split_front_matter(src) {
        Some((formatter, body)) => {
            let (params, on_check) = parse_front_matter(formatter.as_str());
            NodeTemplate { params, body, on_check }
        },
        None => {
            let params = vec![instruction_spec()];
            let r = NodeTemplate { params, body: owned(src), on_check: None };
            assert(r@.params =~= seq![instruction_param()]);
            r
        },
    }
}

} // verus!
